use frouter::config::{
    build_configuration, Configuration, FileExtension, RawDirEntry, RawExtension, RawValue,
};
use frouter::error::FileRouterError;
use frouter::hash::sha256_hex;
use frouter::paths::{base_name, expand_home, name_has_extension, split_name};
use frouter::route::{get_extension_from_config, get_unique_target, plan_move};
use frouter::strutil::{to_hex_lower, u64_to_string};

const ABC_SHA256: &str = "ba7816bf8f01cfea414140de5dae2223b00361a396177a9cb410ff61f20015ad";
const EMPTY_SHA256: &str = "e3b0c44298fc1c149afbf4c8996fb92427ae41e4649b934ca495991b7852b855";

#[test]
fn unique_target_is_content_aware() {
    let listing = vec![(String::from("a.txt"), String::from("d1"))];
    // identical content resolves to the existing file: already placed
    let same = get_unique_target(&String::from("a.txt"), &String::from("d1"), &listing);
    assert_eq!(same, "a.txt");
    // different content gets the first numbered variant
    let other = get_unique_target(&String::from("a.txt"), &String::from("d2"), &listing);
    assert_eq!(other, "a_1.txt");
}

#[test]
fn unique_target_counts_past_taken_slots() {
    let listing = vec![
        (String::from("a.txt"), String::from("d1")),
        (String::from("a_1.txt"), String::from("d3")),
    ];
    assert_eq!(get_unique_target(&String::from("a.txt"), &String::from("d2"), &listing), "a_2.txt");
    // a numbered slot holding identical content is reused
    assert_eq!(get_unique_target(&String::from("a.txt"), &String::from("d3"), &listing), "a_1.txt");
    // a vacant name is taken as it is
    assert_eq!(get_unique_target(&String::from("b.txt"), &String::from("d9"), &listing), "b.txt");
}

#[test]
fn unique_target_without_extension() {
    let listing = vec![(String::from("notes"), String::from("d1"))];
    let r = get_unique_target(&String::from("notes"), &String::from("d2"), &listing);
    assert_eq!(r, "notes_1.");
}

#[test]
fn plan_move_digests_and_resolves() {
    let empty: Vec<(String, String)> = Vec::new();
    let p = plan_move(&String::from("a.txt"), b"abc", &empty);
    assert_eq!(p.digest, ABC_SHA256);
    assert_eq!(p.target_name, "a.txt");
    // the destination already holds the same bytes under that name
    let listing = vec![(String::from("a.txt"), String::from(ABC_SHA256))];
    let q = plan_move(&String::from("a.txt"), b"abc", &listing);
    assert_eq!(q.target_name, "a.txt");
    // and different bytes under that name
    let r = plan_move(&String::from("a.txt"), b"xyz", &listing);
    assert_eq!(r.target_name, "a_1.txt");
}

#[test]
fn sha256_hex_known_vectors() {
    assert_eq!(sha256_hex(b"abc"), ABC_SHA256);
    assert_eq!(sha256_hex(b""), EMPTY_SHA256);
}

#[test]
fn extension_match_is_case_insensitive() {
    let exts = vec![
        FileExtension { name: String::from("txt"), path: String::from("/dest") },
        FileExtension { name: String::from("PDF"), path: String::from("/pdf") },
    ];
    let r = get_extension_from_config(&String::from("/w/Report.TXT"), &exts).expect("match");
    assert_eq!(r.path, "/dest");
    let r2 = get_extension_from_config(&String::from("/w/doc.pdf"), &exts).expect("match");
    assert_eq!(r2.path, "/pdf");
    assert!(get_extension_from_config(&String::from("/w/noext"), &exts).is_none());
    assert!(get_extension_from_config(&String::from("/w/x.jpg"), &exts).is_none());
}

#[test]
fn extension_match_takes_the_first_rule() {
    let exts = vec![
        FileExtension { name: String::from("txt"), path: String::from("/first") },
        FileExtension { name: String::from("TXT"), path: String::from("/second") },
    ];
    let r = get_extension_from_config(&String::from("a.txt"), &exts).expect("match");
    assert_eq!(r.path, "/first");
}

#[test]
fn test_load_config() {
    // the raw entries of a file declaring one directory and one enabled
    // extension: the directory is kept without any enable flag
    let dirs = vec![RawDirEntry {
        key: String::from("downloads"),
        value: RawValue::Text(String::from("test_downloads")),
    }];
    let exts = vec![RawExtension {
        name: Some(String::from("txt")),
        path: Some(String::from("test_downloads/TXT")),
        enabled: true,
    }];
    let home = String::from("/home/u");
    let config = build_configuration(&dirs, &exts, &home).expect("loads");
    assert_eq!(
        config.directories,
        vec![(String::from("downloads"), String::from("test_downloads"))]
    );
    assert_eq!(config.extensions.len(), 1);
    assert_eq!(config.extensions[0].name, "txt");
    assert_eq!(config.extensions[0].path, "test_downloads/TXT");
}

#[test]
fn build_configuration_retains_declared_entries() {
    let dirs = vec![
        RawDirEntry {
            key: String::from("downloads"),
            value: RawValue::Text(String::from("test_downloads")),
        },
        // explicitly opted out
        RawDirEntry { key: String::from("music_enabled"), value: RawValue::Flag(false) },
        RawDirEntry {
            key: String::from("music"),
            value: RawValue::Text(String::from("test_music")),
        },
        // an enable flag set to true changes nothing
        RawDirEntry { key: String::from("downloads_enabled"), value: RawValue::Flag(true) },
    ];
    let exts = vec![
        RawExtension {
            name: Some(String::from("txt")),
            path: Some(String::from("test_downloads/TXT")),
            enabled: true,
        },
        RawExtension {
            name: Some(String::from("jpg")),
            path: Some(String::from("test_downloads/JPG")),
            enabled: false,
        },
    ];
    let home = String::from("/home/u");
    let config = build_configuration(&dirs, &exts, &home).expect("loads");
    // declared directories are kept; only `music` opted itself out
    assert_eq!(
        config.directories,
        vec![(String::from("downloads"), String::from("test_downloads"))]
    );
    assert_eq!(config.extensions.len(), 1);
    assert_eq!(config.extensions[0].name, "txt");
    assert_eq!(config.extensions[0].path, "test_downloads/TXT");
}

#[test]
fn build_configuration_expands_home() {
    let dirs = vec![
        RawDirEntry {
            key: String::from("downloads"),
            value: RawValue::Text(String::from("~/Downloads")),
        },
        RawDirEntry { key: String::from("downloads_enabled"), value: RawValue::Flag(true) },
    ];
    let exts: Vec<RawExtension> = Vec::new();
    let config = build_configuration(&dirs, &exts, &String::from("/home/u")).expect("loads");
    assert_eq!(config.directories[0].1, "/home/u/Downloads");
}

#[test]
fn build_configuration_rejects_non_text_directory() {
    let dirs = vec![RawDirEntry { key: String::from("downloads"), value: RawValue::Other }];
    let exts: Vec<RawExtension> = Vec::new();
    let r = build_configuration(&dirs, &exts, &String::from("/home/u"));
    assert!(matches!(r, Err(FileRouterError::ConfigError(_))));
}

#[test]
fn build_configuration_ignores_opted_out_non_text_directory() {
    let dirs = vec![
        RawDirEntry { key: String::from("downloads"), value: RawValue::Other },
        RawDirEntry { key: String::from("downloads_enabled"), value: RawValue::Flag(false) },
    ];
    let exts: Vec<RawExtension> = Vec::new();
    let config = build_configuration(&dirs, &exts, &String::from("/home/u")).expect("loads");
    assert!(config.directories.is_empty());
}

#[test]
fn build_configuration_rejects_enabled_extension_without_path() {
    let dirs: Vec<RawDirEntry> = Vec::new();
    let exts = vec![RawExtension { name: Some(String::from("txt")), path: None, enabled: true }];
    let r = build_configuration(&dirs, &exts, &String::from("/home/u"));
    assert!(matches!(r, Err(FileRouterError::ConfigError(_))));
}

#[test]
fn required_dirs_deduplicates() {
    let config = Configuration {
        directories: vec![(String::from("downloads"), String::from("/d"))],
        extensions: vec![
            FileExtension { name: String::from("txt"), path: String::from("/d") },
            FileExtension { name: String::from("pdf"), path: String::from("/p") },
        ],
    };
    assert_eq!(config.required_dirs(), vec![String::from("/d"), String::from("/p")]);
}

#[test]
fn error_describe_labels_the_kind() {
    let io = FileRouterError::IoError(String::from("boom"));
    assert_eq!(io.describe(), "IO Error: boom");
    let cfg = FileRouterError::ConfigError(String::from("bad value"));
    assert_eq!(cfg.describe(), "Config Error: bad value");
}

#[test]
fn path_helpers() {
    let (stem, ext) = split_name(&String::from("archive.tar.gz"));
    assert_eq!(stem, "archive.tar");
    assert_eq!(ext, "gz");
    let (stem2, ext2) = split_name(&String::from("README"));
    assert_eq!(stem2, "README");
    assert_eq!(ext2, "");
    assert!(!name_has_extension(&String::from(".bashrc")));
    assert!(name_has_extension(&String::from("a.txt")));
    assert_eq!(base_name(&String::from("/a/b/c.txt")), "c.txt");
    assert_eq!(base_name(&String::from("plain")), "plain");
    assert_eq!(expand_home(&String::from("~/Music"), &String::from("/home/u")), "/home/u/Music");
    assert_eq!(expand_home(&String::from("/abs"), &String::from("/home/u")), "/abs");
}

#[test]
fn number_and_hex_rendering() {
    assert_eq!(u64_to_string(0), "0");
    assert_eq!(u64_to_string(7), "7");
    assert_eq!(u64_to_string(1234567890), "1234567890");
    assert_eq!(to_hex_lower(&vec![0xbe, 0xef]), "beef");
    assert_eq!(to_hex_lower(&vec![0x00, 0x0a]), "000a");
}
