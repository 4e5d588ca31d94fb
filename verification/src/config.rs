use vstd::prelude::*;
use vstd::string::{StrSliceExecFns, StringExecFns};
use crate::accumulator::{first_adds, lemma_first_add_once};
use crate::error::FileRouterError;
use crate::paths::{expand_home, expand_home_spec};
use crate::strutil::{vec_contains_string, views_of};

verus! {

/// One enabled extension rule: files whose extension matches `name` are
/// routed to the directory `path`.
pub struct FileExtension {
    pub name: String,
    pub path: String,
}

/// The live configuration: the named watched directories and the
/// enabled extension rules, in declaration order.  A reload builds a
/// brand-new value; a configuration is never mutated in place.
pub struct Configuration {
    pub directories: Vec<(String, String)>,
    pub extensions: Vec<FileExtension>,
}

/// One value of the `[directories]` table, as the loader saw it.
pub enum RawValue {
    Text(String),
    Flag(bool),
    Other,
}

/// One entry of the `[directories]` table.
pub struct RawDirEntry {
    pub key: String,
    pub value: RawValue,
}

/// One `[[extensions]]` entry, as the loader saw it.
pub struct RawExtension {
    pub name: Option<String>,
    pub path: Option<String>,
    pub enabled: bool,
}

/// Whether `key` names an enable flag rather than a directory.
pub open spec fn is_flag_key(key: Seq<char>) -> bool {
    key.len() >= 8 && key.subrange(key.len() - 8, key.len() as int) == "_enabled"@
}

/// The text of a `Text` value, or empty.
pub open spec fn text_of(v: RawValue) -> Seq<char> {
    match v {
        RawValue::Text(s) => s@,
        _ => Seq::empty(),
    }
}

/// Whether the table explicitly opts a directory out by setting
/// `<key>_enabled` to `false`.
pub open spec fn flag_disabled(entries: Seq<RawDirEntry>, key: Seq<char>) -> bool {
    exists|i: int|
        0 <= i < entries.len() && entries[i].key@ == key + "_enabled"@ && entries[i].value
            == RawValue::Flag(false)
}

/// Every declared directory is retained: an entry is kept when it is
/// not itself a flag, not explicitly opted out, and its value is text.
pub open spec fn dir_retained(entries: Seq<RawDirEntry>, e: RawDirEntry) -> bool {
    !is_flag_key(e.key@) && !flag_disabled(entries, e.key@) && e.value is Text
}

/// A declared directory (not opted out) whose value is not text cannot
/// be loaded.
pub open spec fn dir_error(entries: Seq<RawDirEntry>) -> bool {
    exists|i: int|
        0 <= i < entries.len() && !is_flag_key(#[trigger] entries[i].key@) && !flag_disabled(
            entries,
            entries[i].key@,
        ) && !(entries[i].value is Text)
}

/// An enabled extension without a name or without a path cannot be loaded.
pub open spec fn ext_error(exts: Seq<RawExtension>) -> bool {
    exists|i: int|
        0 <= i < exts.len() && (#[trigger] exts[i]).enabled && (exts[i].name is None
            || exts[i].path is None)
}

/// The retained directories of a table prefix, keys paired with their
/// home-expanded paths, in table order.
pub open spec fn built_dirs(
    all: Seq<RawDirEntry>,
    prefix: Seq<RawDirEntry>,
    home: Seq<char>,
) -> Seq<(Seq<char>, Seq<char>)>
    decreases prefix.len(),
{
    if prefix.len() == 0 {
        Seq::empty()
    } else {
        let rest = built_dirs(all, prefix.drop_last(), home);
        if dir_retained(all, prefix.last()) {
            rest.push((prefix.last().key@, expand_home_spec(text_of(prefix.last().value), home)))
        } else {
            rest
        }
    }
}

/// The enabled extensions of a prefix, names paired with their
/// home-expanded destination paths, in declaration order.
pub open spec fn built_exts(prefix: Seq<RawExtension>, home: Seq<char>) -> Seq<
    (Seq<char>, Seq<char>),
>
    decreases prefix.len(),
{
    if prefix.len() == 0 {
        Seq::empty()
    } else {
        let rest = built_exts(prefix.drop_last(), home);
        let e = prefix.last();
        if e.enabled && e.name is Some && e.path is Some {
            rest.push((e.name->0@, expand_home_spec(e.path->0@, home)))
        } else {
            rest
        }
    }
}

impl Configuration {
    /// The directory mapping, keys paired with paths.
    pub open spec fn dirs_view(&self) -> Seq<(Seq<char>, Seq<char>)> {
        Seq::new(self.directories@.len(), |i: int| (self.directories@[i].0@, self.directories@[i].1@))
    }

    /// The extension rules, names paired with destination paths.
    pub open spec fn exts_view(&self) -> Seq<(Seq<char>, Seq<char>)> {
        Seq::new(self.extensions@.len(), |i: int| (self.extensions@[i].name@, self.extensions@[i].path@))
    }

    /// The directory paths, in order.
    pub open spec fn dir_paths(&self) -> Seq<Seq<char>> {
        Seq::new(self.directories@.len(), |i: int| self.directories@[i].1@)
    }

    /// The extension destination paths, in order.
    pub open spec fn ext_paths(&self) -> Seq<Seq<char>> {
        Seq::new(self.extensions@.len(), |i: int| self.extensions@[i].path@)
    }

    /// The set of directories this configuration requires a watch on:
    /// the directory values and the extension destinations, first
    /// occurrence kept.
    pub fn required_dirs(&self) -> (r: Vec<String>)
        ensures
            views_of(r@) == first_adds(self.dir_paths() + self.ext_paths()),
            views_of(r@).no_duplicates(),
    {
        let ghost full = self.dir_paths() + self.ext_paths();
        let mut out: Vec<String> = Vec::new();
        let n = self.directories.len();
        let mut i: usize = 0;
        while i < n
            invariant
                i <= n,
                n == self.directories@.len(),
                full == self.dir_paths() + self.ext_paths(),
                views_of(out@) == first_adds(full.take(i as int)),
            decreases n - i,
        {
            let ghost pre = views_of(out@);
            if !vec_contains_string(&out, &self.directories[i].1) {
                out.push(self.directories[i].1.clone());
                proof {
                    assert(views_of(out@) =~= pre.push(self.directories@[i as int].1@));
                }
            }
            proof {
                assert(full.take(i + 1 as int).drop_last() =~= full.take(i as int));
                assert(full.take(i + 1 as int).last() == self.directories@[i as int].1@);
            }
            i += 1;
        }
        let m = self.extensions.len();
        let mut j: usize = 0;
        while j < m
            invariant
                j <= m,
                n == self.directories@.len(),
                m == self.extensions@.len(),
                full == self.dir_paths() + self.ext_paths(),
                views_of(out@) == first_adds(full.take(n + j as int)),
            decreases m - j,
        {
            let ghost pre = views_of(out@);
            if !vec_contains_string(&out, &self.extensions[j].path) {
                out.push(self.extensions[j].path.clone());
                proof {
                    assert(views_of(out@) =~= pre.push(self.extensions@[j as int].path@));
                }
            }
            proof {
                assert(full.take(n + j + 1 as int).drop_last() =~= full.take(n + j as int));
                assert(full.take(n + j + 1 as int).last() == self.extensions@[j as int].path@);
            }
            j += 1;
        }
        proof {
            assert(full.take((n + m) as int) =~= full);
            lemma_first_add_once(full);
        }
        out
    }
}

/// Whether `key` ends in `_enabled`.
fn ends_with_enabled(key: &String) -> (r: bool)
    ensures
        r == is_flag_key(key@),
{
    let s = key.as_str();
    let len = s.unicode_len();
    if len < 8 {
        return false;
    }
    let suffix = String::from_str(s.substring_char(len - 8, len));
    let expected = String::from_str("_enabled");
    suffix.eq(&expected)
}

/// Whether the table holds `<key>_enabled = false`.
fn flag_disabled_exec(entries: &Vec<RawDirEntry>, key: &String) -> (r: bool)
    ensures
        r == flag_disabled(entries@, key@),
{
    let mut want = key.clone();
    want.append("_enabled");
    let n = entries.len();
    let mut i: usize = 0;
    while i < n
        invariant
            i <= n,
            n == entries@.len(),
            want@ == key@ + "_enabled"@,
            forall|j: int|
                0 <= j < i ==> !(entries@[j].key@ == key@ + "_enabled"@ && entries@[j].value
                    == RawValue::Flag(false)),
        decreases n - i,
    {
        if entries[i].key.eq(&want) {
            let disabled = match &entries[i].value {
                RawValue::Flag(f) => !*f,
                _ => false,
            };
            if disabled {
                proof {
                    assert(entries@[i as int].value == RawValue::Flag(false));
                }
                return true;
            }
        }
        i += 1;
    }
    proof {
        if flag_disabled(entries@, key@) {
            let j = choose|j: int|
                0 <= j < entries@.len() && entries@[j].key@ == key@ + "_enabled"@ && entries@[j].value
                    == RawValue::Flag(false);
            assert(!(entries@[j].key@ == key@ + "_enabled"@ && entries@[j].value == RawValue::Flag(
                false,
            )));
        }
    }
    false
}

/// Builds a configuration from the raw table entries the loader read:
/// every declared directory is retained unless the table opts it out
/// with `<key>_enabled = false`, an extension is retained when marked
/// enabled, and `~` is expanded against `home`.  Fails, and loads
/// nothing, when a retained directory value is not text or an enabled
/// extension lacks its name or path.
pub fn build_configuration(
    dir_entries: &Vec<RawDirEntry>,
    raw_extensions: &Vec<RawExtension>,
    home: &String,
) -> (r: Result<Configuration, FileRouterError>)
    ensures
        r is Ok <==> !dir_error(dir_entries@) && !ext_error(raw_extensions@),
        (r matches Ok(c) ==> c.dirs_view() == built_dirs(dir_entries@, dir_entries@, home@)
            && c.exts_view() == built_exts(raw_extensions@, home@)),
        (r matches Err(e) ==> e is ConfigError),
{
    let mut directories: Vec<(String, String)> = Vec::new();
    let n = dir_entries.len();
    let mut i: usize = 0;
    while i < n
        invariant
            i <= n,
            n == dir_entries@.len(),
            Seq::new(directories@.len(), |k: int| (directories@[k].0@, directories@[k].1@))
                == built_dirs(dir_entries@, dir_entries@.take(i as int), home@),
            forall|j: int|
                0 <= j < i ==> !(!is_flag_key(#[trigger] dir_entries@[j].key@) && !flag_disabled(
                    dir_entries@,
                    dir_entries@[j].key@,
                ) && !(dir_entries@[j].value is Text)),
        decreases n - i,
    {
        let ghost pre = Seq::new(
            directories@.len(),
            |k: int| (directories@[k].0@, directories@[k].1@),
        );
        let e = &dir_entries[i];
        if !ends_with_enabled(&e.key) && !flag_disabled_exec(dir_entries, &e.key) {
            match &e.value {
                RawValue::Text(t) => {
                    let expanded = expand_home(t, home);
                    directories.push((e.key.clone(), expanded));
                    proof {
                        assert(Seq::new(
                            directories@.len(),
                            |k: int| (directories@[k].0@, directories@[k].1@),
                        ) =~= pre.push(
                            (
                                dir_entries@[i as int].key@,
                                expand_home_spec(text_of(dir_entries@[i as int].value), home@),
                            ),
                        ));
                    }
                },
                _ => {
                    proof {
                        assert(dir_error(dir_entries@));
                    }
                    return Err(FileRouterError::ConfigError(e.key.clone()));
                },
            }
        }
        proof {
            assert(dir_entries@.take(i + 1 as int).drop_last() =~= dir_entries@.take(i as int));
            assert(dir_entries@.take(i + 1 as int).last() == dir_entries@[i as int]);
        }
        i += 1;
    }
    proof {
        assert(dir_entries@.take(n as int) =~= dir_entries@);
        if dir_error(dir_entries@) {
            let j = choose|j: int|
                0 <= j < dir_entries@.len() && !is_flag_key(#[trigger] dir_entries@[j].key@)
                    && !flag_disabled(dir_entries@, dir_entries@[j].key@) && !(dir_entries@[j].value
                    is Text);
            assert(!(!is_flag_key(dir_entries@[j].key@) && !flag_disabled(
                dir_entries@,
                dir_entries@[j].key@,
            ) && !(dir_entries@[j].value is Text)));
        }
    }
    let mut extensions: Vec<FileExtension> = Vec::new();
    let m = raw_extensions.len();
    let mut j: usize = 0;
    while j < m
        invariant
            j <= m,
            m == raw_extensions@.len(),
            Seq::new(extensions@.len(), |k: int| (extensions@[k].name@, extensions@[k].path@))
                == built_exts(raw_extensions@.take(j as int), home@),
            forall|k: int|
                0 <= k < j ==> !((#[trigger] raw_extensions@[k]).enabled && (raw_extensions@[k].name
                    is None || raw_extensions@[k].path is None)),
        decreases m - j,
    {
        let ghost pre = Seq::new(
            extensions@.len(),
            |k: int| (extensions@[k].name@, extensions@[k].path@),
        );
        let e = &raw_extensions[j];
        if e.enabled {
            match (&e.name, &e.path) {
                (Some(name), Some(path)) => {
                    let expanded = expand_home(path, home);
                    extensions.push(FileExtension { name: name.clone(), path: expanded });
                    proof {
                        assert(Seq::new(
                            extensions@.len(),
                            |k: int| (extensions@[k].name@, extensions@[k].path@),
                        ) =~= pre.push(
                            (
                                raw_extensions@[j as int].name->0@,
                                expand_home_spec(raw_extensions@[j as int].path->0@, home@),
                            ),
                        ));
                    }
                },
                _ => {
                    proof {
                        assert(ext_error(raw_extensions@));
                    }
                    return Err(
                        FileRouterError::ConfigError(
                            String::from_str("extension entry missing name or path"),
                        ),
                    );
                },
            }
        }
        proof {
            assert(raw_extensions@.take(j + 1 as int).drop_last() =~= raw_extensions@.take(
                j as int,
            ));
            assert(raw_extensions@.take(j + 1 as int).last() == raw_extensions@[j as int]);
        }
        j += 1;
    }
    proof {
        assert(raw_extensions@.take(m as int) =~= raw_extensions@);
        if ext_error(raw_extensions@) {
            let k = choose|k: int|
                0 <= k < raw_extensions@.len() && (#[trigger] raw_extensions@[k]).enabled && (
                raw_extensions@[k].name is None || raw_extensions@[k].path is None);
            assert(!(raw_extensions@[k].enabled && (raw_extensions@[k].name is None
                || raw_extensions@[k].path is None)));
        }
    }
    let c = Configuration { directories, extensions };
    Ok(c)
}

} // verus!
