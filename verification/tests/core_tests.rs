use frouter::accumulator::EventAccumulator;
use frouter::debounce::RecentlyProcessed;
use frouter::logging::build_file_event;
use frouter::router::{NotificationOutcome, RouterLoop};

#[test]
fn debounce_suppresses_within_window() {
    let mut d = RecentlyProcessed::new();
    assert!(d.accept("/w/a.txt", 0));
    assert!(!d.accept("/w/a.txt", 5_000));
    // the re-sight at 5_000 refreshed the stamp, so 15_000 is still inside
    assert!(!d.accept("/w/a.txt", 15_000));
    // a full window after the last sight, the path is accepted again
    assert!(d.accept("/w/a.txt", 25_001));
}

#[test]
fn debounce_window_boundary_is_strict() {
    let mut d = RecentlyProcessed::new();
    assert!(d.accept("p", 0));
    // exactly the window is still "recent"
    assert!(!d.accept("p", 10_000));
}

#[test]
fn debounce_tracks_paths_independently() {
    let mut d = RecentlyProcessed::new();
    assert!(d.accept("a", 0));
    assert!(d.accept("b", 1));
    assert!(!d.accept("a", 2));
    assert!(!d.accept("b", 3));
}

#[test]
fn debounce_add_contains_remove_old() {
    let mut d = RecentlyProcessed::new();
    assert!(!d.contains("x"));
    d.add("x", 0);
    assert!(d.contains("x"));
    d.remove_old(10_000);
    assert!(d.contains("x"));
    d.remove_old(10_001);
    assert!(!d.contains("x"));
}

#[test]
fn accumulator_quiet_period_flush() {
    let mut a = EventAccumulator::new();
    a.add(&String::from("one"), 0);
    a.add(&String::from("two"), 1_000);
    a.add(&String::from("one"), 2_000);
    assert!(!a.ready(10_000, 2_000));
    // while events keep arriving within the delay, never ready
    assert!(!a.ready(10_000, 12_000));
    assert!(a.ready(10_000, 12_001));
    let batch = a.drain_all();
    assert_eq!(batch, vec![String::from("one"), String::from("two")]);
    // drained: quiet or not, nothing is pending
    assert!(!a.ready(10_000, 50_000));
}

#[test]
fn accumulator_empty_is_never_ready() {
    let a = EventAccumulator::new();
    assert!(!a.ready(0, 1_000_000));
}

#[test]
fn accumulator_drains_distinct_in_first_add_order() {
    let mut a = EventAccumulator::new();
    a.add(&String::from("c"), 0);
    a.add(&String::from("a"), 1);
    a.add(&String::from("c"), 2);
    a.add(&String::from("b"), 3);
    a.add(&String::from("a"), 4);
    let batch = a.drain_all();
    assert_eq!(batch, vec![String::from("c"), String::from("a"), String::from("b")]);
}

#[test]
fn three_files_flush_as_one_batch() {
    // configuration declares .txt -> /dest; three files arrive within
    // two seconds; after the quiet period the whole burst settles as
    // one batch, logged as one transaction of three entries
    let config_path = String::from("/home/u/.config/frouter/config.toml");
    let mut r = RouterLoop::new(config_path);
    let p1 = String::from("/watched/a.txt");
    let p2 = String::from("/watched/b.txt");
    let p3 = String::from("/watched/c.txt");
    assert_eq!(r.on_notification(&p1, 0), NotificationOutcome::Accepted);
    assert_eq!(r.on_notification(&p2, 1_000), NotificationOutcome::Accepted);
    assert_eq!(r.on_notification(&p3, 2_000), NotificationOutcome::Accepted);
    // not yet quiet for long enough
    assert!(r.take_ready_batch(10_000, 11_000).is_none());
    let batch = r.take_ready_batch(10_000, 12_001).expect("batch should be ready");
    assert_eq!(batch, vec![p1.clone(), p2.clone(), p3.clone()]);
    // one transaction: one entry per path of the one drained batch
    let timestamp = String::from("2023-01-01 12:00:00");
    let digest = String::from("d1");
    let mut entries = Vec::new();
    for p in &batch {
        let target = String::from("/dest");
        entries.push(build_file_event(p, &target, timestamp.clone(), &digest));
    }
    assert_eq!(entries.len(), 3);
    assert_eq!(entries[0].file_name, "a.txt");
    assert_eq!(entries[2].file_name, "c.txt");
    // the batch was flushed exactly once
    assert!(r.take_ready_batch(10_000, 60_000).is_none());
}

#[test]
fn router_suppresses_duplicate_notifications() {
    let mut r = RouterLoop::new(String::from("/cfg"));
    let p = String::from("/watched/a.txt");
    assert_eq!(r.on_notification(&p, 0), NotificationOutcome::Accepted);
    assert_eq!(r.on_notification(&p, 100), NotificationOutcome::Suppressed);
    assert_eq!(r.on_notification(&p, 200), NotificationOutcome::Suppressed);
    let batch = r.take_ready_batch(10_000, 10_201).expect("ready");
    assert_eq!(batch, vec![p]);
}

#[test]
fn router_config_change_leaves_routing_state_alone() {
    let cfg = String::from("/home/u/.config/frouter/config.toml");
    let mut r = RouterLoop::new(cfg.clone());
    let p = String::from("/watched/a.txt");
    assert_eq!(r.on_notification(&p, 0), NotificationOutcome::Accepted);
    assert_eq!(r.on_notification(&cfg, 500), NotificationOutcome::ConfigChange);
    // the config notification neither joined the batch nor reset the timer
    let batch = r.take_ready_batch(10_000, 10_001).expect("ready");
    assert_eq!(batch, vec![p]);
}

#[test]
fn build_file_event_extracts_file_name() {
    let e = build_file_event(
        &String::from("/watched/sub/report.pdf"),
        &String::from("/dest/report.pdf"),
        String::from("2023-01-01 12:00:00"),
        &String::from("abc123"),
    );
    assert_eq!(e.source_path, "/watched/sub/report.pdf");
    assert_eq!(e.target_path, "/dest/report.pdf");
    assert_eq!(e.file_name, "report.pdf");
    assert_eq!(e.timestamp, "2023-01-01 12:00:00");
    assert_eq!(e.filehash, "abc123");
}
