use frouter::watchset::{WatchOp, WatchSetManager};

#[test]
fn reconcile_watches_the_required_set() {
    let mut m = WatchSetManager::new();
    let req = vec![String::from("/a"), String::from("/b")];
    let (unwatch, watch) = m.plan(&req);
    assert!(unwatch.is_empty());
    assert_eq!(watch, req);
    let errs = m.reconcile(&req, &Vec::new(), &vec![true, true]);
    assert!(errs.is_empty());
    assert!(m.is_watched(&String::from("/a")));
    assert!(m.is_watched(&String::from("/b")));
    assert_eq!(m.watched_count(), 2);
}

#[test]
fn reconcile_is_idempotent() {
    let mut m = WatchSetManager::new();
    let old_req = vec![String::from("/a"), String::from("/b")];
    m.reconcile(&old_req, &Vec::new(), &vec![true, true]);
    let new_req = vec![String::from("/b"), String::from("/c")];
    let (unwatch, watch) = m.plan(&new_req);
    assert_eq!(unwatch, vec![String::from("/a")]);
    assert_eq!(watch, vec![String::from("/c")]);
    let errs = m.reconcile(&new_req, &vec![true], &vec![true]);
    assert!(errs.is_empty());
    // immediately reconciling against the same set plans nothing
    let (unwatch2, watch2) = m.plan(&new_req);
    assert!(unwatch2.is_empty());
    assert!(watch2.is_empty());
    let errs2 = m.reconcile(&new_req, &Vec::new(), &Vec::new());
    assert!(errs2.is_empty());
    assert_eq!(m.watched_count(), 2);
}

#[test]
fn reconcile_drops_directories_absent_from_new_config() {
    let mut m = WatchSetManager::new();
    let old_req = vec![String::from("/old"), String::from("/kept")];
    m.reconcile(&old_req, &Vec::new(), &vec![true, true]);
    // the configuration file changed: /old is gone from the new set
    let new_req = vec![String::from("/kept"), String::from("/new")];
    let errs = m.reconcile(&new_req, &vec![true], &vec![true]);
    assert!(errs.is_empty());
    // the dropped directory is no longer watched, so it can generate
    // no further notifications
    assert!(!m.is_watched(&String::from("/old")));
    assert!(m.is_watched(&String::from("/kept")));
    assert!(m.is_watched(&String::from("/new")));
}

#[test]
fn one_unreadable_directory_does_not_stop_the_others() {
    let mut m = WatchSetManager::new();
    let req = vec![String::from("/ok1"), String::from("/denied"), String::from("/ok2")];
    // the middle watch fails (permission denied); the rest proceed
    let errs = m.reconcile(&req, &Vec::new(), &vec![true, false, true]);
    assert_eq!(errs.len(), 1);
    assert_eq!(errs[0].path, "/denied");
    assert_eq!(errs[0].op, WatchOp::Watch);
    assert!(m.is_watched(&String::from("/ok1")));
    assert!(!m.is_watched(&String::from("/denied")));
    assert!(m.is_watched(&String::from("/ok2")));
    assert_eq!(m.watched_count(), 2);
}

#[test]
fn failed_watch_is_retried_on_the_next_reconcile() {
    let mut m = WatchSetManager::new();
    let req = vec![String::from("/denied")];
    let errs = m.reconcile(&req, &Vec::new(), &vec![false]);
    assert_eq!(errs.len(), 1);
    assert_eq!(m.watched_count(), 0);
    // the next reconcile plans the same directory again
    let (_, watch) = m.plan(&req);
    assert_eq!(watch, vec![String::from("/denied")]);
    let errs2 = m.reconcile(&req, &Vec::new(), &vec![true]);
    assert!(errs2.is_empty());
    assert!(m.is_watched(&String::from("/denied")));
}

#[test]
fn failed_unwatch_is_recorded_and_the_handle_dropped() {
    let mut m = WatchSetManager::new();
    let req = vec![String::from("/a")];
    m.reconcile(&req, &Vec::new(), &vec![true]);
    let empty: Vec<String> = Vec::new();
    let errs = m.reconcile(&empty, &vec![false], &Vec::new());
    assert_eq!(errs.len(), 1);
    assert_eq!(errs[0].path, "/a");
    assert_eq!(errs[0].op, WatchOp::Unwatch);
    // no stale handle stays behind after an unwatch
    assert!(!m.is_watched(&String::from("/a")));
    assert_eq!(m.watched_count(), 0);
}
