use dirwatch::FileEvent;
use dirwatch::FileWatcher;

fn entry(path: &str, time: u64) -> (String, u64) {
    (String::from(path), time)
}

#[test]
fn baseline_silence() {
    // Pre-existing files become baseline entries without any Created event:
    // the first unchanged cycle after construction reports nothing.
    let listing = vec![entry("a.txt", 10), entry("b/c.txt", 20)];
    let mut w = FileWatcher::new(String::from("root"), listing.clone());
    assert_eq!(w.stored_time(&String::from("a.txt")), Some(10));
    assert_eq!(w.stored_time(&String::from("b/c.txt")), Some(20));
    let events = w.poll(&listing);
    assert!(events.is_empty());
}

#[test]
fn create_detection() {
    let mut w = FileWatcher::new(String::from("root"), vec![]);
    let current = vec![entry("a.txt", 5)];
    let events = w.poll(&current);
    assert_eq!(events.len(), 1);
    assert_eq!(events[0].kind, FileEvent::Created);
    assert_eq!(events[0].path, "a.txt");
    assert!(w.contains(&String::from("a.txt")));
    assert_eq!(w.stored_time(&String::from("a.txt")), Some(5));
}

#[test]
fn delete_detection() {
    let mut w = FileWatcher::new(String::from("root"), vec![entry("a.txt", 5)]);
    let events = w.poll(&vec![]);
    assert_eq!(events.len(), 1);
    assert_eq!(events[0].kind, FileEvent::Deleted);
    assert_eq!(events[0].path, "a.txt");
    assert!(!w.contains(&String::from("a.txt")));
}

#[test]
fn update_detection() {
    let mut w = FileWatcher::new(String::from("root"), vec![entry("a.txt", 5)]);
    let events = w.poll(&vec![entry("a.txt", 9)]);
    assert_eq!(events.len(), 1);
    assert_eq!(events[0].kind, FileEvent::Updated);
    assert_eq!(events[0].path, "a.txt");
    // The stored timestamp equals the new modified time exactly.
    assert_eq!(w.stored_time(&String::from("a.txt")), Some(9));
}

#[test]
fn unchanged_timestamp_is_silent() {
    let mut w = FileWatcher::new(String::from("root"), vec![entry("a.txt", 5)]);
    let events = w.poll(&vec![entry("a.txt", 5)]);
    assert!(events.is_empty());
    assert_eq!(w.stored_time(&String::from("a.txt")), Some(5));
}

#[test]
fn older_timestamp_is_silent() {
    // Only a strictly newer observation counts as an update.
    let mut w = FileWatcher::new(String::from("root"), vec![entry("a.txt", 5)]);
    let events = w.poll(&vec![entry("a.txt", 3)]);
    assert!(events.is_empty());
    assert_eq!(w.stored_time(&String::from("a.txt")), Some(5));
}

#[test]
fn noop_idempotence() {
    let listing = vec![entry("a.txt", 1), entry("b.txt", 2), entry("c/d.txt", 3)];
    let mut w = FileWatcher::new(String::from("root"), listing.clone());
    for _ in 0..5 {
        let events = w.poll(&listing);
        assert!(events.is_empty());
    }
    assert_eq!(w.stored_time(&String::from("a.txt")), Some(1));
    assert_eq!(w.stored_time(&String::from("b.txt")), Some(2));
    assert_eq!(w.stored_time(&String::from("c/d.txt")), Some(3));
}

#[test]
fn deletions_precede_creations() {
    // One cycle that loses one path and gains another reports the deletion
    // first, then the creation.
    let mut w = FileWatcher::new(String::from("root"), vec![entry("b.txt", 4)]);
    let events = w.poll(&vec![entry("c.txt", 6)]);
    assert_eq!(events.len(), 2);
    assert_eq!(events[0].kind, FileEvent::Deleted);
    assert_eq!(events[0].path, "b.txt");
    assert_eq!(events[1].kind, FileEvent::Created);
    assert_eq!(events[1].path, "c.txt");
}

#[test]
fn same_path_reappears_newer_is_update() {
    // A path that vanishes and reappears between two polls is observed only
    // through its timestamp: the snapshot still holds the path, so the cycle
    // classifies the newer observation as an update, not as a delete/create
    // pair.
    let mut w = FileWatcher::new(String::from("root"), vec![entry("a.txt", 5)]);
    let events = w.poll(&vec![entry("a.txt", 8)]);
    assert_eq!(events.len(), 1);
    assert_eq!(events[0].kind, FileEvent::Updated);
    assert_eq!(w.stored_time(&String::from("a.txt")), Some(8));
}

#[test]
fn nested_directories() {
    // A file three levels deep is a snapshot entry like any top-level file.
    let deep = "one/two/three/f.txt";
    let mut w = FileWatcher::new(String::from("root"), vec![entry(deep, 7)]);
    assert!(w.contains(&String::from(deep)));
    assert!(w.poll(&vec![entry(deep, 7)]).is_empty());
    let events = w.poll(&vec![entry(deep, 9), entry("top.txt", 1)]);
    assert_eq!(events.len(), 2);
    assert_eq!(events[0].kind, FileEvent::Updated);
    assert_eq!(events[0].path, deep);
    assert_eq!(events[1].kind, FileEvent::Created);
    assert_eq!(events[1].path, "top.txt");
}

#[test]
fn scan_order_is_irrelevant() {
    // Two listings with the same entries in different orders commit the same
    // snapshot and report the same set of events.
    let baseline = vec![entry("a.txt", 1), entry("b.txt", 2), entry("gone.txt", 3)];
    let fresh1 = vec![entry("new.txt", 9), entry("a.txt", 4), entry("b.txt", 2)];
    let fresh2 = vec![entry("b.txt", 2), entry("new.txt", 9), entry("a.txt", 4)];

    let mut w1 = FileWatcher::new(String::from("root"), baseline.clone());
    let mut w2 = FileWatcher::new(String::from("root"), baseline);
    let mut ev1: Vec<(String, FileEvent)> =
        w1.poll(&fresh1).into_iter().map(|e| (e.path, e.kind)).collect();
    let mut ev2: Vec<(String, FileEvent)> =
        w2.poll(&fresh2).into_iter().map(|e| (e.path, e.kind)).collect();
    ev1.sort_by(|a, b| a.0.cmp(&b.0));
    ev2.sort_by(|a, b| a.0.cmp(&b.0));
    assert_eq!(ev1.len(), 3);
    assert_eq!(ev1, ev2);
    for p in ["a.txt", "b.txt", "new.txt"] {
        assert_eq!(w1.stored_time(&String::from(p)), w2.stored_time(&String::from(p)));
    }
    assert!(!w1.contains(&String::from("gone.txt")));
    assert!(!w2.contains(&String::from("gone.txt")));
}

#[test]
fn duplicate_baseline_entry_last_wins() {
    let listing = vec![entry("a.txt", 1), entry("a.txt", 6)];
    let w = FileWatcher::new(String::from("root"), listing);
    assert_eq!(w.stored_time(&String::from("a.txt")), Some(6));
}

#[test]
fn dirname_is_kept() {
    let w = FileWatcher::new(String::from("some/root"), vec![]);
    assert_eq!(w.dirname().as_str(), "some/root");
}

#[test]
fn mixed_cycle_commits_full_diff() {
    let mut w = FileWatcher::new(
        String::from("root"),
        vec![entry("keep.txt", 1), entry("old.txt", 2), entry("stale.txt", 3)],
    );
    let events = w.poll(&vec![entry("keep.txt", 1), entry("stale.txt", 7), entry("new.txt", 4)]);
    assert_eq!(events.len(), 3);
    assert_eq!(events[0].kind, FileEvent::Deleted);
    assert_eq!(events[0].path, "old.txt");
    assert_eq!(events[1].kind, FileEvent::Updated);
    assert_eq!(events[1].path, "stale.txt");
    assert_eq!(events[2].kind, FileEvent::Created);
    assert_eq!(events[2].path, "new.txt");
    assert_eq!(w.stored_time(&String::from("keep.txt")), Some(1));
    assert_eq!(w.stored_time(&String::from("stale.txt")), Some(7));
    assert_eq!(w.stored_time(&String::from("new.txt")), Some(4));
    assert!(!w.contains(&String::from("old.txt")));
}
