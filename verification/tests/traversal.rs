use sizer::select::select_top_n;
use sizer::traverse::{EntryKind, RawEntry, Traverser};

fn raw(path: &str, kind: EntryKind, size: u64) -> RawEntry {
    RawEntry { path: path.to_string(), kind, size }
}

#[test]
fn new_traverser_starts_at_the_root() {
    let mut t = Traverser::new("/root".to_string());
    assert!(!t.finished());
    assert_eq!(t.next_dir().unwrap(), "/root");
    assert!(t.finished());
    assert_eq!(t.next_dir(), None);
}

#[test]
fn listing_collects_files_and_queues_directories() {
    let mut t = Traverser::new("/r".to_string());
    let root = t.next_dir().unwrap();
    assert_eq!(root, "/r");
    let listing = vec![
        raw("/r/a.txt", EntryKind::File, 5),
        raw("/r/sub", EntryKind::Dir, 0),
        raw("/r/sock", EntryKind::Other, 0),
        raw("/r/b.txt", EntryKind::File, 100),
    ];
    t.record_listing(&listing);
    assert_eq!(t.files.len(), 2);
    assert_eq!(t.files[0].path, "/r/a.txt");
    assert_eq!(t.files[0].size, 5);
    assert_eq!(t.files[1].path, "/r/b.txt");
    assert_eq!(t.files[1].size, 100);
    assert!(!t.finished());
    assert_eq!(t.next_dir().unwrap(), "/r/sub");
    assert!(t.finished());
}

#[test]
fn descent_is_depth_first() {
    let mut t = Traverser::new("/r".to_string());
    let _ = t.next_dir().unwrap();
    t.record_listing(&vec![raw("/r/d1", EntryKind::Dir, 0), raw("/r/d2", EntryKind::Dir, 0)]);
    // The most recently found directory is listed next.
    assert_eq!(t.next_dir().unwrap(), "/r/d2");
    t.record_listing(&vec![raw("/r/d2/d3", EntryKind::Dir, 0)]);
    assert_eq!(t.next_dir().unwrap(), "/r/d2/d3");
    t.record_listing(&vec![]);
    assert_eq!(t.next_dir().unwrap(), "/r/d1");
    t.record_listing(&vec![]);
    assert!(t.finished());
}

#[test]
fn scan_then_rank_full_pipeline() {
    // A whole scan of sizes {5, 100, 3, 100} with capacity 2 ranks the
    // two size-100 files, ties in discovery order.
    let mut t = Traverser::new("/r".to_string());
    let _ = t.next_dir().unwrap();
    t.record_listing(&vec![
        raw("/r/a", EntryKind::File, 5),
        raw("/r/b", EntryKind::File, 100),
        raw("/r/sub", EntryKind::Dir, 0),
    ]);
    let sub = t.next_dir().unwrap();
    assert_eq!(sub, "/r/sub");
    t.record_listing(&vec![
        raw("/r/sub/c", EntryKind::File, 3),
        raw("/r/sub/d", EntryKind::File, 100),
    ]);
    assert!(t.finished());
    let top = select_top_n(&t.files, 2);
    assert_eq!(top.entries.len(), 2);
    assert_eq!(top.entries[0].path, "/r/b");
    assert_eq!(top.entries[0].size, 100);
    assert_eq!(top.entries[1].path, "/r/sub/d");
    assert_eq!(top.entries[1].size, 100);
}
