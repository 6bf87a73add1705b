use sizer::codec::{parse_log, render_log};
use sizer::entries::FileEntry;
use sizer::select::select_top_n;

fn entry(path: &str, size: u64) -> FileEntry {
    FileEntry { path: path.to_string(), size }
}

#[test]
fn scenario_two_ties_at_the_top() {
    // Sizes {5, 100, 3, 100} with capacity 2: both size-100 entries win,
    // and ties keep their order of discovery.
    let files = vec![entry("/a", 5), entry("/b", 100), entry("/c", 3), entry("/d", 100)];
    let top = select_top_n(&files, 2);
    assert_eq!(top.entries.len(), 2);
    assert_eq!(top.entries[0].size, 100);
    assert_eq!(top.entries[1].size, 100);
    assert_eq!(top.entries[0].path, "/b");
    assert_eq!(top.entries[1].path, "/d");
}

#[test]
fn empty_input_gives_empty_ranking() {
    let files: Vec<FileEntry> = vec![];
    let top = select_top_n(&files, 10);
    assert!(top.entries.is_empty());
    let text = render_log(&top);
    let parsed = parse_log(&text).unwrap();
    assert!(parsed.is_empty());
}

#[test]
fn fewer_files_than_capacity_keeps_them_all() {
    let files = vec![entry("/a", 1), entry("/b", 9)];
    let top = select_top_n(&files, 10);
    assert_eq!(top.entries.len(), 2);
    assert_eq!(top.entries[0].path, "/b");
    assert_eq!(top.entries[1].path, "/a");
}

#[test]
fn capacity_zero_gives_empty_ranking() {
    let files = vec![entry("/a", 1), entry("/b", 9)];
    let top = select_top_n(&files, 0);
    assert!(top.entries.is_empty());
}

#[test]
fn ranking_is_sorted_descending() {
    let files = vec![
        entry("/a", 3),
        entry("/b", 17),
        entry("/c", 11),
        entry("/d", 17),
        entry("/e", 2),
        entry("/f", 40),
    ];
    let top = select_top_n(&files, 6);
    let sizes: Vec<u64> = top.entries.iter().map(|e| e.size).collect();
    assert_eq!(sizes, vec![40, 17, 17, 11, 3, 2]);
    // Equal sizes keep discovery order.
    assert_eq!(top.entries[1].path, "/b");
    assert_eq!(top.entries[2].path, "/d");
}

#[test]
fn truncation_keeps_the_largest() {
    let files = vec![entry("/a", 3), entry("/b", 17), entry("/c", 11), entry("/d", 5)];
    let top = select_top_n(&files, 2);
    assert_eq!(top.entries.len(), 2);
    assert_eq!(top.entries[0].path, "/b");
    assert_eq!(top.entries[1].path, "/c");
}
