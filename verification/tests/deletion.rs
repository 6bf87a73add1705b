use sizer::codec::{parse_log, render_log};
use sizer::entries::{FileEntry, RankedList};
use sizer::select::select_top_n;

fn entry(path: &str, size: u64) -> FileEntry {
    FileEntry { path: path.to_string(), size }
}

fn three_entry_list() -> RankedList {
    RankedList { entries: vec![entry("/big", 30), entry("/mid", 20), entry("/small", 10)] }
}

#[test]
fn delete_rank_one_selects_the_largest() {
    // The caller removes the returned path from disk; a later scan that
    // no longer finds the file, followed by a fresh save, drops it.
    let list = three_entry_list();
    assert_eq!(list.delete_target(1).unwrap(), "/big");

    let remaining = vec![entry("/mid", 20), entry("/small", 10)];
    let rescan = select_top_n(&remaining, 3);
    let text = render_log(&rescan);
    assert!(!text.contains("/big"));
    let reloaded = parse_log(&text).unwrap();
    assert_eq!(reloaded.len(), 2);
    assert_eq!(reloaded[0].path, "/mid");
    assert_eq!(reloaded[1].path, "/small");
}

#[test]
fn delete_each_valid_rank() {
    let list = three_entry_list();
    assert_eq!(list.delete_target(2).unwrap(), "/mid");
    assert_eq!(list.delete_target(3).unwrap(), "/small");
}

#[test]
fn delete_index_zero_is_a_noop() {
    let list = three_entry_list();
    assert_eq!(list.delete_target(0), None);
}

#[test]
fn delete_index_beyond_length_is_a_noop() {
    let list = three_entry_list();
    assert_eq!(list.delete_target(4), None);
    assert_eq!(list.delete_target(u8::MAX), None);
}

#[test]
fn delete_on_empty_list_is_a_noop() {
    let list = RankedList { entries: vec![] };
    assert_eq!(list.delete_target(0), None);
    assert_eq!(list.delete_target(1), None);
}
