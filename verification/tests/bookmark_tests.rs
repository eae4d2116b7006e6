use rbook::model::BookMark;

#[test]
fn new_bookmark_is_empty() {
    let bm = BookMark::new("/data/books/h/book.epub".to_string());
    assert_eq!(bm.book_path, "/data/books/h/book.epub");
    assert_eq!(bm.list.len(), 0);
}

#[test]
fn add_mark_appends_new_pages_in_order() {
    let mut bm = BookMark::new("p".to_string());
    bm.add_mark(1, "one".to_string(), 800, 600, "cfi1".to_string());
    bm.add_mark(5, "five".to_string(), 800, 600, "cfi5".to_string());
    bm.add_mark(3, "three".to_string(), 800, 600, "cfi3".to_string());
    let pages: Vec<u32> = bm.list.iter().map(|m| m.page).collect();
    assert_eq!(pages, vec![1, 5, 3]);
}

#[test]
fn add_mark_twice_overwrites_in_place() {
    // Adding for an existing page overwrites every field of the
    // existing mark and never appends a duplicate.
    let mut bm = BookMark::new("p".to_string());
    bm.add_mark(3, "first text".to_string(), 800, 600, "cfi-a".to_string());
    bm.add_mark(3, "second text".to_string(), 1024, 768, "cfi-b".to_string());
    assert_eq!(bm.list.len(), 1);
    assert_eq!(bm.list[0].page, 3);
    assert_eq!(bm.list[0].content, "second text");
    assert_eq!(bm.list[0].width, 1024);
    assert_eq!(bm.list[0].height, 768);
    assert_eq!(bm.list[0].cfi, "cfi-b");
}

#[test]
fn overwrite_keeps_position_among_other_pages() {
    let mut bm = BookMark::new("p".to_string());
    bm.add_mark(1, "a".to_string(), 1, 1, "x".to_string());
    bm.add_mark(2, "b".to_string(), 1, 1, "y".to_string());
    bm.add_mark(1, "updated".to_string(), 2, 2, "z".to_string());
    let pages: Vec<u32> = bm.list.iter().map(|m| m.page).collect();
    assert_eq!(pages, vec![1, 2]);
    assert_eq!(bm.list[0].content, "updated");
}

#[test]
fn remove_mark_deletes_only_its_page() {
    let mut bm = BookMark::new("p".to_string());
    bm.add_mark(3, "three".to_string(), 800, 600, "c3".to_string());
    bm.add_mark(7, "seven".to_string(), 800, 600, "c7".to_string());
    bm.remove_mark(3);
    assert_eq!(bm.list.len(), 1);
    assert_eq!(bm.list[0].page, 7);
    assert_eq!(bm.list[0].content, "seven");
}

#[test]
fn remove_mark_on_absent_page_changes_nothing() {
    let mut bm = BookMark::new("p".to_string());
    bm.add_mark(2, "two".to_string(), 1, 1, "c".to_string());
    bm.remove_mark(9);
    assert_eq!(bm.list.len(), 1);
    assert_eq!(bm.list[0].page, 2);
}

#[test]
fn apply_action_removes_when_action_is_one() {
    let mut bm = BookMark::new("p".to_string());
    bm.add_mark(4, "four".to_string(), 1, 1, "c".to_string());
    bm.apply_action(4, String::new(), 0, 0, None, Some(1));
    assert_eq!(bm.list.len(), 0);
}

#[test]
fn apply_action_adds_by_default_with_empty_locator() {
    let mut bm = BookMark::new("p".to_string());
    bm.apply_action(6, "six".to_string(), 10, 20, None, None);
    assert_eq!(bm.list.len(), 1);
    assert_eq!(bm.list[0].page, 6);
    assert_eq!(bm.list[0].cfi, "");
    bm.apply_action(6, "six again".to_string(), 10, 20, Some("loc".to_string()), Some(0));
    assert_eq!(bm.list.len(), 1);
    assert_eq!(bm.list[0].content, "six again");
    assert_eq!(bm.list[0].cfi, "loc");
}
