use rbook::store::BookDir;
use rbook::store::Library;

fn empty_library() -> Library {
    Library { dirs: Vec::new() }
}

fn dir(name: &str, files: &[&str], hash_text: Option<&str>) -> BookDir {
    BookDir {
        name: name.to_string(),
        files: files.iter().map(|f| f.to_string()).collect(),
        hash_text: hash_text.map(|t| t.to_string()),
        last_opened_text: None,
    }
}

#[test]
fn first_import_creates_an_entry() {
    let mut lib = empty_library();
    let h = "0123456789abcdef0123456789abcdef".to_string();
    let r = lib.import_or_locate(&h, &"book.epub".to_string());
    assert!(r.created);
    assert!(r.needs_copy);
    assert_eq!(r.dir_name, h);
    assert_eq!(r.book_file, "book.epub");
    assert_eq!(lib.dirs.len(), 1);
    assert_eq!(lib.dirs[0].name, h);
    assert_eq!(lib.dirs[0].hash_text, Some(h.clone()));
    assert_eq!(lib.dirs[0].files, vec!["book.epub".to_string()]);
}

#[test]
fn reimport_of_same_content_is_idempotent() {
    // Importing byte-identical content twice, even under a different
    // file name, lands in the same directory and never creates a
    // second entry.
    let mut lib = empty_library();
    let h = "0123456789abcdef0123456789abcdef".to_string();
    let first = lib.import_or_locate(&h, &"book.epub".to_string());
    let second = lib.import_or_locate(&h, &"renamed copy.epub".to_string());
    assert!(first.created);
    assert!(!second.created);
    assert!(!second.needs_copy);
    assert_eq!(second.dir_name, first.dir_name);
    assert_eq!(second.book_file, "book.epub");
    assert_eq!(lib.dirs.len(), 1);
    assert_eq!(lib.dirs[0].files.len(), 1);
}

#[test]
fn different_content_gets_its_own_directory() {
    let mut lib = empty_library();
    let h1 = "aaaaaaaaaaaaaaaaaaaaaaaaaaaaaaaa".to_string();
    let h2 = "bbbbbbbbbbbbbbbbbbbbbbbbbbbbbbbb".to_string();
    lib.import_or_locate(&h1, &"one.epub".to_string());
    let r = lib.import_or_locate(&h2, &"two.epub".to_string());
    assert!(r.created);
    assert_eq!(lib.dirs.len(), 2);
    assert_eq!(lib.dirs[1].name, h2);
}

#[test]
fn lookup_matches_directory_named_by_hash() {
    let mut lib = empty_library();
    let h = "cccccccccccccccccccccccccccccccc".to_string();
    lib.dirs.push(dir(&h, &["novel.epub"], None));
    let r = lib.import_or_locate(&h, &"novel.epub".to_string());
    assert!(!r.created);
    assert!(!r.needs_copy);
    assert_eq!(r.dir_name, h);
    assert_eq!(r.book_file, "novel.epub");
    assert_eq!(lib.dirs.len(), 1);
}

#[test]
fn lookup_matches_hash_sidecar_under_arbitrary_directory_name() {
    // Read compatibility: a directory with any name is found through
    // the fingerprint its hash sidecar records.
    let mut lib = empty_library();
    let h = "dddddddddddddddddddddddddddddddd".to_string();
    lib.dirs.push(dir("some-random-id", &["story.epub", "cover.jpg"], Some(&h)));
    let r = lib.import_or_locate(&h, &"story.epub".to_string());
    assert!(!r.created);
    assert_eq!(r.dir_name, "some-random-id");
    assert_eq!(r.book_file, "story.epub");
    assert_eq!(lib.dirs.len(), 1);
}

#[test]
fn hit_without_book_file_restores_the_copy() {
    // Partial state: the entry exists but the book file is gone; the
    // import copies the file back in instead of creating a duplicate
    // directory.
    let mut lib = empty_library();
    let h = "eeeeeeeeeeeeeeeeeeeeeeeeeeeeeeee".to_string();
    lib.dirs.push(dir(&h, &["file_hash.txt"], Some(&h)));
    let r = lib.import_or_locate(&h, &"restored.epub".to_string());
    assert!(!r.created);
    assert!(r.needs_copy);
    assert_eq!(r.book_file, "restored.epub");
    assert_eq!(lib.dirs.len(), 1);
    assert!(lib.dirs[0].files.contains(&"restored.epub".to_string()));
}

#[test]
fn find_entry_reports_first_match() {
    let mut lib = empty_library();
    let h = "ffffffffffffffffffffffffffffffff".to_string();
    lib.dirs.push(dir("unrelated", &[], None));
    lib.dirs.push(dir(&h, &["a.epub"], None));
    assert_eq!(lib.find_entry(&h), Some(1));
    assert_eq!(lib.find_entry(&"0000000000000000ffffffffffffffff".to_string()), None);
}
