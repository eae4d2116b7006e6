use rbook::convert::download_url_for;
use rbook::convert::last_successful_path;
use rbook::convert::plan_conversion;
use rbook::listing::load_all_local_epub_files;
use rbook::model::LibError;
use rbook::search::download_path_for;
use rbook::search::search_url_for;
use rbook::store::BookDir;
use rbook::store::Library;

fn dir(name: &str, files: &[&str], hash: Option<&str>, last: Option<&str>) -> BookDir {
    BookDir {
        name: name.to_string(),
        files: files.iter().map(|f| f.to_string()).collect(),
        hash_text: hash.map(|t| t.to_string()),
        last_opened_text: last.map(|t| t.to_string()),
    }
}

#[test]
fn listing_joins_each_book_with_its_cover_and_stamp() {
    let lib = Library {
        dirs: vec![
            dir("aaaa", &["one.epub", "cover.jpg", "file_hash.txt"], Some("aaaa"), Some("1700000000")),
            dir("bbbb", &["notes.txt"], None, None),
            dir("cccc", &["two.epub"], Some("cccc"), None),
        ],
    };
    let entries = load_all_local_epub_files(&lib, "/data/books").unwrap();
    assert_eq!(entries.len(), 2);
    assert_eq!(entries[0].path, "/data/books/aaaa/one.epub");
    assert_eq!(entries[0].cover, "/data/books/aaaa/cover.jpg");
    assert_eq!(entries[0].last_opened, Some(1700000000));
    assert_eq!(entries[1].path, "/data/books/cccc/two.epub");
    assert_eq!(entries[1].cover, "/data/books/cccc/cover.jpg");
    assert_eq!(entries[1].last_opened, None);
}

#[test]
fn listing_fails_on_a_malformed_last_opened_stamp() {
    // A present but unparsable sidecar is an error, not a silent
    // missing stamp.
    let lib = Library {
        dirs: vec![dir("cccc", &["two.epub"], Some("cccc"), Some("broken"))],
    };
    assert_eq!(
        load_all_local_epub_files(&lib, "/data/books").unwrap_err(),
        LibError::Deserialization
    );
}

#[test]
fn listing_of_empty_store_is_empty() {
    let lib = Library { dirs: Vec::new() };
    assert_eq!(load_all_local_epub_files(&lib, "/data/books").unwrap().len(), 0);
}

#[test]
fn conversion_plan_restores_missing_pieces() {
    let d = dir("aaaa", &["book.epub"], None, None);
    let plan = plan_conversion(&d, &"book.epub".to_string(), &Vec::new());
    assert!(plan.write_hash);
    assert!(!plan.copy_epub);
    assert!(plan.write_cover);
    assert_eq!(plan.existing_html, None);
}

#[test]
fn conversion_plan_reuses_an_existing_entry_file() {
    let d = dir("aaaa", &["book.epub", "cover.jpg", "file_hash.txt"], Some("aaaa"), None);
    let extracted = vec![
        "style.css".to_string(),
        "chapter1.html".to_string(),
        "index.html".to_string(),
    ];
    let plan = plan_conversion(&d, &"book.epub".to_string(), &extracted);
    assert!(!plan.write_hash);
    assert!(!plan.copy_epub);
    assert!(!plan.write_cover);
    assert_eq!(plan.existing_html, Some(2));
}

#[test]
fn conversion_plan_copies_a_missing_book_file() {
    let d = dir("aaaa", &["file_hash.txt"], Some("aaaa"), None);
    let plan = plan_conversion(&d, &"book.epub".to_string(), &vec!["readme.txt".to_string()]);
    assert!(plan.copy_epub);
    assert_eq!(plan.existing_html, None);
}

#[test]
fn download_url_carries_the_identifier() {
    assert_eq!(
        download_url_for("abc-123"),
        "https://products.fileformat.app/zh/word-processing/conversion/Download?id=abc-123"
    );
}

#[test]
fn the_last_success_among_attempts_is_kept() {
    let results: Vec<Result<String, String>> = vec![
        Ok("first.html".to_string()),
        Err("boom".to_string()),
        Ok("last.html".to_string()),
        Err("late failure".to_string()),
    ];
    assert_eq!(last_successful_path(&results), Some("last.html".to_string()));
    let all_failed: Vec<Result<String, String>> =
        vec![Err("a".to_string()), Err("b".to_string())];
    assert_eq!(last_successful_path(&all_failed), None);
    assert_eq!(last_successful_path(&Vec::new()), None);
}

#[test]
fn search_urls_append_pages_past_the_first() {
    assert_eq!(
        search_url_for("story", 1),
        "https://digilibraries.com/search//story"
    );
    assert_eq!(
        search_url_for("story", 2),
        "https://digilibraries.com/search//story/2"
    );
}

#[test]
fn downloaded_books_land_under_the_data_root() {
    assert_eq!(
        download_path_for("/data", "A Tale"),
        "/data/epub/A Tale.epub"
    );
}
