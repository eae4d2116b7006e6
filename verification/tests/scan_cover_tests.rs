use rbook::cover::resolve_cover;
use rbook::menu::get_all_local_files;
use rbook::store::BookDir;
use rbook::store::Library;
use rbook::cover::MIN_COVER_BYTES;
use rbook::menu::mime_for_image;
use rbook::menu::read_cover_file;
use rbook::model::LibError;
use rbook::scan::has_extension;
use rbook::scan::select_html_file;

fn names(list: &[&str]) -> Vec<String> {
    list.iter().map(|s| s.to_string()).collect()
}

#[test]
fn index_html_is_preferred_over_other_matches() {
    let entries = names(&["a.html", "index.html", "b.htm"]);
    assert_eq!(select_html_file(&entries), Some(1));
}

#[test]
fn first_encountered_match_wins_without_index() {
    let entries = names(&["a.html", "b.htm"]);
    assert_eq!(select_html_file(&entries), Some(0));
    let entries = names(&["notes.txt", "b.htm", "a.html"]);
    assert_eq!(select_html_file(&entries), Some(1));
}

#[test]
fn index_html_preference_ignores_case() {
    let entries = names(&["a.html", "INDEX.HTML"]);
    assert_eq!(select_html_file(&entries), Some(1));
}

#[test]
fn no_match_yields_nothing() {
    assert_eq!(select_html_file(&names(&[])), None);
    assert_eq!(select_html_file(&names(&["a.txt", "b.css", "html"])), None);
}

#[test]
fn extension_matching_is_exact() {
    assert!(has_extension("book.epub", "epub"));
    assert!(has_extension("a.b.epub", "epub"));
    assert!(!has_extension("book.EPUB", "epub"));
    assert!(!has_extension(".epub", "epub"));
    assert!(!has_extension("epub", "epub"));
    assert!(!has_extension("book.epub2", "epub"));
}

#[test]
fn cached_cover_wins_without_extraction() {
    let cached = vec![1u8; 5000];
    let r = resolve_cover(Some(cached.clone()), None, None).unwrap();
    assert_eq!(r.0, cached);
    assert!(!r.1);
}

#[test]
fn missing_embedded_cover_falls_back_to_the_default() {
    // No embedded cover: the bundled default is chosen and must be
    // persisted, so the next call finds it cached.
    let default_img = vec![7u8; 4096];
    let r = resolve_cover(None, None, Some(default_img.clone())).unwrap();
    assert_eq!(r.0, default_img);
    assert!(r.1);
}

#[test]
fn tiny_embedded_cover_counts_as_corrupt() {
    let tiny = vec![2u8; MIN_COVER_BYTES - 1];
    let default_img = vec![7u8; 4096];
    let r = resolve_cover(None, Some(tiny), Some(default_img.clone())).unwrap();
    assert_eq!(r.0, default_img);
    assert!(r.1);
}

#[test]
fn large_embedded_cover_is_kept() {
    let embedded = vec![3u8; MIN_COVER_BYTES];
    let r = resolve_cover(None, Some(embedded.clone()), Some(vec![7u8; 4096])).unwrap();
    assert_eq!(r.0, embedded);
    assert!(r.1);
}

#[test]
fn cover_resolution_fails_only_when_nothing_is_available() {
    assert_eq!(resolve_cover(None, None, None).unwrap_err(), LibError::Cover);
}

#[test]
fn cover_bytes_are_rendered_as_base64() {
    assert_eq!(read_cover_file(&b"abc".to_vec()), "YWJj");
    assert_eq!(read_cover_file(&b"ab".to_vec()), "YWI=");
    assert_eq!(read_cover_file(&Vec::new()), "");
}

#[test]
fn menu_joins_books_with_their_covers_and_skips_unreadable_ones() {
    let lib = Library {
        dirs: vec![
            BookDir {
                name: "aaaa".to_string(),
                files: vec!["one.epub".to_string(), "cover.jpg".to_string()],
                hash_text: Some("aaaa".to_string()),
                last_opened_text: None,
            },
            BookDir {
                name: "bbbb".to_string(),
                files: vec!["two.epub".to_string()],
                hash_text: Some("bbbb".to_string()),
                last_opened_text: None,
            },
        ],
    };
    let covers: Vec<Option<Vec<u8>>> = vec![Some(b"abc".to_vec()), None];
    let items = get_all_local_files(&lib, "/data/books", &covers);
    assert_eq!(items.len(), 1);
    assert_eq!(items[0].file_path, "/data/books/aaaa/one.epub");
    assert_eq!(items[0].cover, "YWJj");
}

#[test]
fn image_media_types_follow_the_extension() {
    assert_eq!(mime_for_image("p.jpg"), "image/jpeg");
    assert_eq!(mime_for_image("p.jpeg"), "image/jpeg");
    assert_eq!(mime_for_image("p.png"), "image/png");
    assert_eq!(mime_for_image("p.gif"), "image/gif");
    assert_eq!(mime_for_image("p.svg"), "image/svg+xml");
    assert_eq!(mime_for_image("p.webp"), "image/webp");
    assert_eq!(mime_for_image("p.bmp"), "application/octet-stream");
    assert_eq!(mime_for_image("noext"), "application/octet-stream");
}
