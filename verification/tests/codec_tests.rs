use rbook::codec::encode_bookmark;
use rbook::codec::encode_last_opened;
use rbook::codec::encode_style;
use rbook::codec::load_bookmark_from_local_storage;
use rbook::codec::load_style_from_local_storage;
use rbook::codec::parse_bookmark;
use rbook::codec::parse_last_opened;
use rbook::codec::parse_style;
use rbook::model::BookMark;
use rbook::model::LibError;
use rbook::model::ReaderStyle;

fn sample_bookmark() -> BookMark {
    let mut bm = BookMark::new("/data/books/h/book.epub".to_string());
    bm.add_mark(3, "a note".to_string(), 800, 600, "epubcfi(/6/4!/4/2)".to_string());
    bm.add_mark(10, "another".to_string(), 1024, 768, "epubcfi(/6/8!/2)".to_string());
    bm
}

#[test]
fn bookmark_serializes_to_compact_json() {
    let bm = sample_bookmark();
    let text = encode_bookmark(&bm);
    assert_eq!(
        text,
        "{\"book_path\":\"/data/books/h/book.epub\",\"list\":[\
         {\"page\":3,\"content\":\"a note\",\"width\":800,\"height\":600,\"cfi\":\"epubcfi(/6/4!/4/2)\"},\
         {\"page\":10,\"content\":\"another\",\"width\":1024,\"height\":768,\"cfi\":\"epubcfi(/6/8!/2)\"}\
         ]}"
    );
}

#[test]
fn bookmark_with_two_marks_round_trips() {
    // Serializing and deserializing reproduces an equal value: same
    // pages, same field values, same order.
    let bm = sample_bookmark();
    let text = encode_bookmark(&bm);
    let back = parse_bookmark(&text).unwrap();
    assert_eq!(back.book_path, bm.book_path);
    assert_eq!(back.list.len(), bm.list.len());
    for (a, b) in bm.list.iter().zip(back.list.iter()) {
        assert_eq!(a.page, b.page);
        assert_eq!(a.content, b.content);
        assert_eq!(a.width, b.width);
        assert_eq!(a.height, b.height);
        assert_eq!(a.cfi, b.cfi);
    }
}

#[test]
fn empty_bookmark_round_trips() {
    let bm = BookMark::new("p".to_string());
    let text = encode_bookmark(&bm);
    assert_eq!(text, "{\"book_path\":\"p\",\"list\":[]}");
    let back = parse_bookmark(&text).unwrap();
    assert_eq!(back.book_path, "p");
    assert_eq!(back.list.len(), 0);
}

#[test]
fn special_characters_survive_the_round_trip() {
    let mut bm = BookMark::new("/books/\"quoted\"\\path".to_string());
    bm.add_mark(1, "line\nbreak\tand \"quotes\"".to_string(), 1, 1, "c\\fi".to_string());
    let text = encode_bookmark(&bm);
    let back = parse_bookmark(&text).unwrap();
    assert_eq!(back.book_path, bm.book_path);
    assert_eq!(back.list[0].content, bm.list[0].content);
    assert_eq!(back.list[0].cfi, bm.list[0].cfi);
}

#[test]
fn non_ascii_content_survives_the_round_trip() {
    let mut bm = BookMark::new("义妹生活.epub".to_string());
    bm.add_mark(2, "第2章の記憶".to_string(), 1, 1, "cfi".to_string());
    let text = encode_bookmark(&bm);
    let back = parse_bookmark(&text).unwrap();
    assert_eq!(back.book_path, bm.book_path);
    assert_eq!(back.list[0].content, bm.list[0].content);
}

#[test]
fn parser_accepts_short_escapes() {
    let text = "{\"book_path\":\"a\\nb\",\"list\":[]}";
    let back = parse_bookmark(text).unwrap();
    assert_eq!(back.book_path, "a\nb");
}

#[test]
fn parser_decodes_four_digit_escapes() {
    let text = "{\"book_path\":\"\\u0041\\u000a\",\"list\":[]}";
    let back = parse_bookmark(text).unwrap();
    assert_eq!(back.book_path, "A\n");
}

#[test]
fn parser_rejects_surrogate_codes() {
    let text = "{\"book_path\":\"\\ud800\",\"list\":[]}";
    assert_eq!(parse_bookmark(text).unwrap_err(), LibError::Deserialization);
}

#[test]
fn control_characters_are_escaped_as_codes() {
    let mut bm = BookMark::new("p".to_string());
    bm.add_mark(1, "a\u{1}b".to_string(), 1, 1, String::new());
    let text = encode_bookmark(&bm);
    assert!(text.contains("a\\u0001b"));
    let back = parse_bookmark(&text).unwrap();
    assert_eq!(back.list[0].content, "a\u{1}b");
}

#[test]
fn malformed_bookmark_is_a_deserialization_error() {
    assert_eq!(parse_bookmark("").unwrap_err(), LibError::Deserialization);
    assert_eq!(parse_bookmark("{}").unwrap_err(), LibError::Deserialization);
    assert_eq!(
        parse_bookmark("{\"book_path\":\"p\",\"list\":[").unwrap_err(),
        LibError::Deserialization
    );
    assert_eq!(
        parse_bookmark("{\"book_path\":\"p\",\"list\":[]} trailing").unwrap_err(),
        LibError::Deserialization
    );
}

#[test]
fn missing_bookmark_file_yields_a_fresh_bookmark() {
    let bm = load_bookmark_from_local_storage("/b/book.epub".to_string(), None).unwrap();
    assert_eq!(bm.book_path, "/b/book.epub");
    assert_eq!(bm.list.len(), 0);
}

#[test]
fn present_bookmark_file_is_parsed() {
    let bm = load_bookmark_from_local_storage(
        "ignored".to_string(),
        Some("{\"book_path\":\"kept\",\"list\":[]}"),
    )
    .unwrap();
    assert_eq!(bm.book_path, "kept");
}

#[test]
fn style_serializes_to_compact_json() {
    let st = ReaderStyle {
        font_family: "Noto Serif".to_string(),
        font_size: 18,
        line_height_tenths: 14,
        theme: "dark".to_string(),
    };
    assert_eq!(
        encode_style(&st),
        "{\"font_family\":\"Noto Serif\",\"font_size\":18,\"line_height\":1.4,\"theme\":\"dark\"}"
    );
}

#[test]
fn style_round_trips() {
    let st = ReaderStyle {
        font_family: "Georgia".to_string(),
        font_size: 21,
        line_height_tenths: 20,
        theme: "sepia".to_string(),
    };
    let text = encode_style(&st);
    assert_eq!(
        text,
        "{\"font_family\":\"Georgia\",\"font_size\":21,\"line_height\":2.0,\"theme\":\"sepia\"}"
    );
    let back = parse_style(&text).unwrap();
    assert_eq!(back.font_family, st.font_family);
    assert_eq!(back.font_size, st.font_size);
    assert_eq!(back.line_height_tenths, st.line_height_tenths);
    assert_eq!(back.theme, st.theme);
}

#[test]
fn missing_style_file_yields_the_default_without_writing_anything() {
    // The read has no side effect at all: it only constructs the
    // built-in default.
    let st = load_style_from_local_storage(None).unwrap();
    assert_eq!(st.font_family, "Noto Serif");
    assert_eq!(st.font_size, 18);
    assert_eq!(st.line_height_tenths, 14);
    assert_eq!(st.theme, "");
}

#[test]
fn malformed_style_is_a_deserialization_error() {
    assert_eq!(
        load_style_from_local_storage(Some("not json")).unwrap_err(),
        LibError::Deserialization
    );
    assert_eq!(
        parse_style("{\"font_family\":\"a\",\"font_size\":18}").unwrap_err(),
        LibError::Deserialization
    );
}

#[test]
fn last_opened_round_trips() {
    let text = encode_last_opened(1714502400);
    assert_eq!(text, "1714502400");
    assert_eq!(parse_last_opened(Some(&text)), Ok(Some(1714502400)));
}

#[test]
fn absent_last_opened_file_means_no_stamp() {
    assert_eq!(parse_last_opened(None), Ok(None));
}

#[test]
fn malformed_last_opened_is_a_deserialization_error() {
    // A present but unparsable stamp is never silently dropped.
    assert_eq!(parse_last_opened(Some("")), Err(LibError::Deserialization));
    assert_eq!(parse_last_opened(Some("12x")), Err(LibError::Deserialization));
    assert_eq!(parse_last_opened(Some("123 ")), Err(LibError::Deserialization));
    assert_eq!(
        parse_last_opened(Some("99999999999999999999999")),
        Err(LibError::Deserialization)
    );
    assert_eq!(parse_last_opened(Some("0")), Ok(Some(0)));
}
