use rbook::hash::calculate_md5_hash;
use rbook::hash::to_hex;

#[test]
fn md5_of_empty_input() {
    let bytes: Vec<u8> = Vec::new();
    let hash = calculate_md5_hash(&bytes);
    assert_eq!(hash, "d41d8cd98f00b204e9800998ecf8427e");
}

#[test]
fn md5_of_known_text() {
    let bytes: Vec<u8> = b"abc".to_vec();
    let hash = calculate_md5_hash(&bytes);
    assert_eq!(hash, "900150983cd24fb0d6963f7d28e17f72");
}

#[test]
fn md5_is_deterministic_for_identical_bytes() {
    let a: Vec<u8> = b"the same content".to_vec();
    let b: Vec<u8> = b"the same content".to_vec();
    assert_eq!(calculate_md5_hash(&a), calculate_md5_hash(&b));
}

#[test]
fn md5_differs_for_differing_bytes() {
    let a: Vec<u8> = b"content one".to_vec();
    let b: Vec<u8> = b"content two".to_vec();
    assert_ne!(calculate_md5_hash(&a), calculate_md5_hash(&b));
}

#[test]
fn md5_ignores_any_notion_of_file_name() {
    // The fingerprint is computed from bytes alone; two "files" with
    // different names but equal content hash identically.
    let content: Vec<u8> = b"same bytes, different origin".to_vec();
    let from_first_path = calculate_md5_hash(&content);
    let from_second_path = calculate_md5_hash(&content.clone());
    assert_eq!(from_first_path, from_second_path);
}

#[test]
fn hex_rendering_is_two_lowercase_digits_per_byte() {
    let bytes: Vec<u8> = vec![0x0f, 0xa0, 0x00, 0xff];
    assert_eq!(to_hex(&bytes), "0fa000ff");
}

#[test]
fn hex_of_empty_is_empty() {
    let bytes: Vec<u8> = Vec::new();
    assert_eq!(to_hex(&bytes), "");
}

#[test]
fn md5_hash_is_32_hex_characters() {
    let bytes: Vec<u8> = b"anything".to_vec();
    let hash = calculate_md5_hash(&bytes);
    assert_eq!(hash.len(), 32);
    assert!(hash.chars().all(|c| c.is_ascii_hexdigit() && !c.is_ascii_uppercase()));
}
