use asset_pipeline::media::{
    identify,
    file_type_from_mime, guess_mime_type, is_supported_file, sha256_hex, thumbnail_data_url,
    to_hex_lower,
};
use asset_pipeline::strings::{ascii_lower, str_eq, str_le, str_starts_with, u32_to_string};

#[test]
fn mime_table_is_case_insensitive() {
    assert_eq!(guess_mime_type("png"), "image/png");
    assert_eq!(guess_mime_type("PNG"), "image/png");
    assert_eq!(guess_mime_type("JpEg"), "image/jpeg");
    assert_eq!(guess_mime_type("m4a"), "audio/mp4");
    assert_eq!(guess_mime_type("mov"), "video/quicktime");
    assert_eq!(guess_mime_type("json"), "application/json");
    assert_eq!(guess_mime_type("zzz"), "application/octet-stream");
    assert_eq!(guess_mime_type(""), "application/octet-stream");
}

#[test]
fn file_type_follows_mime_prefix() {
    assert_eq!(file_type_from_mime("image/png"), "image");
    assert_eq!(file_type_from_mime("audio/mpeg"), "audio");
    assert_eq!(file_type_from_mime("video/webm"), "video");
    assert_eq!(file_type_from_mime("application/json"), "other");
    assert_eq!(file_type_from_mime("imag"), "other");
}

#[test]
fn supported_extensions() {
    assert!(is_supported_file("png"));
    assert!(is_supported_file("WEBM"));
    assert!(!is_supported_file("psd"));
    assert!(!is_supported_file("exe"));
    assert!(!is_supported_file(""));
}

#[test]
fn sha256_hex_known_vectors() {
    assert_eq!(
        sha256_hex(b"abc"),
        "ba7816bf8f01cfea414140de5dae2223b00361a396177a9cb410ff61f20015ad"
    );
    assert_eq!(
        sha256_hex(b""),
        "e3b0c44298fc1c149afbf4c8996fb92427ae41e4649b934ca495991b7852b855"
    );
    // identical bytes fingerprint identically
    assert_eq!(sha256_hex(&[1, 2, 3]), sha256_hex(&[1, 2, 3]));
    assert_ne!(sha256_hex(&[1, 2, 3]), sha256_hex(&[3, 2, 1]));
}

#[test]
fn hex_rendering() {
    assert_eq!(to_hex_lower(&[0xbe, 0xef, 0x00, 0x0a]), "beef000a");
    assert_eq!(to_hex_lower(&[]), "");
}

#[test]
fn data_url_for_thumbnail() {
    let url = thumbnail_data_url("png", &b"hello".to_vec());
    assert_eq!(url, "data:image/png;base64,aGVsbG8=");
    let url = thumbnail_data_url("jpg", &b"hi".to_vec());
    assert_eq!(url, "data:image/jpeg;base64,aGk=");
    let url = thumbnail_data_url("tiff", &Vec::new());
    assert_eq!(url, "data:image/png;base64,");
}

#[test]
fn string_utilities() {
    assert_eq!(u32_to_string(0), "0");
    assert_eq!(u32_to_string(12345), "12345");
    assert_eq!(u32_to_string(u32::MAX), "4294967295");
    assert_eq!(ascii_lower("AbC-Z9"), "abc-z9");
    assert!(str_eq("same", "same"));
    assert!(!str_eq("same", "sam"));
    assert!(str_starts_with("image/png", "image/"));
    assert!(!str_starts_with("img", "image/"));
    assert!(str_le("/a", "/b"));
    assert!(str_le("/a", "/a/b"));
    assert!(!str_le("/b", "/a"));
}

#[test]
fn identify_combines_hash_mime_and_category() {
    let (hash, mime, category) = identify(b"abc", "PNG");
    assert_eq!(hash, "ba7816bf8f01cfea414140de5dae2223b00361a396177a9cb410ff61f20015ad");
    assert_eq!(mime, "image/png");
    assert_eq!(category, "image");
    let (_, mime, category) = identify(b"", "weird");
    assert_eq!(mime, "application/octet-stream");
    assert_eq!(category, "other");
}
