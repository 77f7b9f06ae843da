use text_mirror::codec::{decode_utf8_utf16, encode_utf8_utf16};
use text_mirror::text::{StrEncoding, StrUtf816};

#[test]
fn utf8_round_trip_ascii() {
    let bytes: Vec<u8> = b"hello world".to_vec();
    let decoded = decode_utf8_utf16(&bytes);
    assert!(matches!(decoded.encoding(), StrEncoding::Utf8));
    assert_eq!(decoded.as_str(), "hello world");
    let out = encode_utf8_utf16(&decoded);
    assert_eq!(out, bytes);
}

#[test]
fn utf8_round_trip_multibyte() {
    let bytes: Vec<u8> = "héllo — κόσμος".as_bytes().to_vec();
    let decoded = decode_utf8_utf16(&bytes);
    assert!(matches!(decoded.encoding(), StrEncoding::Utf8));
    assert_eq!(decoded.as_str(), "héllo — κόσμος");
    let out = encode_utf8_utf16(&decoded);
    assert_eq!(out, bytes);
}

#[test]
fn utf8_empty_round_trip() {
    let bytes: Vec<u8> = Vec::new();
    let decoded = decode_utf8_utf16(&bytes);
    assert!(matches!(decoded.encoding(), StrEncoding::Utf8));
    assert_eq!(decoded.as_str(), "");
    assert_eq!(encode_utf8_utf16(&decoded), bytes);
}

#[test]
fn utf16_round_trip_even() {
    // "π" in little-endian UTF-16; 0xC0 makes the bytes invalid as UTF-8.
    let bytes: Vec<u8> = vec![0xC0, 0x03];
    let decoded = decode_utf8_utf16(&bytes);
    assert!(matches!(decoded.encoding(), StrEncoding::Utf16));
    assert_eq!(decoded.as_str(), "π");
    let out = encode_utf8_utf16(&decoded);
    assert_eq!(out, bytes);
}

#[test]
fn utf16_round_trip_surrogate_pair() {
    // U+1D11E (musical G clef) as a little-endian surrogate pair.
    let bytes: Vec<u8> = vec![0x34, 0xD8, 0x1E, 0xDD];
    let decoded = decode_utf8_utf16(&bytes);
    assert!(matches!(decoded.encoding(), StrEncoding::Utf16));
    assert_eq!(decoded.as_str(), "\u{1D11E}");
    let out = encode_utf8_utf16(&decoded);
    assert_eq!(out, bytes);
}

#[test]
fn utf16_odd_length_drops_trailing_byte() {
    let bytes: Vec<u8> = vec![0xC0, 0x03, 0xFF];
    let decoded = decode_utf8_utf16(&bytes);
    assert!(matches!(decoded.encoding(), StrEncoding::Utf16));
    assert_eq!(decoded.as_str(), "π");
    let out = encode_utf8_utf16(&decoded);
    assert_eq!(out, vec![0xC0, 0x03]);
}

#[test]
fn utf16_unpaired_surrogate_is_replaced() {
    // A lone high surrogate 0xD800 decodes to U+FFFD.
    let bytes: Vec<u8> = vec![0x00, 0xD8];
    let decoded = decode_utf8_utf16(&bytes);
    assert!(matches!(decoded.encoding(), StrEncoding::Utf16));
    assert_eq!(decoded.as_str(), "\u{FFFD}");
}

#[test]
fn encode_ascii_as_utf16() {
    let value = StrUtf816::new("ab".to_string(), StrEncoding::Utf16);
    assert_eq!(encode_utf8_utf16(&value), vec![0x61, 0x00, 0x62, 0x00]);
}

#[test]
fn nul_bytes_decode_as_utf8() {
    // UTF-16 text whose bytes happen to be valid UTF-8 is read as UTF-8;
    // the bytes still round-trip unchanged.
    let bytes: Vec<u8> = vec![0x61, 0x00, 0x62, 0x00];
    let decoded = decode_utf8_utf16(&bytes);
    assert!(matches!(decoded.encoding(), StrEncoding::Utf8));
    assert_eq!(encode_utf8_utf16(&decoded), bytes);
}
