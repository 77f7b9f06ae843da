use text_mirror::text::{StrEncoding, StrUtf816};

#[test]
fn new_keeps_text_and_tag() {
    let v = StrUtf816::new("abc".to_string(), StrEncoding::Utf16);
    assert_eq!(v.as_str(), "abc");
    assert!(matches!(v.encoding(), StrEncoding::Utf16));
}

#[test]
fn set_encoding_keeps_the_text() {
    let mut v = StrUtf816::new("abc".to_string(), StrEncoding::Utf8);
    v.set_encoding(StrEncoding::Utf16);
    assert!(matches!(v.encoding(), StrEncoding::Utf16));
    assert_eq!(v.as_str(), "abc");
}

#[test]
fn default_is_empty_utf8() {
    let v = StrUtf816::default();
    assert_eq!(v.as_str(), "");
    assert!(matches!(v.encoding(), StrEncoding::Utf8));
}

#[test]
fn into_string_gives_the_text_up() {
    let v = StrUtf816::new("xyz".to_string(), StrEncoding::Utf8);
    let s: String = v.into_string();
    assert_eq!(s, "xyz");
}
