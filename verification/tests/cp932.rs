use vntools_common::cp932::{cp932_to_utf8, utf8_to_cp932};

#[test]
fn ascii_decodes_unchanged() {
    assert_eq!(cp932_to_utf8(b"file_01.txt"), Ok("file_01.txt".to_string()));
    assert_eq!(cp932_to_utf8(b""), Ok(String::new()));
}

#[test]
fn double_byte_decodes() {
    assert_eq!(cp932_to_utf8(&[0x82, 0xA0]), Ok("\u{3042}".to_string()));
    assert_eq!(cp932_to_utf8(&[0x93, 0xFA, 0x96, 0x7B]), Ok("\u{65E5}\u{672C}".to_string()));
    assert_eq!(cp932_to_utf8(&[0xC6]), Ok("\u{FF86}".to_string()));
}

#[test]
fn invalid_bytes_fail() {
    assert_eq!(cp932_to_utf8(&[0x82]), Err("CP932 decoding error"));
    assert_eq!(cp932_to_utf8(&[0xA0]), Err("CP932 decoding error"));
}

#[test]
fn encodes_to_cp932() {
    assert_eq!(utf8_to_cp932("A\u{3042}"), Ok(vec![0x41, 0x82, 0xA0]));
    assert_eq!(utf8_to_cp932("\u{1F600}"), Err("CP932 encoding error"));
}

#[test]
fn ascii_round_trip() {
    let text = "voice_001.ogg";
    let bytes = utf8_to_cp932(text).unwrap();
    assert_eq!(bytes, text.as_bytes());
    assert_eq!(cp932_to_utf8(&bytes), Ok(text.to_string()));
}
