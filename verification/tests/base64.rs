use gamemaster::base64::base64;

#[test]
fn base64_padding() {
    assert_eq!(base64(b""), "");
    assert_eq!(base64(b"f"), "Zg==");
    assert_eq!(base64(b"fo"), "Zm8=");
    assert_eq!(base64(b"foo"), "Zm9v");
    assert_eq!(base64(b"foob"), "Zm9vYg==");
    assert_eq!(base64(b"fooba"), "Zm9vYmE=");
    assert_eq!(base64(b"foobar"), "Zm9vYmFy");
}

#[test]
fn base64_high_digits() {
    assert_eq!(base64(&[0xFF, 0xFE]), "//4=");
    assert_eq!(base64(&[0xFB, 0xEF, 0xBE]), "++++");
    assert_eq!(base64(&[0, 0, 0]), "AAAA");
}
