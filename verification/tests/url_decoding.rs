use wasm_registry::url_decode::{convert_percent, url_decode};

#[test]
fn check_url_decode() {
    assert_eq!(url_decode("/%"), "/%");
    assert_eq!(url_decode("/%%"), "/%");
    assert_eq!(url_decode("/%20a"), "/ a");
    assert_eq!(url_decode("/%%+a%20+%@"), "/% a  %@");
    assert_eq!(url_decode("/has%percent.txt"), "/has%percent.txt");
    assert_eq!(url_decode("/%e6"), "/\u{e6}");
}

#[test]
fn url_decode_plain_text_is_unchanged() {
    assert_eq!(url_decode(""), "");
    assert_eq!(url_decode("/index.html"), "/index.html");
}

#[test]
fn url_decode_hex_escapes() {
    assert_eq!(url_decode("%41%42%43"), "ABC");
    assert_eq!(url_decode("%61%7A"), "az");
    assert_eq!(url_decode("a%2Bb"), "a+b");
}

#[test]
fn url_decode_incomplete_escape_kept_literally() {
    assert_eq!(url_decode("%2"), "%2");
    assert_eq!(url_decode("%2x"), "%2x");
    assert_eq!(url_decode("x%"), "x%");
}

#[test]
fn url_decode_plus_is_space() {
    assert_eq!(url_decode("a+b+c"), "a b c");
}

#[test]
fn convert_percent_reads_one_escape() {
    let bytes: Vec<u8> = b"%41".to_vec();
    assert_eq!(convert_percent(&bytes, 1), Some((0x41, 3)));
    let double: Vec<u8> = b"%%".to_vec();
    assert_eq!(convert_percent(&double, 1), Some((b'%', 2)));
    let bad: Vec<u8> = b"%4x".to_vec();
    assert_eq!(convert_percent(&bad, 1), None);
    let short: Vec<u8> = b"%".to_vec();
    assert_eq!(convert_percent(&short, 1), None);
}
