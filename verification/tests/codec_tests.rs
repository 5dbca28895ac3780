use simweb::{
    as_web_path, base64_encode_with_padding, get_version, has_root, html_encode, http_format_time,
    iso_8859_1_to_string, json_encode, new_cookie_header, to_hex, url_encode,
};

#[test]
fn version_string() {
    assert_eq!(get_version(), "0.1.0");
}

#[test]
fn html_encode_escapes_significant_chars() {
    assert_eq!(
        html_encode("<a href=\"x\">&'</a>"),
        "&lt;a href=&quot;x&quot;&gt;&amp;&#39;&lt;/a&gt;"
    );
    assert_eq!(html_encode("plain"), "plain");
    assert_eq!(html_encode(""), "");
}

#[test]
fn json_encode_escapes_control_chars() {
    assert_eq!(json_encode("a\"b\\c"), "a\\\"b\\\\c");
    assert_eq!(json_encode("line\nnext\r\ttab"), "line\\nnext\\r\\ttab");
    assert_eq!(json_encode("nothing"), "nothing");
}

#[test]
fn url_encode_unreserved_and_percent() {
    assert_eq!(url_encode("AZaz09-._~"), "AZaz09-._~");
    assert_eq!(url_encode("a b&c"), "a%20b%26c");
}

#[test]
fn url_encode_multibyte_utf8() {
    // 'é' is 0xC3 0xA9 in UTF-8
    assert_eq!(url_encode("é"), "%c3%a9");
}

#[test]
fn to_hex_lowercase_pairs() {
    assert_eq!(to_hex(&[0x00, 0x0f, 0xff, 0x1a]), "000fff1a");
    assert_eq!(to_hex(&[]), "");
}

#[test]
fn base64_known_vectors() {
    assert_eq!(base64_encode_with_padding(b"ABC"), "QUJD");
    assert_eq!(base64_encode_with_padding(b"A"), "QQ==");
    assert_eq!(base64_encode_with_padding(b"AB"), "QUI=");
    assert_eq!(base64_encode_with_padding(b""), "");
    assert_eq!(base64_encode_with_padding(b"hello world"), "aGVsbG8gd29ybGQ=");
}

#[test]
fn iso_8859_1_bytes_become_chars() {
    assert_eq!(iso_8859_1_to_string(&[0x41, 0xe9, 0xff]), "Aéÿ");
}

#[test]
fn has_root_checks_leading_slash() {
    assert!(has_root("/etc"));
    assert!(!has_root("etc"));
    assert!(!has_root(""));
}

#[test]
fn as_web_path_flips_backslashes() {
    assert_eq!(as_web_path("a\\b\\c".to_string()), "a/b/c");
    assert_eq!(as_web_path("a/b".to_string()), "a/b");
}

#[test]
fn http_format_time_epoch() {
    assert_eq!(http_format_time(0), "Thu, 01 Jan 1970 00:00:00 GMT");
}

#[test]
fn http_format_time_classic_date() {
    // the RFC's example date
    assert_eq!(http_format_time(784111777), "Sun, 06 Nov 1994 08:49:37 GMT");
}

#[test]
fn http_format_time_leap_day() {
    // 2020-02-29 12:00:00 UTC
    assert_eq!(http_format_time(1582977600), "Sat, 29 Feb 2020 12:00:00 GMT");
}

#[test]
fn cookie_header_without_expiry() {
    let (k, v) = new_cookie_header(&"sid".to_string(), &"abc".to_string(), None);
    assert_eq!(k, "Set-Cookie");
    assert_eq!(v, "sid=abc");
}

#[test]
fn cookie_header_with_expiry() {
    let (k, v) = new_cookie_header(&"sid".to_string(), &"abc".to_string(), Some(0));
    assert_eq!(k, "Set-Cookie");
    assert_eq!(v, "sid=abc; Expires=Thu, 01 Jan 1970 00:00:00 GMT");
}
