use simweb::WebData;
use simweb::data::{is_valid_pct, split_query, trim_str, u64_dec, u64_pad2, get_datetime, parse_http_timestamp, seconds_from_epoch, ws_split};

#[test]
fn param_returns_latest_value() {
    let mut wd = WebData::new();
    wd.insert_param("k".to_string(), "one".to_string());
    wd.insert_param("k".to_string(), "two".to_string());
    assert_eq!(wd.param("k"), Some("two".to_string()));
    assert_eq!(wd.param("missing"), None);
}

#[test]
fn params_lists_latest_then_earlier() {
    let mut wd = WebData::new();
    wd.insert_param("k".to_string(), "one".to_string());
    wd.insert_param("k".to_string(), "two".to_string());
    wd.insert_param("k".to_string(), "three".to_string());
    wd.insert_param("other".to_string(), "x".to_string());
    assert_eq!(
        wd.params("k"),
        Some(vec!["three".to_string(), "one".to_string(), "two".to_string()])
    );
    assert_eq!(wd.params("other"), Some(vec!["x".to_string()]));
    assert_eq!(wd.params("none"), None);
}

#[test]
fn cookies_replace_under_same_name() {
    let mut wd = WebData::new();
    wd.insert_cookie("sid".to_string(), "a".to_string());
    wd.insert_cookie("sid".to_string(), "b".to_string());
    wd.insert_cookie("theme".to_string(), "dark".to_string());
    assert_eq!(wd.cookie("sid"), Some("b".to_string()));
    assert_eq!(wd.cookie("theme"), Some("dark".to_string()));
    assert_eq!(wd.cookie("nope"), None);
}

#[test]
fn cookie_header_parsing_trims_names() {
    let mut wd = WebData::new();
    wd.add_cookie_header("sid=abc; theme=dark;  spaced =v; junk");
    assert_eq!(wd.cookie("sid"), Some("abc".to_string()));
    assert_eq!(wd.cookie("theme"), Some("dark".to_string()));
    assert_eq!(wd.cookie("spaced"), Some("v".to_string()));
    assert_eq!(wd.cookie("junk"), None);
}

#[test]
fn url_comp_decode_basics() {
    let wd = WebData::new();
    assert_eq!(wd.url_comp_decode(&"a%20b".to_string()), "a b");
    assert_eq!(wd.url_comp_decode(&"x+y".to_string()), "x y");
    assert_eq!(wd.url_comp_decode(&"%41%62".to_string()), "Ab");
    // a multi-byte character round-trips through its encoded bytes
    assert_eq!(wd.url_comp_decode(&"%c3%a9".to_string()), "é");
}

#[test]
fn url_comp_decode_invalid_utf8_is_replaced() {
    let wd = WebData::new();
    // 0xFF alone is not valid UTF-8: the replacement character appears
    assert_eq!(wd.url_comp_decode(&"%ff".to_string()), "\u{fffd}");
}

#[test]
fn url_comp_decode_non_ascii_char_becomes_question_mark() {
    let wd = WebData::new();
    assert_eq!(wd.url_comp_decode(&"é".to_string()), "?");
}

#[test]
fn valid_pct_checks_read_digits() {
    assert!(is_valid_pct("a%41b%fF"));
    assert!(is_valid_pct(""));
    // escapes cut short by the end are allowed: they decode to nothing
    assert!(is_valid_pct("%4"));
    assert!(is_valid_pct("x%"));
    // a non-digit where a digit is read is not
    assert!(!is_valid_pct("%zz"));
    assert!(!is_valid_pct("%z"));
    assert!(!is_valid_pct("%4x5"));
}

#[test]
fn url_comp_decode_drops_truncated_escape() {
    let wd = WebData::new();
    assert_eq!(wd.url_comp_decode(&"ab%".to_string()), "ab");
    assert_eq!(wd.url_comp_decode(&"ab%4".to_string()), "ab");
}

#[test]
fn split_query_pairs() {
    let pairs = split_query("a=1&b=two&skipme&c=");
    assert_eq!(
        pairs,
        vec![
            ("a".to_string(), "1".to_string()),
            ("b".to_string(), "two".to_string()),
            ("c".to_string(), "".to_string()),
        ]
    );
    assert_eq!(split_query(""), Vec::<(String, String)>::new());
}

#[test]
fn query_into_webdata() {
    let mut wd = WebData::new();
    for (k, v) in split_query("name=a%20b&name=c&x=1") {
        assert!(is_valid_pct(&k) && is_valid_pct(&v));
        wd.add_form_pair(&k, &v);
    }
    assert_eq!(wd.param("name"), Some("c".to_string()));
    assert_eq!(
        wd.params("name"),
        Some(vec!["c".to_string(), "a b".to_string()])
    );
    assert_eq!(wd.param("x"), Some("1".to_string()));
}

#[test]
fn trim_cuts_ascii_whitespace() {
    assert_eq!(trim_str("  a b\t"), "a b");
    assert_eq!(trim_str("\r\n"), "");
    assert_eq!(trim_str("x"), "x");
}

#[test]
fn decimal_rendering() {
    assert_eq!(u64_dec(0), "0");
    assert_eq!(u64_dec(90210), "90210");
    assert_eq!(u64_pad2(7), "07");
    assert_eq!(u64_pad2(42), "42");
}

#[test]
fn datetime_fields() {
    // 1994-11-06 08:49:37 UTC, a Sunday
    let (y, m, d, h, mi, s, w) = get_datetime(784111777);
    assert_eq!((y, m, d), (1994, 11, 6));
    assert_eq!((h, mi, s), (8, 49, 37));
    // weekday 3 counts from Thursday: Thu=0, Fri=1, Sat=2, Sun=3
    assert_eq!(w, 3);
}

#[test]
fn parse_classic_timestamp() {
    assert_eq!(
        parse_http_timestamp("Sun, 06 Nov 1994 08:49:37 GMT"),
        Ok(784111777)
    );
}

#[test]
fn parse_timestamp_round_trips_with_formatting() {
    let secs = 1582977600u64; // a leap-year date
    let line = simweb::http_format_time(secs);
    assert_eq!(parse_http_timestamp(&line), Ok(secs));
}

#[test]
fn parse_timestamp_error_messages() {
    assert_eq!(
        parse_http_timestamp("no comma here"),
        Err("invalid timestamp string")
    );
    assert_eq!(
        parse_http_timestamp("Sun, 06 Nov 1994"),
        Err("invalid timestamp parts")
    );
    assert_eq!(
        parse_http_timestamp("Sun, xx Nov 1994 08:49:37 GMT"),
        Err("day isn't a number")
    );
    assert_eq!(
        parse_http_timestamp("Sun, 06 Foo 1994 08:49:37 GMT"),
        Err("month not valid string")
    );
    assert_eq!(
        parse_http_timestamp("Sun, 06 Nov year 08:49:37 GMT"),
        Err("year isn't a number")
    );
    assert_eq!(
        parse_http_timestamp("Sun, 06 Nov 1994 08x49 GMT"),
        Err("invalid timestamp parts")
    );
    assert_eq!(
        parse_http_timestamp("Sun, 06 Nov 1994 hh:49:37 GMT"),
        Err("hour isn't a number")
    );
    assert_eq!(
        parse_http_timestamp("Sun, 31 Feb 1994 08:49:37 GMT"),
        Err("timestamp names no real moment")
    );
}

#[test]
fn seconds_from_epoch_values() {
    assert_eq!(seconds_from_epoch(1970, 1, 1, 0, 0, 0), Ok(0));
    assert_eq!(seconds_from_epoch(1994, 11, 6, 8, 49, 37), Ok(784111777));
    assert_eq!(
        seconds_from_epoch(1969, 1, 1, 0, 0, 0),
        Err("timestamp names no real moment")
    );
    assert_eq!(
        seconds_from_epoch(2021, 2, 29, 0, 0, 0),
        Err("timestamp names no real moment")
    );
}

#[test]
fn ws_split_skips_runs() {
    assert_eq!(ws_split("a  b\tc "), vec!["a", "b", "c"]);
    assert_eq!(ws_split("   "), Vec::<String>::new());
}
