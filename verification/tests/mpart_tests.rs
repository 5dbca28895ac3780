use simweb::mpart::{MPart, MPartError, Part, check_consumed, extract_boundary, part_text_content};

fn decoder(body: &str, boundary: &str) -> MPart {
    MPart::from(body.as_bytes().to_vec(), boundary.as_bytes())
}

#[test]
fn single_text_part() {
    // boundary XYZ, one field named "a" holding "hello"
    let body = "--XYZ\r\nContent-Disposition: form-data; name=\"a\"\r\n\r\nhello\r\n--XYZ--\r\n";
    let mut mp = decoder(body, "XYZ");
    let p = mp.next_part().unwrap().unwrap();
    assert_eq!(p.content_name, "a");
    assert_eq!(p.content_filename, None);
    assert_eq!(p.content_type, None);
    assert_eq!(p.content, b"hello".to_vec());
    assert_eq!(p.content_size, 5);
    assert_eq!(mp.next_part(), Ok(None));
}

#[test]
fn file_upload_part() {
    let body = "--XYZ\r\nContent-Disposition: form-data; name=\"f\"; filename=\"a.txt\"\r\nContent-Type: text/plain\r\n\r\nbinary\x00data\r\n--XYZ--\r\n";
    let mut mp = decoder(body, "XYZ");
    let p = mp.next_part().unwrap().unwrap();
    assert_eq!(p.content_name, "f");
    assert_eq!(p.content_filename, Some("a.txt".to_string()));
    assert_eq!(p.content_type, Some("text/plain".to_string()));
    assert_eq!(p.content, b"binary\x00data".to_vec());
    assert_eq!(mp.next_part(), Ok(None));
}

#[test]
fn three_parts_in_order() {
    let body = "--B\r\nContent-Disposition: form-data; name=\"x\"\r\n\r\n1\r\n--B\r\nContent-Disposition: form-data; name=\"y\"\r\n\r\n2\r\n--B\r\nContent-Disposition: form-data; name=\"z\"\r\n\r\n3\r\n--B--\r\n";
    let mut mp = decoder(body, "B");
    let names: Vec<String> = std::iter::from_fn(|| mp.next_part().unwrap())
        .map(|p| p.content_name)
        .collect();
    assert_eq!(names, vec!["x", "y", "z"]);
    assert_eq!(mp.next_part(), Ok(None));
}

#[test]
fn zero_parts_body() {
    let mut mp = decoder("--XYZ--\r\n", "XYZ");
    assert_eq!(mp.next_part(), Ok(None));
    assert_eq!(mp.next_part(), Ok(None));
}

#[test]
fn round_trip_with_boundary_like_content() {
    // content containing the substring "--XYZ" (not followed by CRLF or
    // "--") must come back byte for byte
    let tricky = "see --XYZ here and ---XYZ- there";
    let body = format!(
        "--XYZ\r\nContent-Disposition: form-data; name=\"t\"\r\n\r\n{}\r\n--XYZ--\r\n",
        tricky
    );
    let mut mp = decoder(&body, "XYZ");
    let p = mp.next_part().unwrap().unwrap();
    assert_eq!(p.content, tricky.as_bytes().to_vec());
    assert_eq!(mp.next_part(), Ok(None));
}

#[test]
fn stray_dash_before_boundary() {
    // a lone '-' immediately before the genuine boundary stays in the body
    let body = "--XYZ\r\nContent-Disposition: form-data; name=\"d\"\r\n\r\nabc-\r\n--XYZ--\r\n";
    let mut mp = decoder(body, "XYZ");
    let p = mp.next_part().unwrap().unwrap();
    assert_eq!(p.content, b"abc-".to_vec());
    assert_eq!(mp.next_part(), Ok(None));
}

#[test]
fn partial_boundary_match_resynchronises() {
    // "--X" matches two boundary bytes then diverges; the following
    // characters still contain the genuine boundary
    let body = "--XY\r\nContent-Disposition: form-data; name=\"r\"\r\n\r\n--X--XY extra\r\n--XY--\r\n";
    let mut mp = decoder(body, "XY");
    let p = mp.next_part().unwrap().unwrap();
    assert_eq!(p.content, b"--X--XY extra".to_vec());
    assert_eq!(mp.next_part(), Ok(None));
}

#[test]
fn terminal_flag_stops_iteration() {
    // bytes after the terminal boundary are never looked at
    let body = "--B\r\nContent-Disposition: form-data; name=\"a\"\r\n\r\nv\r\n--B--\r\ntrailing junk";
    let mut mp = decoder(body, "B");
    let p = mp.next_part().unwrap().unwrap();
    assert_eq!(p.content_name, "a");
    assert_eq!(mp.next_part(), Ok(None));
    assert_eq!(mp.next_part(), Ok(None));
}

#[test]
fn malformed_disposition_line() {
    // the disposition line lacks name= entirely
    let body = "--B\r\nContent-Disposition: form-data\r\n\r\nv\r\n--B--\r\n";
    let mut mp = decoder(body, "B");
    assert_eq!(mp.next_part(), Err(MPartError::MalformedHeaderLine));
}

#[test]
fn missing_leading_boundary() {
    let mut mp = decoder("nonsense without boundary", "B");
    assert_eq!(mp.next_part(), Err(MPartError::NoBoundarySupplied));
}

#[test]
fn empty_boundary_is_refused() {
    let mut mp = decoder("--B\r\n", "");
    assert_eq!(mp.next_part(), Err(MPartError::NoBoundarySupplied));
}

#[test]
fn truncated_stream_in_headers() {
    let mut mp = decoder("--B\r\nContent-Dispo", "B");
    assert_eq!(mp.next_part(), Err(MPartError::UnexpectedEndOfStream));
}

#[test]
fn stream_ends_mid_content() {
    let body = "--B\r\nContent-Disposition: form-data; name=\"a\"\r\n\r\nno end";
    let mut mp = decoder(body, "B");
    assert_eq!(mp.next_part(), Err(MPartError::MissingTerminalMarker));
}

#[test]
fn terminal_marker_without_crlf() {
    let body = "--B\r\nContent-Disposition: form-data; name=\"a\"\r\n\r\nv\r\n--B--xx";
    let mut mp = decoder(body, "B");
    assert_eq!(mp.next_part(), Err(MPartError::MissingTerminalMarker));
}

#[test]
fn bare_cr_in_header_is_malformed() {
    let body = "--B\r\nContent-Disposition: form-data; name=\"a\"\rX\r\n\r\nv\r\n--B--\r\n";
    let mut mp = decoder(body, "B");
    assert_eq!(mp.next_part(), Err(MPartError::MalformedHeaderLine));
}

#[test]
fn empty_field_name_and_empty_body() {
    let body = "--B\r\nContent-Disposition: form-data; name=\"\"\r\n\r\n\r\n--B--\r\n";
    let mut mp = decoder(body, "B");
    let p = mp.next_part().unwrap().unwrap();
    assert_eq!(p.content_name, "");
    assert_eq!(p.content, Vec::<u8>::new());
    assert_eq!(p.content_size, 0);
}

#[test]
fn consumed_counts_bytes() {
    let body = "--XYZ--\r\n";
    let mut mp = decoder(body, "XYZ");
    assert_eq!(mp.consumed(), 0);
    assert_eq!(mp.next_part(), Ok(None));
    assert_eq!(mp.consumed(), body.len());
}

#[test]
fn extract_boundary_from_content_type() {
    let b = extract_boundary("multipart/form-data; boundary=XYZ").unwrap();
    assert_eq!(b, b"XYZ".to_vec());
    assert_eq!(
        extract_boundary("text/plain"),
        Err(MPartError::NoBoundarySupplied)
    );
}

#[test]
fn check_consumed_reports_mismatch() {
    assert_eq!(check_consumed(10, 10), Ok(()));
    assert_eq!(check_consumed(10, 7), Err(MPartError::SizeMismatch));
}

#[test]
fn part_text_content_variants() {
    let utf8_part = Part {
        content_type: None,
        content_name: "a".to_string(),
        content_size: 2,
        content_filename: None,
        content: "hé".as_bytes().to_vec(),
    };
    assert_eq!(part_text_content(&utf8_part), Some("hé".to_string()));

    let bad_utf8 = Part {
        content_type: None,
        content_name: "a".to_string(),
        content_size: 1,
        content_filename: None,
        content: vec![0xff],
    };
    assert_eq!(part_text_content(&bad_utf8), None);

    let latin = Part {
        content_type: Some("text/plain".to_string()),
        content_name: "a".to_string(),
        content_size: 1,
        content_filename: None,
        content: vec![0xe9],
    };
    assert_eq!(part_text_content(&latin), Some("é".to_string()));

    let binary = Part {
        content_type: Some("application/octet-stream".to_string()),
        content_name: "a".to_string(),
        content_size: 1,
        content_filename: None,
        content: vec![1],
    };
    assert_eq!(part_text_content(&binary), None);
}

#[test]
fn content_type_value_kept_verbatim() {
    // a charset suffix is left unparsed
    let body = "--B\r\nContent-Disposition: form-data; name=\"a\"\r\nContent-Type: text/html; charset=utf-8\r\n\r\nv\r\n--B--\r\n";
    let mut mp = decoder(body, "B");
    let p = mp.next_part().unwrap().unwrap();
    assert_eq!(p.content_type, Some("text/html; charset=utf-8".to_string()));
}

#[test]
fn decode_error_is_fatal_for_the_session() {
    // a malformed disposition kills the session: later calls yield no
    // parts even though well-formed segments follow in the stream
    let body = "--B\r\nContent-Disposition: form-data\r\n\r\nv\r\n--B\r\nContent-Disposition: form-data; name=\"ok\"\r\n\r\nw\r\n--B--\r\n";
    let mut mp = decoder(body, "B");
    assert_eq!(mp.next_part(), Err(MPartError::MalformedHeaderLine));
    assert_eq!(mp.next_part(), Ok(None));
    assert_eq!(mp.next_part(), Ok(None));
}

#[test]
fn first_boundary_error_is_fatal_too() {
    let mut mp = decoder("junk--B\r\n", "B");
    assert_eq!(mp.next_part(), Err(MPartError::NoBoundarySupplied));
    assert_eq!(mp.next_part(), Ok(None));
}
