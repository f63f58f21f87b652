use push_port::frame::{
    find_header_end, get_content_length, parse_body, parse_fixed_length_body,
    parse_null_terminated_body, parse_stomp_frame,
};

#[test]
fn header_end_found_at_first_blank_line() {
    assert_eq!(find_header_end(b"MESSAGE\n\nbody\n\n"), Some((7, 9)));
    assert_eq!(find_header_end(b"\n\n"), Some((0, 2)));
}

#[test]
fn header_end_absent() {
    assert_eq!(find_header_end(b""), None);
    assert_eq!(find_header_end(b"MESSAGE\ncontent-length:5\n"), None);
}

#[test]
fn content_length_read_from_header_line() {
    assert_eq!(get_content_length("MESSAGE\ncontent-length:5"), Some(5));
    assert_eq!(get_content_length("content-length: 42 \ndestination:/topic/x"), Some(42));
    assert_eq!(get_content_length("content-length:+7"), Some(7));
    assert_eq!(get_content_length("content-length:0\r"), Some(0));
}

#[test]
fn content_length_first_parsable_line_wins() {
    assert_eq!(get_content_length("content-length:abc\ncontent-length:3\ncontent-length:9"), Some(3));
    assert_eq!(get_content_length("content-length:12\ncontent-length:3"), Some(12));
}

#[test]
fn content_length_absent_or_malformed() {
    assert_eq!(get_content_length(""), None);
    assert_eq!(get_content_length("MESSAGE\ndestination:/topic/x"), None);
    assert_eq!(get_content_length("Content-Length:5"), None);
    assert_eq!(get_content_length(" content-length:5"), None);
    assert_eq!(get_content_length("content-length:"), None);
    assert_eq!(get_content_length("content-length:-1"), None);
    assert_eq!(get_content_length("content-length:+"), None);
    assert_eq!(get_content_length("content-length:1 2"), None);
    assert_eq!(get_content_length("content-length:99999999999999999999999"), None);
}

#[test]
fn content_length_wins_over_inner_sentinel() {
    let data = b"MESSAGE\ncontent-length:5\n\nhe\0lo\0rest";
    let (consumed, frame) = parse_stomp_frame(data).unwrap();
    assert_eq!(frame.body, b"he\0lo".to_vec());
    assert_eq!(frame.headers, "MESSAGE\ncontent-length:5");
    assert_eq!(consumed, 32);
}

#[test]
fn no_content_length_ends_at_first_sentinel() {
    let data = b"MESSAGE\n\nabc\0def\0";
    let (consumed, frame) = parse_stomp_frame(data).unwrap();
    assert_eq!(frame.body, b"abc".to_vec());
    assert_eq!(frame.headers, "MESSAGE");
    assert_eq!(consumed, 13);
}

#[test]
fn zero_content_length_gives_empty_body() {
    let data = b"MESSAGE\ncontent-length:0\n\n\0";
    let (consumed, frame) = parse_stomp_frame(data).unwrap();
    assert!(frame.body.is_empty());
    assert_eq!(consumed, data.len());
}

#[test]
fn empty_header_block_is_valid() {
    let (consumed, frame) = parse_stomp_frame(b"\n\nx\0").unwrap();
    assert_eq!(frame.headers, "");
    assert_eq!(frame.body, b"x".to_vec());
    assert_eq!(consumed, 4);
}

#[test]
fn partial_frames_are_incomplete() {
    assert!(parse_stomp_frame(b"MESSAGE\ncontent-len").is_none());
    assert!(parse_stomp_frame(b"MESSAGE\ncontent-length:5\n\nhell").is_none());
    assert!(parse_stomp_frame(b"MESSAGE\ncontent-length:5\n\nhello").is_none());
    assert!(parse_stomp_frame(b"MESSAGE\n\nno terminator yet").is_none());
}

#[test]
fn huge_content_length_is_incomplete() {
    let data = b"MESSAGE\ncontent-length:18446744073709551615\n\nabc\0";
    assert!(parse_stomp_frame(data).is_none());
}

#[test]
fn invalid_header_bytes_decode_lossily() {
    let (_, frame) = parse_stomp_frame(b"A\xffB\n\nx\0").unwrap();
    assert_eq!(frame.headers, "A\u{FFFD}B");
}

#[test]
fn body_parsers_take_exact_bytes() {
    let data = b"H\n\nabc\0def";
    let (n, f) = parse_fixed_length_body(data, 3, 3, "H").unwrap();
    assert_eq!((n, f.body, f.headers), (7, b"abc".to_vec(), "H".to_string()));
    assert!(parse_fixed_length_body(data, 3, 7, "H").is_none());
    let (n, f) = parse_null_terminated_body(data, 3, "H").unwrap();
    assert_eq!((n, f.body), (7, b"abc".to_vec()));
    assert!(parse_null_terminated_body(data, 7, "H").is_none());
    let (n, f) = parse_body(data, 3, "content-length:2").unwrap();
    assert_eq!((n, f.body), (6, b"ab".to_vec()));
}
