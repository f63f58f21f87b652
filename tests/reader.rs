use std::io::Write;

use flate2::write::GzEncoder;
use flate2::Compression;
use push_port::message::{decode_body, select_message};
use push_port::reader::StreamReader;
use push_port::request::{connect_frame, subscribe_frame};

const EXAMPLE: &[u8] = b"MESSAGE\ncontent-length:5\n\nhello\0MESSAGE\n\nworld\0";

fn gzip(text: &str) -> Vec<u8> {
    let mut e = GzEncoder::new(Vec::new(), Compression::default());
    e.write_all(text.as_bytes()).unwrap();
    e.finish().unwrap()
}

fn read_in_chunks(data: &[u8], cuts: &[usize]) -> (Vec<String>, Vec<u8>) {
    let mut reader = StreamReader::new();
    let mut messages = Vec::new();
    let mut start = 0;
    for &cut in cuts.iter().chain(std::iter::once(&data.len())) {
        messages.extend(reader.feed(&data[start..cut]));
        start = cut;
    }
    (messages, reader.pending().to_vec())
}

#[test]
fn example_read_in_one_chunk() {
    let mut reader = StreamReader::new();
    assert_eq!(reader.feed(EXAMPLE), vec!["hello".to_string(), "world".to_string()]);
    assert!(reader.pending().is_empty());
}

#[test]
fn two_frames_in_one_read_leave_nothing() {
    let mut reader = StreamReader::new();
    let msgs = reader.feed(b"MESSAGE\n\nfirst\0MESSAGE\ncontent-length:6\n\nsecond\0");
    assert_eq!(msgs, vec!["first".to_string(), "second".to_string()]);
    assert_eq!(reader.pending(), b"");
}

#[test]
fn split_reads_match_one_read_at_every_cut() {
    let whole = read_in_chunks(EXAMPLE, &[]);
    for cut in 0..=EXAMPLE.len() {
        assert_eq!(read_in_chunks(EXAMPLE, &[cut]), whole);
    }
    for a in 0..=EXAMPLE.len() {
        for b in a..=EXAMPLE.len() {
            assert_eq!(read_in_chunks(EXAMPLE, &[a, b]), whole);
        }
    }
}

#[test]
fn byte_by_byte_reads_match_one_read() {
    let cuts: Vec<usize> = (1..EXAMPLE.len()).collect();
    let trailing = b"MESSAGE\n\npart";
    let mut data = EXAMPLE.to_vec();
    data.extend_from_slice(trailing);
    assert_eq!(read_in_chunks(&data, &cuts), read_in_chunks(&data, &[]));
    assert_eq!(read_in_chunks(&data, &cuts).1, trailing.to_vec());
}

#[test]
fn partial_header_leaves_buffer_untouched() {
    let mut reader = StreamReader::new();
    assert!(reader.feed(b"MESSAGE\ncontent-length:5\n").is_empty());
    assert_eq!(reader.pending(), b"MESSAGE\ncontent-length:5\n");
    assert_eq!(reader.next_message(), None);
    assert_eq!(reader.pending(), b"MESSAGE\ncontent-length:5\n");
}

#[test]
fn zero_length_frame_gives_empty_message() {
    let mut reader = StreamReader::new();
    assert_eq!(reader.feed(b"MESSAGE\ncontent-length:0\n\n\0"), vec![String::new()]);
    assert!(reader.pending().is_empty());
}

#[test]
fn next_message_takes_one_frame_at_a_time() {
    let mut reader = StreamReader::new();
    reader.push_bytes(EXAMPLE);
    assert_eq!(reader.next_message(), Some("hello".to_string()));
    assert_eq!(reader.pending(), b"MESSAGE\n\nworld\0");
    assert_eq!(reader.next_message(), Some("world".to_string()));
    assert_eq!(reader.next_message(), None);
    assert!(reader.pending().is_empty());
}

#[test]
fn sentinel_inside_declared_body_is_kept() {
    let mut reader = StreamReader::new();
    let msgs = reader.feed(b"MESSAGE\ncontent-length:5\n\nab\0cd\0");
    assert_eq!(msgs, vec!["ab\0cd".to_string()]);
}

#[test]
fn gzip_body_is_inflated() {
    let mut data = b"MESSAGE\ncontent-length:".to_vec();
    let body = gzip("<Pport>train</Pport>");
    data.extend_from_slice(body.len().to_string().as_bytes());
    data.extend_from_slice(b"\n\n");
    data.extend_from_slice(&body);
    data.push(0);
    let mut reader = StreamReader::new();
    assert_eq!(reader.feed(&data), vec!["<Pport>train</Pport>".to_string()]);
}

#[test]
fn decode_body_inflates_or_falls_back() {
    assert_eq!(decode_body(&gzip("status")), "status");
    assert_eq!(decode_body(b"plain text"), "plain text");
    assert_eq!(decode_body(b""), "");
    assert_eq!(decode_body(b"bad\xff"), "bad\u{FFFD}");
}

#[test]
fn truncated_gzip_falls_back_to_raw_text() {
    let body = gzip("some longer status text");
    let cut = &body[..body.len() - 4];
    assert_eq!(decode_body(cut), String::from_utf8_lossy(cut).to_string());
}

#[test]
fn select_message_uses_the_inflated_text() {
    assert_eq!(select_message(b"xyz", Some("inflated".to_string())), "inflated");
    assert_eq!(select_message(b"xyz", None), "xyz");
    assert_eq!(select_message(b"", Some("ignored".to_string())), "");
}

#[test]
fn request_frames_have_the_wire_text() {
    assert_eq!(
        connect_frame("example.org", "user", "pw"),
        "CONNECT\naccept-version:1.2\nhost:example.org\nlogin:user\npasscode:pw\n\n\0"
    );
    assert_eq!(
        subscribe_frame("darwin.pushport-v16"),
        "SUBSCRIBE\nid:sub-1\ndestination:/topic/darwin.pushport-v16\nack:auto\n\n\0"
    );
}
