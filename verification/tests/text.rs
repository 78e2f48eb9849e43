use offset_parsers::{
    offset_read_string, offset_string, string, u16, Endianness, ErrorKind, ParseError,
};
use std::borrow::Cow;

fn insufficient(input: &[u8]) -> ParseError<'_> {
    ParseError { kind: ErrorKind::InsufficientInput, input }
}

#[test]
fn string_stops_at_the_first_nul() {
    let buf = b"hello\0world\0";
    let (rest, text) = string(&buf[..]).unwrap();
    assert_eq!(text, "hello");
    assert_eq!(rest, &buf[6..]);
}

#[test]
fn string_round_trips_valid_text() {
    let written = "gr\u{fc}\u{df} dich, \u{4e16}\u{754c} \u{1f600}";
    let mut bytes = written.as_bytes().to_vec();
    bytes.push(0);
    bytes.extend_from_slice(b"after");
    let (rest, text) = string(&bytes[..]).unwrap();
    assert_eq!(text, written);
    assert_eq!(rest, b"after");
    assert_eq!(rest.len(), bytes.len() - written.len() - 1);
}

#[test]
fn string_borrows_valid_text() {
    let buf = b"plain\0";
    let (_, text) = string(&buf[..]).unwrap();
    assert!(matches!(text, Cow::Borrowed("plain")));
}

#[test]
fn string_may_be_empty() {
    let buf = b"\0rest";
    let (rest, text) = string(&buf[..]).unwrap();
    assert_eq!(text, "");
    assert_eq!(rest, b"rest");
    let only = b"\0";
    let (rest, text) = string(&only[..]).unwrap();
    assert_eq!(text, "");
    assert!(rest.is_empty());
}

#[test]
fn string_substitutes_for_malformed_bytes() {
    let buf = b"a\xffb\xc3\0tail";
    let (rest, text) = string(&buf[..]).unwrap();
    assert_eq!(text, "a\u{fffd}b\u{fffd}");
    assert!(matches!(text, Cow::Owned(_)));
    assert_eq!(rest, b"tail");
}

#[test]
fn string_without_a_nul_fails() {
    let buf = b"no end";
    assert_eq!(string(&buf[..]), Err(insufficient(&buf[..])));
    let malformed = b"\xff\xfe";
    assert_eq!(string(&malformed[..]), Err(insufficient(&malformed[..])));
}

#[test]
fn string_on_the_empty_input_fails() {
    let buf: [u8; 0] = [];
    assert_eq!(string(&buf[..]), Err(insufficient(&buf[..])));
}

#[test]
fn offset_string_reads_text_anywhere_in_the_buffer() {
    let buf = b"\x0c\x00\x00\x00\x08\x00\x00\x00one\0two\0";
    let parser = offset_string(&buf[..], Endianness::Little);
    let (rest, first) = parser(&buf[..]).unwrap();
    assert_eq!(first, "two");
    assert_eq!(rest, &buf[4..]);
    let (rest, second) = parser(rest).unwrap();
    assert_eq!(second, "one");
    assert_eq!(rest, &buf[8..]);
}

#[test]
fn offset_string_at_the_end_finds_no_text() {
    let buf = b"\x09\x00\x00\x00text\0";
    assert_eq!(
        offset_string(&buf[..], Endianness::Little)(&buf[..]),
        Err(insufficient(&buf[9..]))
    );
}

#[test]
fn offset_string_past_the_end_fails() {
    let buf = b"\x0a\x00\x00\x00text\0";
    assert_eq!(
        offset_string(&buf[..], Endianness::Little)(&buf[..]),
        Err(ParseError { kind: ErrorKind::InvalidOffset, input: &buf[..] })
    );
    assert_eq!(
        offset_string(&buf[..], Endianness::Big)(&buf[..]),
        Err(ParseError { kind: ErrorKind::InvalidOffset, input: &buf[..] })
    );
}

#[test]
fn offset_string_without_a_nul_at_the_offset_fails() {
    let buf = b"\x00\x00\x00\x06\0\0text";
    assert_eq!(
        offset_string(&buf[..], Endianness::Big)(&buf[..]),
        Err(insufficient(&buf[6..]))
    );
}

#[test]
fn offset_read_string_takes_the_width_of_its_reader() {
    let buf = b"\x00\x03\0name\0";
    let (rest, text) = offset_read_string(&buf[..], u16(Endianness::Big))(&buf[..]).unwrap();
    assert_eq!(text, "name");
    assert_eq!(rest, &buf[2..]);
}

#[test]
fn offset_read_string_hands_on_the_failure_of_its_reader() {
    let buf = b"x";
    assert_eq!(
        offset_read_string(&buf[..], u16(Endianness::Big))(&buf[..]),
        Err(insufficient(&buf[..]))
    );
}
