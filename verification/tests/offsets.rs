use offset_parsers::{
    at_offset, offset_read_then, offset_then, string, u16, u32, Endianness, ErrorKind, IResult,
    ParseError, i32,
};

fn invalid(input: &[u8]) -> ParseError<'_> {
    ParseError { kind: ErrorKind::InvalidOffset, input }
}

fn insufficient(input: &[u8]) -> ParseError<'_> {
    ParseError { kind: ErrorKind::InsufficientInput, input }
}

/// Succeeds on every input, with how many bytes it holds, and consumes them.
fn length(i: &[u8]) -> IResult<'_, usize> {
    Ok((&i[i.len()..], i.len()))
}

#[test]
fn at_offset_restores_the_input() {
    let buf = b"abc\0def\0";
    let (rest, text) = at_offset(4, string)(&buf[..]).unwrap();
    assert_eq!(rest, &buf[..]);
    assert_eq!(text, "def");
}

#[test]
fn at_offset_zero_parses_the_front() {
    let buf = [0x01u8, 0x02, 0x03];
    assert_eq!(at_offset(0, u16(Endianness::Big))(&buf[..]), Ok((&buf[..], 0x0102)));
}

#[test]
fn at_offset_at_the_end_parses_the_empty_input() {
    let buf = [1u8, 2, 3];
    assert_eq!(at_offset(3, length)(&buf[..]), Ok((&buf[..], 0)));
    assert_eq!(at_offset(3, u16(Endianness::Big))(&buf[..]), Err(insufficient(&buf[3..])));
}

#[test]
fn at_offset_past_the_end_fails() {
    let buf = b"abc\0";
    assert_eq!(at_offset(5, string)(&buf[..]), Err(invalid(&buf[..])));
    assert_eq!(at_offset(usize::MAX, length)(&buf[..]), Err(invalid(&buf[..])));
}

#[test]
fn at_offset_hands_on_the_failure_of_its_parser() {
    let buf = b"abcdef";
    assert_eq!(at_offset(2, string)(&buf[..]), Err(insufficient(&buf[2..])));
}

#[test]
fn at_offset_can_be_nested() {
    let buf = [9u8, 9, 9, 0x12, 0x34];
    assert_eq!(
        at_offset(1, at_offset(2, u16(Endianness::Big)))(&buf[..]),
        Ok((&buf[..], 0x1234))
    );
}

#[test]
fn offset_then_decodes_as_the_parser_does_at_the_offset() {
    let buf = b"\x00\x00\x00\x00name\0tail";
    let cursor = [6u8, 0, 0, 0, 0xaa, 0xbb];
    let direct = string(&buf[6..]).unwrap().1;
    let (rest, text) = offset_then(&buf[..], string, Endianness::Little)(&cursor[..]).unwrap();
    assert_eq!(text, direct);
    assert_eq!(text, "me");
    assert_eq!(rest, &cursor[4..]);
}

#[test]
fn offset_then_reads_the_offset_in_the_byte_order() {
    let buf = [0u8, 0x11, 0x22, 0x33, 0x44];
    let cursor = [0u8, 0, 0, 3];
    assert_eq!(
        offset_then(&buf[..], u16(Endianness::Big), Endianness::Big)(&cursor[..]),
        Ok((&cursor[4..], 0x3344))
    );
    assert_eq!(
        offset_then(&buf[..], u16(Endianness::Big), Endianness::Little)(&cursor[..]),
        Err(invalid(&buf[..]))
    );
}

#[test]
fn offset_then_at_the_end_of_the_buffer_parses_the_empty_input() {
    let buf = [1u8, 2, 3];
    let cursor = [3u8, 0, 0, 0, 7];
    assert_eq!(
        offset_then(&buf[..], length, Endianness::Little)(&cursor[..]),
        Ok((&cursor[4..], 0))
    );
}

#[test]
fn offset_then_past_the_end_of_the_buffer_fails() {
    let buf = [1u8, 2, 3];
    let cursor = [4u8, 0, 0, 0, 7];
    assert_eq!(
        offset_then(&buf[..], length, Endianness::Little)(&cursor[..]),
        Err(invalid(&buf[..]))
    );
    let far = [0xffu8, 0xff, 0xff, 0xff];
    assert_eq!(offset_then(&buf[..], length, Endianness::Big)(&far[..]), Err(invalid(&buf[..])));
}

#[test]
fn offset_then_needs_the_four_bytes_of_the_offset() {
    let buf = [1u8, 2, 3];
    let cursor = [0u8, 0, 0];
    assert_eq!(
        offset_then(&buf[..], length, Endianness::Little)(&cursor[..]),
        Err(insufficient(&cursor[..]))
    );
}

#[test]
fn offset_then_hands_on_the_failure_of_its_parser() {
    let buf = b"no terminator";
    let cursor = [3u8, 0, 0, 0];
    assert_eq!(
        offset_then(&buf[..], string, Endianness::Little)(&cursor[..]),
        Err(insufficient(&buf[3..]))
    );
}

#[test]
fn offset_read_then_takes_the_width_of_its_reader() {
    let buf = [0u8, 0, 0x0a, 0x0b, 0x0c];
    let cursor = [0u8, 2, 0xee];
    assert_eq!(
        offset_read_then(&buf[..], u16(Endianness::Big), u16(Endianness::Little))(&cursor[..]),
        Ok((&cursor[2..], 0x0b0a))
    );
}

#[test]
fn offset_read_then_does_not_depend_on_where_the_cursor_is() {
    let buf = [0u8, 1, 2, 3, 4, 5, 6, 7];
    let elsewhere = [0u8, 6];
    let parser = offset_read_then(&buf[..], u16(Endianness::Big), u16(Endianness::Big));
    assert_eq!(parser(&buf[..]), Ok((&buf[2..], 0x0102)));
    assert_eq!(parser(&buf[2..]), Err(invalid(&buf[..])));
    assert_eq!(parser(&elsewhere[..]), Ok((&elsewhere[2..], 0x0607)));
}

#[test]
fn offset_read_then_refuses_a_negative_offset() {
    let buf = [1u8, 2, 3];
    let cursor = [0xffu8, 0xff, 0xff, 0xff];
    assert_eq!(
        offset_read_then(&buf[..], i32(Endianness::Big), length)(&cursor[..]),
        Err(invalid(&cursor[..]))
    );
}

#[test]
fn offset_read_then_hands_on_the_failure_of_its_reader() {
    let buf = [1u8, 2, 3];
    let cursor = [0u8];
    assert_eq!(
        offset_read_then(&buf[..], u16(Endianness::Big), length)(&cursor[..]),
        Err(insufficient(&cursor[..]))
    );
}

#[test]
fn offset_read_then_agrees_with_offset_then_on_32_bits() {
    let buf = b"\0\0one\0two\0";
    let cursor = [0u8, 0, 0, 6];
    let by_reader = offset_read_then(&buf[..], u32(Endianness::Big), string)(&cursor[..]);
    let fixed = offset_then(&buf[..], string, Endianness::Big)(&cursor[..]);
    assert_eq!(by_reader, fixed);
    assert_eq!(fixed.unwrap().1, "two");
}
