use offset_parsers::{i32, u16, u32, u32_usize, usize, Endianness, ErrorKind, IResult, ParseError};

fn insufficient(input: &[u8]) -> ParseError<'_> {
    ParseError { kind: ErrorKind::InsufficientInput, input }
}

#[test]
fn u16_little_endian_puts_the_low_byte_first() {
    let buf = [0x34u8, 0x12, 0xff];
    assert_eq!(u16(Endianness::Little)(&buf[..]), Ok((&buf[2..], 0x1234)));
}

#[test]
fn u16_big_endian_puts_the_high_byte_first() {
    let buf = [0x34u8, 0x12, 0xff];
    assert_eq!(u16(Endianness::Big)(&buf[..]), Ok((&buf[2..], 0x3412)));
}

#[test]
fn u16_reads_the_largest_value() {
    let buf = [0xffu8, 0xff];
    assert_eq!(u16(Endianness::Little)(&buf[..]), Ok((&buf[2..], 0xffff)));
    assert_eq!(u16(Endianness::Big)(&buf[..]), Ok((&buf[2..], 0xffff)));
}

#[test]
fn u16_needs_two_bytes() {
    let buf = [0x34u8];
    assert_eq!(u16(Endianness::Little)(&buf[..]), Err(insufficient(&buf[..])));
    assert_eq!(u16(Endianness::Big)(&buf[..]), Err(insufficient(&buf[..])));
    assert_eq!(u16(Endianness::Big)(&buf[..0]), Err(insufficient(&buf[..0])));
}

#[test]
fn u32_little_endian_puts_the_low_byte_first() {
    let buf = [0x78u8, 0x56, 0x34, 0x12, 0xaa];
    assert_eq!(u32(Endianness::Little)(&buf[..]), Ok((&buf[4..], 0x1234_5678)));
}

#[test]
fn u32_big_endian_puts_the_high_byte_first() {
    let buf = [0x78u8, 0x56, 0x34, 0x12, 0xaa];
    assert_eq!(u32(Endianness::Big)(&buf[..]), Ok((&buf[4..], 0x7856_3412)));
}

#[test]
fn u32_reads_the_largest_value() {
    let buf = [0xffu8; 4];
    assert_eq!(u32(Endianness::Little)(&buf[..]), Ok((&buf[4..], u32::MAX)));
    assert_eq!(u32(Endianness::Big)(&buf[..]), Ok((&buf[4..], u32::MAX)));
}

#[test]
fn u32_needs_four_bytes() {
    let buf = [1u8, 2, 3];
    assert_eq!(u32(Endianness::Little)(&buf[..]), Err(insufficient(&buf[..])));
    assert_eq!(u32(Endianness::Big)(&buf[..]), Err(insufficient(&buf[..])));
}

#[test]
fn i32_is_two_s_complement() {
    let minus_two = [0xfeu8, 0xff, 0xff, 0xff];
    assert_eq!(i32(Endianness::Little)(&minus_two[..]), Ok((&minus_two[4..], -2)));
    let lowest = [0x80u8, 0, 0, 0];
    assert_eq!(i32(Endianness::Big)(&lowest[..]), Ok((&lowest[4..], i32::MIN)));
    let highest = [0x7fu8, 0xff, 0xff, 0xff];
    assert_eq!(i32(Endianness::Big)(&highest[..]), Ok((&highest[4..], i32::MAX)));
    let small = [0x2au8, 0, 0, 0];
    assert_eq!(i32(Endianness::Little)(&small[..]), Ok((&small[4..], 42)));
    assert_eq!(i32(Endianness::Big)(&small[..]), Ok((&small[4..], 0x2a00_0000)));
}

#[test]
fn i32_needs_four_bytes() {
    let buf = [1u8, 2, 3];
    assert_eq!(i32(Endianness::Little)(&buf[..]), Err(insufficient(&buf[..])));
    assert_eq!(i32(Endianness::Big)(&buf[..]), Err(insufficient(&buf[..])));
}

#[test]
fn usize_narrows_what_was_read() {
    let buf = [0x02u8, 0x01, 9];
    assert_eq!(usize(u16(Endianness::Little))(&buf[..]), Ok((&buf[2..], 0x0102usize)));
    assert_eq!(usize(u16(Endianness::Big))(&buf[..]), Ok((&buf[2..], 0x0201usize)));
}

#[test]
fn usize_refuses_a_negative_number() {
    let buf = [0xffu8, 0xff, 0xff, 0xff, 1];
    assert_eq!(
        usize(i32(Endianness::Little))(&buf[..]),
        Err(ParseError { kind: ErrorKind::InvalidOffset, input: &buf[..] })
    );
}

#[test]
fn usize_accepts_a_number_that_is_not_negative() {
    let buf = [0u8, 0, 1, 0];
    assert_eq!(usize(i32(Endianness::Big))(&buf[..]), Ok((&buf[4..], 256usize)));
}

#[test]
fn usize_hands_on_the_failure_of_its_parser() {
    let buf = [7u8];
    assert_eq!(usize(u16(Endianness::Big))(&buf[..]), Err(insufficient(&buf[..])));
}

#[test]
fn usize_takes_any_parser_of_a_number() {
    fn wide(i: &[u8]) -> IResult<'_, u64> {
        Ok((i, u64::MAX))
    }
    fn tiny(i: &[u8]) -> IResult<'_, i8> {
        Ok((i, 5))
    }
    let buf = [0u8; 2];
    assert_eq!(usize(tiny)(&buf[..]), Ok((&buf[..], 5usize)));
    if (usize::MAX as u128) < (u64::MAX as u128) {
        assert_eq!(
            usize(wide)(&buf[..]),
            Err(ParseError { kind: ErrorKind::InvalidOffset, input: &buf[..] })
        );
    } else {
        assert_eq!(usize(wide)(&buf[..]), Ok((&buf[..], usize::MAX)));
    }
}

#[test]
fn u32_usize_reads_an_index() {
    let buf = [0u8, 0, 0, 9, 1];
    assert_eq!(u32_usize(Endianness::Big)(&buf[..]), Ok((&buf[4..], 9usize)));
    assert_eq!(u32_usize(Endianness::Little)(&buf[..]), Ok((&buf[4..], 0x0900_0000usize)));
    assert_eq!(u32_usize(Endianness::Little)(&buf[..3]), Err(insufficient(&buf[..3])));
}
