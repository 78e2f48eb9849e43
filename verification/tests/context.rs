use offset_parsers::{
    string, u16, Endianness, ErrorKind, IResult, Parse, ParseContext, ParseEndian, ParseError,
    ParsingContext, many_until, offset_then, u32,
};

fn invalid(input: &[u8]) -> ParseError<'_> {
    ParseError { kind: ErrorKind::InvalidOffset, input }
}

fn insufficient(input: &[u8]) -> ParseError<'_> {
    ParseError { kind: ErrorKind::InsufficientInput, input }
}

#[test]
fn a_context_keeps_what_it_was_made_of() {
    let buf = [1u8, 2, 3];
    let ctx = ParsingContext::new(&buf[..], Endianness::Big);
    assert_eq!(ctx.global(), &buf[..]);
    assert_eq!(ctx.endian(), Endianness::Big);
}

#[test]
fn read_at_returns_what_the_parser_returns() {
    let buf = b"ab\0cd\0";
    let ctx = ParsingContext::new(&buf[..], Endianness::Little);
    let (rest, text) = ctx.read_at(3, string).unwrap();
    assert_eq!(text, "cd");
    assert!(rest.is_empty());
    let (rest, text) = ctx.read_at(0, string).unwrap();
    assert_eq!(text, "ab");
    assert_eq!(rest, &buf[3..]);
}

#[test]
fn read_at_past_the_end_fails() {
    let buf = b"ab\0";
    let ctx = ParsingContext::new(&buf[..], Endianness::Little);
    assert_eq!(ctx.read_at(4, string), Err(invalid(&buf[..])));
    assert_eq!(ctx.read_at(3, string), Err(insufficient(&buf[3..])));
}

#[test]
fn read_then_follows_an_offset_in_the_byte_order_of_the_context() {
    let buf = b"\0\0\0\x05\0text\0";
    let big = ParsingContext::new(&buf[..], Endianness::Big);
    let (rest, text) = big.read_then(string)(&buf[..]).unwrap();
    assert_eq!(text, "text");
    assert_eq!(rest, &buf[4..]);
    let little = ParsingContext::new(&buf[..], Endianness::Little);
    assert_eq!(little.read_then(string)(&buf[..]), Err(invalid(&buf[..])));
}

#[test]
fn read_then_needs_the_four_bytes_of_the_offset() {
    let buf = b"text\0";
    let cursor = [0u8, 0];
    let ctx = ParsingContext::new(&buf[..], Endianness::Big);
    assert_eq!(ctx.read_then(string)(&cursor[..]), Err(insufficient(&cursor[..])));
}

#[test]
fn read_offset_then_takes_the_width_of_its_reader() {
    let buf = b"\x03\0\0name\0";
    let ctx = ParsingContext::new(&buf[..], Endianness::Big);
    let (rest, text) = ctx.read_offset_then(u16(Endianness::Little), string)(&buf[..]).unwrap();
    assert_eq!(text, "name");
    assert_eq!(rest, &buf[2..]);
}

#[test]
fn read_offset_then_past_the_end_fails() {
    let buf = b"\0\x09name\0";
    let ctx = ParsingContext::new(&buf[..], Endianness::Big);
    assert_eq!(
        ctx.read_offset_then(u16(Endianness::Big), string)(&buf[..]),
        Err(invalid(&buf[..]))
    );
}

#[derive(Debug, PartialEq)]
struct Pair {
    left: u16,
    right: u16,
}

impl ParseEndian for Pair {
    fn parse<'a>(i: &'a [u8], endian: Endianness) -> IResult<'a, Self> {
        let (i, left) = u16(endian)(i)?;
        let (i, right) = u16(endian)(i)?;
        Ok((i, Pair { left, right }))
    }
}

#[derive(Debug, PartialEq)]
struct Magic;

impl Parse for Magic {
    fn parse<'a>(i: &'a [u8]) -> IResult<'a, Self> {
        match i.strip_prefix(b"MG") {
            Some(rest) => Ok((rest, Magic)),
            None => Err(insufficient(i)),
        }
    }
}

#[derive(Debug, PartialEq)]
struct Named {
    name: String,
    values: Vec<u32>,
}

impl ParseContext for Named {
    type Context = Vec<u8>;

    fn parse<'a>(i: &'a [u8], ctx: Vec<u8>, endian: Endianness) -> IResult<'a, Self> {
        let base: &'a [u8] = i;
        let (i, name) = offset_then(base, string, endian)(i)?;
        let (i, values) = many_until(u32(endian), ctx.len() as u32)(i)?;
        Ok((i, Named { name: name.into_owned(), values }))
    }
}

#[test]
fn a_record_is_parsed_from_the_input_alone() {
    let buf = b"MGrest";
    assert_eq!(Magic::parse(&buf[..]), Ok((&buf[2..], Magic)));
    assert_eq!(Magic::parse(&buf[1..]), Err(insufficient(&buf[1..])));
}

#[test]
fn a_record_is_parsed_in_a_byte_order() {
    let buf = [0u8, 1, 2, 0, 9];
    assert_eq!(
        Pair::parse(&buf[..], Endianness::Big),
        Ok((&buf[4..], Pair { left: 1, right: 0x0200 }))
    );
    assert_eq!(
        Pair::parse(&buf[..], Endianness::Little),
        Ok((&buf[4..], Pair { left: 0x0100, right: 2 }))
    );
}

#[test]
fn a_record_is_parsed_with_a_context() {
    let buf = b"\x0c\0\0\0\x07\0\0\0\x02\0\0\0name\0";
    let parsed = Named::parse(&buf[..], vec![0, 0], Endianness::Little);
    assert_eq!(
        parsed,
        Ok((&buf[12..], Named { name: String::from("name"), values: vec![7] }))
    );
}

#[test]
fn a_record_serves_as_the_parser_of_a_combinator() {
    let buf = b"\0\0\0\x06..MG";
    let ctx = ParsingContext::new(&buf[..], Endianness::Big);
    assert_eq!(ctx.read_then(Magic::parse)(&buf[..]), Ok((&buf[4..], Magic)));
}
