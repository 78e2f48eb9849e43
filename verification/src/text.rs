//! Text that ends at a NUL byte.

use crate::error::{ErrorKind, ParseError};
use crate::number::Endianness;
use crate::offset::{
    lemma_offset_read_then_monotone, lemma_offset_then_monotone, offset_read_then,
    offset_read_then_spec, offset_then, offset_then_spec,
};
use crate::parser::{lemma_refines_weaken, outcomes, refines, total, IResult, Outcomes};
use crate::terminator::{
    lemma_encode_utf8_no_nul, lemma_position_of, lemma_position_of_first, position_of,
};
use crate::trusted::{from_utf8_lossy, lossy_text, nom_take_until};
use std::borrow::Cow;
use vstd::prelude::*;
use vstd::slice::slice_subrange;
use vstd::utf8::{decode_utf8, encode_utf8, valid_utf8};

verus! {

/// The text that `bytes` hold: where they are well-formed UTF-8, the text they
/// encode; otherwise that text with a substitute for each malformed sequence.
pub open spec fn text_of(bytes: Seq<u8>) -> Seq<char> {
    if valid_utf8(bytes) {
        decode_utf8(bytes)
    } else {
        lossy_text(bytes)
    }
}

/// What [`string`] parses. Where the input holds no NUL byte it fails with
/// `InsufficientInput` at the input. Otherwise it gives the text of the bytes
/// before the first NUL, borrowed exactly where they are well-formed UTF-8, and
/// leaves the input after that NUL.
pub open spec fn string_spec<'a>() -> Outcomes<'a, Cow<'a, str>> {
    |i: &'a [u8], r: IResult<'a, Cow<'a, str>>|
        {
            let n = position_of(i@, 0u8);
            match r {
                Ok((rest, text)) => {
                    &&& n < i@.len()
                    &&& rest@ == i@.skip(n + 1)
                    &&& text@ == text_of(i@.take(n))
                    &&& text is Borrowed <==> valid_utf8(i@.take(n))
                },
                Err(e) => n == i@.len() && e == (ParseError {
                    kind: ErrorKind::InsufficientInput,
                    input: i,
                }),
            }
        }
}

/// What [`offset_read_string`] makes of an offset reader with outcomes `pr`.
pub open spec fn offset_read_string_spec<'a, U: TryInto<usize>>(
    i0: &'a [u8],
    pr: Outcomes<'a, U>,
) -> Outcomes<'a, Cow<'a, str>> {
    offset_read_then_spec(i0, pr, string_spec())
}

/// What [`offset_string`] parses.
pub open spec fn offset_string_spec<'a>(i0: &'a [u8], endian: Endianness) -> Outcomes<
    'a,
    Cow<'a, str>,
> {
    offset_then_spec(i0, string_spec(), endian)
}

/// Bytes without a NUL, then a NUL, then anything: `string` succeeds,
/// whether or not the bytes are well-formed UTF-8. It gives the text of the
/// bytes before the NUL and leaves what follows the NUL.
pub proof fn lemma_string_terminated<'a>(
    bytes: Seq<u8>,
    tail: Seq<u8>,
    i: &'a [u8],
    r: IResult<'a, Cow<'a, str>>,
)
    requires
        forall|k: int| 0 <= k < bytes.len() ==> bytes[k] != 0u8,
        i@ == bytes + seq![0u8] + tail,
        string_spec()(i, r),
    ensures
        r is Ok,
        r->Ok_0.0@ == tail,
        r->Ok_0.1@ == text_of(bytes),
        r->Ok_0.1 is Borrowed <==> valid_utf8(bytes),
{
    let n = bytes.len() as int;
    lemma_position_of_first(i@, 0u8, n);
    assert(i@.take(n) =~= bytes);
}

/// Text without a NUL character, encoded as UTF-8 and followed by a NUL byte,
/// is read back as it was: `string` gives that text, borrowed, and leaves
/// what follows the NUL.
pub proof fn lemma_string_round_trip<'a>(
    text: Seq<char>,
    tail: Seq<u8>,
    i: &'a [u8],
    r: IResult<'a, Cow<'a, str>>,
)
    requires
        forall|k: int| 0 <= k < text.len() ==> text[k] != '\0',
        i@ == encode_utf8(text) + seq![0u8] + tail,
        string_spec()(i, r),
    ensures
        r is Ok,
        r->Ok_0.0@ == tail,
        r->Ok_0.1@ == text,
        r->Ok_0.1 is Borrowed,
{
    lemma_encode_utf8_no_nul(text);
    vstd::utf8::encode_utf8_valid_utf8(text);
    vstd::utf8::encode_utf8_decode_utf8(text);
    lemma_string_terminated(encode_utf8(text), tail, i, r);
}

/// The parser of text that ends at a NUL byte. It gives the text before the
/// first NUL of its input and leaves the input after that NUL. Bytes that are
/// not well-formed UTF-8 are no failure: the text then holds a substitute for
/// each malformed sequence, in an owned copy. Only an input without a NUL
/// fails.
pub fn string<'a>(i: &'a [u8]) -> (r: IResult<'a, Cow<'a, str>>)
    ensures
        string_spec()(i, r),
{
    proof {
        lemma_position_of(i@, 0u8);
    }
    match nom_take_until(0u8, i) {
        Ok((rest, bytes)) => {
            let text = from_utf8_lossy(bytes);
            let after = slice_subrange(rest, 1, rest.len());
            assert(after@ == i@.skip(position_of(i@, 0u8) + 1));
            Ok((after, text))
        },
        Err(_) => Err(ParseError { kind: ErrorKind::InsufficientInput, input: i }),
    }
}

/// [`offset_read_then`] with [`string`] for the parser: text that an offset,
/// read with `f`, points at.
pub fn offset_read_string<'a, F, U>(i0: &'a [u8], f: F) -> (g: impl Fn(&'a [u8]) -> IResult<
    'a,
    Cow<'a, str>,
>) where F: Fn(&'a [u8]) -> IResult<'a, U>, U: TryInto<usize>
    requires
        total(f),
    ensures
        refines(g, offset_read_string_spec(i0, outcomes(f))),
{
    let g = offset_read_then(i0, f, string);
    proof {
        lemma_offset_read_then_monotone(
            i0,
            outcomes(f),
            outcomes(f),
            outcomes(string),
            string_spec(),
        );
        lemma_refines_weaken(
            g,
            offset_read_then_spec(i0, outcomes(f), outcomes(string)),
            offset_read_string_spec(i0, outcomes(f)),
        );
    }
    g
}

/// [`offset_then`] with [`string`] for the parser: text that an unsigned
/// 32-bit offset in the byte order `endian` points at.
pub fn offset_string<'a>(i0: &'a [u8], endian: Endianness) -> (g: impl Fn(&'a [u8]) -> IResult<
    'a,
    Cow<'a, str>,
>)
    ensures
        refines(g, offset_string_spec(i0, endian)),
{
    let g = offset_then(i0, string, endian);
    proof {
        lemma_offset_then_monotone(i0, outcomes(string), string_spec(), endian);
        lemma_refines_weaken(
            g,
            offset_then_spec(i0, outcomes(string), endian),
            offset_string_spec(i0, endian),
        );
    }
    g
}

} // verus!
