//! The calls that leave this crate. Verus does not look into `nom` or into the
//! parts of `std` used here: it believes the contract written on each function
//! of this file, and everything else is proved from them.

use crate::number::{be16, be32, le16, le32, signed32};
use crate::terminator::position_of;
use std::borrow::Cow;
use vstd::prelude::*;
use vstd::utf8::{decode_utf8, valid_utf8};

verus! {

/// `nom::Err`, the failure of a `nom` parser. Nothing is read from it: a
/// failure of `nom` is turned into a [`crate::ParseError`] by the caller.
#[verifier::external_type_specification]
#[verifier::external_body]
#[verifier::reject_recursive_types(E)]
pub struct ExNomErr<E>(nom::Err<E>);

/// What the `nom` parsers called here return. They are asked for the unit
/// error, the smallest that `nom` offers.
pub(crate) type NomResult<'a, T> = Result<(&'a [u8], T), nom::Err<()>>;

/// `nom::number::complete::le_u16`: fails on fewer than two bytes, otherwise
/// returns the input after them and the number they hold, low byte first.
#[verifier::external_body]
pub(crate) fn nom_le_u16<'a>(i: &'a [u8]) -> (r: NomResult<'a, u16>)
    ensures
        r is Ok <==> i@.len() >= 2,
        r is Ok ==> r->Ok_0.0@ == i@.skip(2) && r->Ok_0.1 as int == le16(i@),
{
    nom::number::complete::le_u16(i)
}

/// `nom::number::complete::be_u16`: fails on fewer than two bytes, otherwise
/// returns the input after them and the number they hold, high byte first.
#[verifier::external_body]
pub(crate) fn nom_be_u16<'a>(i: &'a [u8]) -> (r: NomResult<'a, u16>)
    ensures
        r is Ok <==> i@.len() >= 2,
        r is Ok ==> r->Ok_0.0@ == i@.skip(2) && r->Ok_0.1 as int == be16(i@),
{
    nom::number::complete::be_u16(i)
}

/// `nom::number::complete::le_u32`: fails on fewer than four bytes, otherwise
/// returns the input after them and the number they hold, low byte first.
#[verifier::external_body]
pub(crate) fn nom_le_u32<'a>(i: &'a [u8]) -> (r: NomResult<'a, u32>)
    ensures
        r is Ok <==> i@.len() >= 4,
        r is Ok ==> r->Ok_0.0@ == i@.skip(4) && r->Ok_0.1 as int == le32(i@),
{
    nom::number::complete::le_u32(i)
}

/// `nom::number::complete::be_u32`: fails on fewer than four bytes, otherwise
/// returns the input after them and the number they hold, high byte first.
#[verifier::external_body]
pub(crate) fn nom_be_u32<'a>(i: &'a [u8]) -> (r: NomResult<'a, u32>)
    ensures
        r is Ok <==> i@.len() >= 4,
        r is Ok ==> r->Ok_0.0@ == i@.skip(4) && r->Ok_0.1 as int == be32(i@),
{
    nom::number::complete::be_u32(i)
}

/// `nom::number::complete::le_i32`: as `le_u32`, the number read as two's
/// complement.
#[verifier::external_body]
pub(crate) fn nom_le_i32<'a>(i: &'a [u8]) -> (r: NomResult<'a, i32>)
    ensures
        r is Ok <==> i@.len() >= 4,
        r is Ok ==> r->Ok_0.0@ == i@.skip(4) && r->Ok_0.1 as int == signed32(le32(i@)),
{
    nom::number::complete::le_i32(i)
}

/// `nom::number::complete::be_i32`: as `be_u32`, the number read as two's
/// complement.
#[verifier::external_body]
pub(crate) fn nom_be_i32<'a>(i: &'a [u8]) -> (r: NomResult<'a, i32>)
    ensures
        r is Ok <==> i@.len() >= 4,
        r is Ok ==> r->Ok_0.0@ == i@.skip(4) && r->Ok_0.1 as int == signed32(be32(i@)),
{
    nom::number::complete::be_i32(i)
}

/// `nom::bytes::complete::take`: fails where the input has fewer than `n`
/// bytes, otherwise returns the input after its first `n` bytes, and those
/// bytes.
#[verifier::external_body]
pub(crate) fn nom_take<'a>(n: usize, i: &'a [u8]) -> (r: NomResult<'a, &'a [u8]>)
    ensures
        r is Ok <==> n <= i@.len(),
        r is Ok ==> r->Ok_0.0@ == i@.skip(n as int) && r->Ok_0.1@ == i@.take(n as int),
{
    nom::bytes::complete::take(n)(i)
}

/// `nom::bytes::complete::take_until` with the one-byte pattern `byte`: fails
/// where `byte` does not occur in the input, otherwise returns the input from
/// its first occurrence on, and the bytes before it.
#[verifier::external_body]
pub(crate) fn nom_take_until<'a>(byte: u8, i: &'a [u8]) -> (r: NomResult<'a, &'a [u8]>)
    ensures
        r is Ok <==> position_of(i@, byte) < i@.len(),
        r is Ok ==> r->Ok_0.0@ == i@.skip(position_of(i@, byte)) && r->Ok_0.1@ == i@.take(
            position_of(i@, byte),
        ),
{
    let pattern = [byte];
    let found = nom::bytes::complete::take_until(&pattern[..])(i);
    found
}

/// The text that `String::from_utf8_lossy` makes of `bytes`.
pub uninterp spec fn lossy_text(bytes: Seq<u8>) -> Seq<char>;

/// `String::from_utf8_lossy`: the text that `bytes` holds, each malformed
/// sequence replaced by U+FFFD. Well-formed UTF-8 is borrowed and decodes to
/// the text it encodes; anything else comes back as an owned copy.
#[verifier::external_body]
pub(crate) fn from_utf8_lossy<'a>(bytes: &'a [u8]) -> (text: Cow<'a, str>)
    ensures
        text@ == lossy_text(bytes@),
        valid_utf8(bytes@) ==> text@ == decode_utf8(bytes@),
        text is Borrowed <==> valid_utf8(bytes@),
{
    String::from_utf8_lossy(bytes)
}

} // verus!
