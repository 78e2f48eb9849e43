//! What a record type implements to be parsed: with nothing but the input,
//! with a byte order, or with a byte order and a context of its own.

use crate::number::Endianness;
use crate::parser::IResult;
use vstd::prelude::*;

verus! {

/// A record that is parsed with the help of a value of its own choosing, for
/// shapes that depend on what was parsed before, and of a byte order.
pub trait ParseContext: Sized {
    /// What the record needs besides the input and the byte order.
    type Context;

    fn parse<'a>(i: &'a [u8], ctx: Self::Context, endian: Endianness) -> IResult<'a, Self>;
}

/// A record that is parsed in a byte order that is only known when it is
/// parsed.
pub trait ParseEndian: Sized {
    fn parse<'a>(i: &'a [u8], endian: Endianness) -> IResult<'a, Self>;
}

/// A record that is parsed from the input alone.
pub trait Parse: Sized {
    fn parse<'a>(i: &'a [u8]) -> IResult<'a, Self>;
}

} // verus!
