//! Fixed-width integers in either byte order, and the narrowing of a number
//! that was read to an index.

use crate::error::{ErrorKind, ParseError};
use crate::parser::{
    failed, failure, functional_at, included, lemma_refines_weaken, outcomes, refines, success,
    total, IResult, Outcomes,
};
use crate::trusted::{nom_be_i32, nom_be_u16, nom_be_u32, nom_le_i32, nom_le_u16, nom_le_u32};
use vstd::prelude::*;

verus! {

/// The order in which the bytes of a number stand in the input.
#[derive(Clone, Copy, Debug, PartialEq, Eq, Structural)]
pub enum Endianness {
    /// The most significant byte comes first.
    Big,
    /// The least significant byte comes first.
    Little,
}

/// The number that the first two bytes of `b` hold, low byte first.
pub open spec fn le16(b: Seq<u8>) -> int
    recommends
        b.len() >= 2,
{
    b[0] as int + 0x100 * (b[1] as int)
}

/// The number that the first two bytes of `b` hold, high byte first.
pub open spec fn be16(b: Seq<u8>) -> int
    recommends
        b.len() >= 2,
{
    0x100 * (b[0] as int) + b[1] as int
}

/// The number that the first four bytes of `b` hold, low byte first.
pub open spec fn le32(b: Seq<u8>) -> int
    recommends
        b.len() >= 4,
{
    b[0] as int + 0x100 * (b[1] as int) + 0x1_0000 * (b[2] as int) + 0x100_0000 * (b[3] as int)
}

/// The number that the first four bytes of `b` hold, high byte first.
pub open spec fn be32(b: Seq<u8>) -> int
    recommends
        b.len() >= 4,
{
    0x100_0000 * (b[0] as int) + 0x1_0000 * (b[1] as int) + 0x100 * (b[2] as int) + b[3] as int
}

/// The 32-bit pattern `n`, read as two's complement.
pub open spec fn signed32(n: int) -> int
    recommends
        0 <= n < 0x1_0000_0000,
{
    if n < 0x8000_0000 {
        n
    } else {
        n - 0x1_0000_0000
    }
}

/// The unsigned 16-bit number at the front of `b`.
pub open spec fn u16_value(endian: Endianness, b: Seq<u8>) -> int
    recommends
        b.len() >= 2,
{
    match endian {
        Endianness::Little => le16(b),
        Endianness::Big => be16(b),
    }
}

/// The unsigned 32-bit number at the front of `b`.
pub open spec fn u32_value(endian: Endianness, b: Seq<u8>) -> int
    recommends
        b.len() >= 4,
{
    match endian {
        Endianness::Little => le32(b),
        Endianness::Big => be32(b),
    }
}

/// The signed 32-bit number at the front of `b`.
pub open spec fn i32_value(endian: Endianness, b: Seq<u8>) -> int
    recommends
        b.len() >= 4,
{
    signed32(u32_value(endian, b))
}

/// A number of `width` bytes at the front of the input: it fails with
/// `InsufficientInput`, at the input, exactly where fewer than `width` bytes
/// are left; otherwise it leaves the input after those bytes and gives the
/// number that `value` reads from them.
pub open spec fn fixed_width_spec<'a, T>(width: nat, value: spec_fn(Seq<u8>) -> T) -> Outcomes<
    'a,
    T,
> {
    |i: &'a [u8], r: IResult<'a, T>|
        match r {
            Ok((rest, v)) => i@.len() >= width && rest@ == i@.skip(width as int) && v == value(i@),
            Err(e) => i@.len() < width && e == (ParseError {
                kind: ErrorKind::InsufficientInput,
                input: i,
            }),
        }
}

/// What [`u16`] parses.
pub open spec fn u16_spec<'a>(endian: Endianness) -> Outcomes<'a, u16> {
    fixed_width_spec(2, |b: Seq<u8>| u16_value(endian, b) as u16)
}

/// What [`u32`] parses.
pub open spec fn u32_spec<'a>(endian: Endianness) -> Outcomes<'a, u32> {
    fixed_width_spec(4, |b: Seq<u8>| u32_value(endian, b) as u32)
}

/// What [`i32`] parses.
pub open spec fn i32_spec<'a>(endian: Endianness) -> Outcomes<'a, i32> {
    fixed_width_spec(4, |b: Seq<u8>| i32_value(endian, b) as i32)
}

/// [`fixed_width_spec`] allows one outcome on each input.
pub proof fn lemma_fixed_width_functional<'a, T>(
    width: nat,
    value: spec_fn(Seq<u8>) -> T,
    i: &'a [u8],
)
    ensures
        functional_at(fixed_width_spec(width, value), i),
{
    let p = fixed_width_spec::<T>(width, value);
    assert forall|r1: IResult<'a, T>, r2: IResult<'a, T>| #[trigger]
        p(i, r1) && #[trigger] p(i, r2) implies r1 == r2 by {
        if let Ok((rest1, _)) = r1 {
            if let Ok((rest2, _)) = r2 {
                assert(rest1 =~= rest2);
            }
        }
    }
}

/// [`u16_spec`] allows one outcome on each input.
pub proof fn lemma_u16_functional<'a>(endian: Endianness, i: &'a [u8])
    ensures
        functional_at(u16_spec(endian), i),
{
    lemma_fixed_width_functional(2, |b: Seq<u8>| u16_value(endian, b) as u16, i);
}

/// [`u32_spec`] allows one outcome on each input.
pub proof fn lemma_u32_functional<'a>(endian: Endianness, i: &'a [u8])
    ensures
        functional_at(u32_spec(endian), i),
{
    lemma_fixed_width_functional(4, |b: Seq<u8>| u32_value(endian, b) as u32, i);
}

/// [`i32_spec`] allows one outcome on each input.
pub proof fn lemma_i32_functional<'a>(endian: Endianness, i: &'a [u8])
    ensures
        functional_at(i32_spec(endian), i),
{
    lemma_fixed_width_functional(4, |b: Seq<u8>| i32_value(endian, b) as i32, i);
}

/// [`u16`] applied to `i`.
fn read_u16<'a>(endian: Endianness, i: &'a [u8]) -> (r: IResult<'a, u16>)
    ensures
        u16_spec(endian)(i, r),
{
    let read = match endian {
        Endianness::Little => nom_le_u16(i),
        _ => nom_be_u16(i),
    };
    match read {
        Ok((rest, v)) => Ok((rest, v)),
        Err(_) => Err(ParseError { kind: ErrorKind::InsufficientInput, input: i }),
    }
}

/// [`u32`] applied to `i`.
fn read_u32<'a>(endian: Endianness, i: &'a [u8]) -> (r: IResult<'a, u32>)
    ensures
        u32_spec(endian)(i, r),
{
    let read = match endian {
        Endianness::Little => nom_le_u32(i),
        _ => nom_be_u32(i),
    };
    match read {
        Ok((rest, v)) => Ok((rest, v)),
        Err(_) => Err(ParseError { kind: ErrorKind::InsufficientInput, input: i }),
    }
}

/// [`i32`] applied to `i`.
fn read_i32<'a>(endian: Endianness, i: &'a [u8]) -> (r: IResult<'a, i32>)
    ensures
        i32_spec(endian)(i, r),
{
    let read = match endian {
        Endianness::Little => nom_le_i32(i),
        _ => nom_be_i32(i),
    };
    match read {
        Ok((rest, v)) => Ok((rest, v)),
        Err(_) => Err(ParseError { kind: ErrorKind::InsufficientInput, input: i }),
    }
}

/// The parser of an unsigned 16-bit number in the byte order `endian`.
pub fn u16<'a>(endian: Endianness) -> (g: impl Fn(&'a [u8]) -> IResult<'a, u16>)
    ensures
        refines(g, u16_spec(endian)),
{
    move |i: &'a [u8]| -> (r: IResult<'a, u16>)
        ensures
            u16_spec(endian)(i, r),
        { read_u16(endian, i) }
}

/// The parser of an unsigned 32-bit number in the byte order `endian`.
pub fn u32<'a>(endian: Endianness) -> (g: impl Fn(&'a [u8]) -> IResult<'a, u32>)
    ensures
        refines(g, u32_spec(endian)),
{
    move |i: &'a [u8]| -> (r: IResult<'a, u32>)
        ensures
            u32_spec(endian)(i, r),
        { read_u32(endian, i) }
}

/// The parser of a signed 32-bit number in the byte order `endian`.
pub fn i32<'a>(endian: Endianness) -> (g: impl Fn(&'a [u8]) -> IResult<'a, i32>)
    ensures
        refines(g, i32_spec(endian)),
{
    move |i: &'a [u8]| -> (r: IResult<'a, i32>)
        ensures
            i32_spec(endian)(i, r),
        { read_i32(endian, i) }
}

/// Narrowing `v` to an index of this machine may give `idx`: the index, or
/// `None` where `v` has none, being negative or too large. It is what
/// `try_into` returns, its error dropped.
pub open spec fn narrows_to<U: TryInto<usize>>(v: U, idx: Option<usize>) -> bool {
    exists|c: Result<usize, U::Error>| #[trigger]
        call_ensures(U::try_into, (v,), c) && idx == c.ok()
}

/// `r` is the outcome `r0` of a parser on `i`, its value narrowed to an
/// index: a failure stays as it is, a value with an index becomes that
/// index, and a value without one fails with `InvalidOffset` at `i`.
pub open spec fn narrowed<'a, U: TryInto<usize>>(
    i: &'a [u8],
    r0: IResult<'a, U>,
    r: IResult<'a, usize>,
) -> bool {
    match r0 {
        Ok((rest, v)) => exists|idx: Option<usize>| #[trigger]
            narrows_to(v, idx) && r == match idx {
                Some(n) => success(rest, n),
                None => failure(ErrorKind::InvalidOffset, i),
            },
        Err(e) => r == failed::<usize>(e),
    }
}

/// What [`usize`] makes of a parser with outcomes `p`: an outcome of `p`,
/// narrowed.
pub open spec fn usize_spec<'a, U: TryInto<usize>>(p: Outcomes<'a, U>) -> Outcomes<'a, usize> {
    |i: &'a [u8], r: IResult<'a, usize>|
        exists|r0: IResult<'a, U>| #[trigger] p(i, r0) && narrowed(i, r0, r)
}

/// What [`u32_usize`] parses.
pub open spec fn u32_usize_spec<'a>(endian: Endianness) -> Outcomes<'a, usize> {
    usize_spec(u32_spec(endian))
}

/// An unsigned 16-bit number always has an index: itself.
pub proof fn lemma_narrow_u16(v: u16, idx: Option<usize>)
    requires
        narrows_to(v, idx),
    ensures
        idx == Some(v as usize),
{
}

/// An unsigned 32-bit number always has an index: itself.
pub proof fn lemma_narrow_u32(v: u32, idx: Option<usize>)
    requires
        narrows_to(v, idx),
    ensures
        idx == Some(v as usize),
{
}

/// A signed 32-bit number has an index, itself, exactly where it is not
/// negative.
pub proof fn lemma_narrow_i32(v: i32, idx: Option<usize>)
    requires
        narrows_to(v, idx),
    ensures
        v >= 0 ==> idx == Some(v as usize),
        v < 0 ==> idx is None,
{
}

/// [`usize_spec`] keeps inclusion.
pub proof fn lemma_usize_monotone<'a, U: TryInto<usize>>(p: Outcomes<'a, U>, q: Outcomes<'a, U>)
    requires
        included(p, q),
    ensures
        included(usize_spec(p), usize_spec(q)),
{
}

/// On at least four bytes [`u32_usize`] succeeds: it leaves the input after
/// them and gives the number they hold. On fewer it fails with
/// `InsufficientInput` at the input.
pub proof fn lemma_u32_usize<'a>(endian: Endianness, i: &'a [u8], r: IResult<'a, usize>)
    requires
        u32_usize_spec(endian)(i, r),
    ensures
        i@.len() < 4 ==> r == failure::<usize>(ErrorKind::InsufficientInput, i),
        i@.len() >= 4 ==> r is Ok && r->Ok_0.0@ == i@.skip(4) && r->Ok_0.1 as int == u32_value(
            endian,
            i@,
        ),
{
    let r0 = choose|r0: IResult<'a, u32>| #[trigger] u32_spec(endian)(i, r0) && narrowed(i, r0, r);
    if let Ok((rest, v)) = r0 {
        let idx = choose|idx: Option<usize>| #[trigger]
            narrows_to(v, idx) && r == match idx {
                Some(n) => success(rest, n),
                None => failure(ErrorKind::InvalidOffset, i),
            };
        lemma_narrow_u32(v, idx);
    }
}

/// [`usize`] applied to `i`.
pub(crate) fn apply_usize<'a, F, U>(f: &F, i: &'a [u8]) -> (r: IResult<'a, usize>) where
    F: Fn(&'a [u8]) -> IResult<'a, U>,
    U: TryInto<usize>,

    requires
        total(*f),
    ensures
        usize_spec(outcomes(*f))(i, r),
{
    let r0 = f(i);
    assert(outcomes(*f)(i, r0));
    match r0 {
        Ok((rest, v)) => {
            let converted = v.try_into();
            assert(narrows_to(v, converted.ok()));
            match converted {
                Ok(n) => Ok((rest, n)),
                Err(_) => Err(ParseError { kind: ErrorKind::InvalidOffset, input: i }),
            }
        },
        Err(e) => Err(e),
    }
}

/// The parser that applies `f` and narrows the number it read to an index.
/// Where the number has no index, being negative or too large, the parser fails
/// with `InvalidOffset` at its input.
pub fn usize<'a, F, U>(f: F) -> (g: impl Fn(&'a [u8]) -> IResult<'a, usize>) where
    F: Fn(&'a [u8]) -> IResult<'a, U>,
    U: TryInto<usize>,

    requires
        total(f),
    ensures
        refines(g, usize_spec(outcomes(f))),
{
    move |i: &'a [u8]| -> (r: IResult<'a, usize>)
        ensures
            usize_spec(outcomes(f))(i, r),
        { apply_usize(&f, i) }
}

/// The parser of an unsigned 32-bit number in the byte order `endian`, as an
/// index.
pub fn u32_usize<'a>(endian: Endianness) -> (g: impl Fn(&'a [u8]) -> IResult<'a, usize>)
    ensures
        refines(g, u32_usize_spec(endian)),
{
    let read = u32(endian);
    let g = usize(read);
    proof {
        lemma_usize_monotone(outcomes(read), u32_spec(endian));
        lemma_refines_weaken(g, usize_spec(outcomes(read)), u32_usize_spec(endian));
    }
    g
}

} // verus!
