//! Following one offset: a parser applied at a place of a buffer that a
//! number names, while the cursor only moves past the number.

use crate::error::{ErrorKind, ParseError};
use crate::number::{
    apply_usize, lemma_u32_usize, lemma_usize_monotone, u32, u32_spec, u32_value, usize_spec,
    Endianness,
};
use crate::parser::{
    failed, failure, included, lemma_refines_weaken, outcomes, refines, total, with_cursor,
    IResult, Outcomes,
};
use crate::trusted::nom_take;
use vstd::prelude::*;

verus! {

/// What [`at_offset`] makes of a parser with outcomes `p`. With `offset` past
/// the end of the input it fails with `InvalidOffset` at the input. Otherwise
/// it is an outcome of `p` on the input without its first `offset` bytes, and a
/// success leaves the whole input: nothing is consumed.
pub open spec fn at_offset_spec<'a, O>(offset: usize, p: Outcomes<'a, O>) -> Outcomes<'a, O> {
    |i: &'a [u8], r: IResult<'a, O>|
        if offset > i@.len() {
            r == failure::<O>(ErrorKind::InvalidOffset, i)
        } else {
            exists|sub: &'a [u8], r0: IResult<'a, O>|
                sub@ == i@.skip(offset as int) && #[trigger] p(sub, r0) && r == with_cursor(i, r0)
        }
}

/// What [`offset_read_then`] makes of an offset reader with outcomes `pr` and a
/// parser with outcomes `p`. The reader is applied to the cursor and the
/// number it read is narrowed to an index; a failure of either is the outcome.
/// Otherwise `p` is applied at that index of `i0` as [`at_offset_spec`] says,
/// and a success leaves what the reader left.
pub open spec fn offset_read_then_spec<'a, O, U: TryInto<usize>>(
    i0: &'a [u8],
    pr: Outcomes<'a, U>,
    p: Outcomes<'a, O>,
) -> Outcomes<'a, O> {
    |i: &'a [u8], r: IResult<'a, O>|
        exists|r1: IResult<'a, usize>| #[trigger]
            usize_spec(pr)(i, r1) && match r1 {
                Ok((i1, n)) => exists|r2: IResult<'a, O>| #[trigger]
                    at_offset_spec(n, p)(i0, r2) && r == with_cursor(i1, r2),
                Err(e) => r == failed::<O>(e),
            }
}

/// What [`offset_then`] makes of a parser with outcomes `p`: as
/// [`offset_read_then_spec`], the offset being an unsigned 32-bit number in the
/// byte order `endian`.
pub open spec fn offset_then_spec<'a, O>(
    i0: &'a [u8],
    p: Outcomes<'a, O>,
    endian: Endianness,
) -> Outcomes<'a, O> {
    offset_read_then_spec(i0, u32_spec(endian), p)
}

/// `r` is the outcome `r0` of a parser applied elsewhere, seen from the cursor
/// `i`: a success carries the value of `r0` and leaves `i` without its first
/// `n` bytes, a failure is that of `r0`.
pub open spec fn advanced<'a, O>(
    i: &'a [u8],
    n: int,
    r0: IResult<'a, O>,
    r: IResult<'a, O>,
) -> bool {
    match r0 {
        Ok((_, v)) => r is Ok && r->Ok_0.0@ == i@.skip(n) && r->Ok_0.1 == v,
        Err(e) => r == failed::<O>(e),
    }
}

/// [`at_offset_spec`] keeps inclusion.
pub proof fn lemma_at_offset_monotone<'a, O>(offset: usize, p: Outcomes<'a, O>, q: Outcomes<'a, O>)
    requires
        included(p, q),
    ensures
        included(at_offset_spec(offset, p), at_offset_spec(offset, q)),
{
}

/// [`offset_read_then_spec`] keeps inclusion, in the reader and in the parser.
pub proof fn lemma_offset_read_then_monotone<'a, O, U: TryInto<usize>>(
    i0: &'a [u8],
    pr: Outcomes<'a, U>,
    qr: Outcomes<'a, U>,
    p: Outcomes<'a, O>,
    q: Outcomes<'a, O>,
)
    requires
        included(pr, qr),
        included(p, q),
    ensures
        included(offset_read_then_spec(i0, pr, p), offset_read_then_spec(i0, qr, q)),
{
    lemma_usize_monotone(pr, qr);
    assert forall|i: &'a [u8], r: IResult<'a, O>| #[trigger]
        offset_read_then_spec(i0, pr, p)(i, r) implies offset_read_then_spec(i0, qr, q)(i, r) by {
        let r1 = choose|r1: IResult<'a, usize>| #[trigger]
            usize_spec(pr)(i, r1) && match r1 {
                Ok((i1, n)) => exists|r2: IResult<'a, O>| #[trigger]
                    at_offset_spec(n, p)(i0, r2) && r == with_cursor(i1, r2),
                Err(e) => r == failed::<O>(e),
            };
        assert(usize_spec(qr)(i, r1));
        if let Ok((i1, n)) = r1 {
            lemma_at_offset_monotone(n, p, q);
            let r2 = choose|r2: IResult<'a, O>| #[trigger]
                at_offset_spec(n, p)(i0, r2) && r == with_cursor(i1, r2);
            assert(at_offset_spec(n, q)(i0, r2));
        }
    }
}

/// [`offset_then_spec`] keeps inclusion.
pub proof fn lemma_offset_then_monotone<'a, O>(
    i0: &'a [u8],
    p: Outcomes<'a, O>,
    q: Outcomes<'a, O>,
    endian: Endianness,
)
    requires
        included(p, q),
    ensures
        included(offset_then_spec(i0, p, endian), offset_then_spec(i0, q, endian)),
{
    lemma_offset_read_then_monotone(i0, u32_spec(endian), u32_spec(endian), p, q);
}

/// Where the first four bytes of the cursor hold an offset within the buffer,
/// every outcome of `offset_then` is an outcome of the parser on the buffer
/// from that offset on, and a success leaves the cursor without those four
/// bytes, wherever in the buffer the parser stopped.
pub proof fn lemma_offset_then_decodes_at_offset<'a, O>(
    i0: &'a [u8],
    p: Outcomes<'a, O>,
    endian: Endianness,
    i: &'a [u8],
    r: IResult<'a, O>,
)
    requires
        i@.len() >= 4,
        u32_value(endian, i@) <= i0@.len(),
        offset_then_spec(i0, p, endian)(i, r),
    ensures
        exists|sub: &'a [u8], r0: IResult<'a, O>|
            sub@ == i0@.skip(u32_value(endian, i@)) && #[trigger] p(sub, r0) && advanced(
                i,
                4,
                r0,
                r,
            ),
{
    let r1 = choose|r1: IResult<'a, usize>| #[trigger]
        usize_spec(u32_spec(endian))(i, r1) && match r1 {
            Ok((i1, n)) => exists|r2: IResult<'a, O>| #[trigger]
                at_offset_spec(n, p)(i0, r2) && r == with_cursor(i1, r2),
            Err(e) => r == failed::<O>(e),
        };
    lemma_u32_usize(endian, i, r1);
    let (i1, n) = r1->Ok_0;
    let r2 = choose|r2: IResult<'a, O>| #[trigger]
        at_offset_spec(n, p)(i0, r2) && r == with_cursor(i1, r2);
    let (sub, r0) = choose|sub: &'a [u8], r0: IResult<'a, O>|
        sub@ == i0@.skip(n as int) && #[trigger] p(sub, r0) && r2 == with_cursor(i0, r0);
    assert(advanced(i, 4, r0, r));
}

/// An offset past the end of the input fails `at_offset_spec` with
/// `InvalidOffset` at the input, whatever the parser.
pub proof fn lemma_at_offset_past_end<'a, O>(
    offset: usize,
    p: Outcomes<'a, O>,
    i: &'a [u8],
    r: IResult<'a, O>,
)
    requires
        offset > i@.len(),
        at_offset_spec(offset, p)(i, r),
    ensures
        r == failure::<O>(ErrorKind::InvalidOffset, i),
{
}

/// Where the first four bytes of the cursor hold an offset past the end of the
/// buffer, `offset_then` fails with `InvalidOffset` at the buffer, whatever the
/// parser.
pub proof fn lemma_offset_then_past_end<'a, O>(
    i0: &'a [u8],
    p: Outcomes<'a, O>,
    endian: Endianness,
    i: &'a [u8],
    r: IResult<'a, O>,
)
    requires
        i@.len() >= 4,
        u32_value(endian, i@) > i0@.len(),
        offset_then_spec(i0, p, endian)(i, r),
    ensures
        r == failure::<O>(ErrorKind::InvalidOffset, i0),
{
    let r1 = choose|r1: IResult<'a, usize>| #[trigger]
        usize_spec(u32_spec(endian))(i, r1) && match r1 {
            Ok((i1, n)) => exists|r2: IResult<'a, O>| #[trigger]
                at_offset_spec(n, p)(i0, r2) && r == with_cursor(i1, r2),
            Err(e) => r == failed::<O>(e),
        };
    lemma_u32_usize(endian, i, r1);
}

/// Where the reader can only give an offset past the end of the buffer,
/// `offset_read_then` fails with `InvalidOffset` at the buffer, whatever the
/// parser.
pub proof fn lemma_offset_read_then_past_end<'a, O, U: TryInto<usize>>(
    i0: &'a [u8],
    pr: Outcomes<'a, U>,
    p: Outcomes<'a, O>,
    i: &'a [u8],
    r: IResult<'a, O>,
)
    requires
        forall|r1: IResult<'a, usize>| #[trigger]
            usize_spec(pr)(i, r1) ==> r1 is Ok && r1->Ok_0.1 > i0@.len(),
        offset_read_then_spec(i0, pr, p)(i, r),
    ensures
        r == failure::<O>(ErrorKind::InvalidOffset, i0),
{
}

/// [`at_offset`] applied to `i`.
pub(crate) fn apply_at_offset<'a, O, F>(offset: usize, f: &F, i: &'a [u8]) -> (r: IResult<
    'a,
    O,
>) where F: Fn(&'a [u8]) -> IResult<'a, O>

    requires
        total(*f),
    ensures
        at_offset_spec(offset, outcomes(*f))(i, r),
{
    match nom_take(offset, i) {
        Ok((sub, _)) => {
            let r0 = f(sub);
            assert(outcomes(*f)(sub, r0));
            match r0 {
                Ok((_, v)) => Ok((i, v)),
                Err(e) => Err(e),
            }
        },
        Err(_) => Err(ParseError { kind: ErrorKind::InvalidOffset, input: i }),
    }
}

/// [`offset_read_then`] applied to `i`.
pub(crate) fn apply_offset_read_then<'a, O, F, F1, U>(
    i0: &'a [u8],
    f1: &F1,
    f: &F,
    i: &'a [u8],
) -> (r: IResult<'a, O>) where
    F: Fn(&'a [u8]) -> IResult<'a, O>,
    F1: Fn(&'a [u8]) -> IResult<'a, U>,
    U: TryInto<usize>,

    requires
        total(*f1),
        total(*f),
    ensures
        offset_read_then_spec(i0, outcomes(*f1), outcomes(*f))(i, r),
{
    match apply_usize(f1, i) {
        Ok((i1, offset)) => {
            match apply_at_offset(offset, f, i0) {
                Ok((_, v)) => Ok((i1, v)),
                Err(e) => Err(e),
            }
        },
        Err(e) => Err(e),
    }
}

/// The parser that applies `f` to its input without the first `offset` bytes
/// and, where `f` succeeds, gives the value of `f` and leaves its own input
/// whole. An `offset` past the end of the input fails with `InvalidOffset`.
pub fn at_offset<'a, O, F>(offset: usize, f: F) -> (g: impl Fn(&'a [u8]) -> IResult<'a, O>) where
    F: Fn(&'a [u8]) -> IResult<'a, O>,

    requires
        total(f),
    ensures
        refines(g, at_offset_spec(offset, outcomes(f))),
{
    move |i: &'a [u8]| -> (r: IResult<'a, O>)
        ensures
            at_offset_spec(offset, outcomes(f))(i, r),
        { apply_at_offset(offset, &f, i) }
}

/// The parser that reads an offset from its input with `f1`, applies `f` to
/// the buffer `i0` from that offset on, and leaves what `f1` left: the cursor
/// moves past the offset alone. An offset without an index, or past the end of
/// `i0`, fails with `InvalidOffset`.
pub fn offset_read_then<'a, O, F, F1, U>(i0: &'a [u8], f1: F1, f: F) -> (g: impl Fn(
    &'a [u8],
) -> IResult<'a, O>) where
    F: Fn(&'a [u8]) -> IResult<'a, O>,
    F1: Fn(&'a [u8]) -> IResult<'a, U>,
    U: TryInto<usize>,

    requires
        total(f1),
        total(f),
    ensures
        refines(g, offset_read_then_spec(i0, outcomes(f1), outcomes(f))),
{
    move |i: &'a [u8]| -> (r: IResult<'a, O>)
        ensures
            offset_read_then_spec(i0, outcomes(f1), outcomes(f))(i, r),
        { apply_offset_read_then(i0, &f1, &f, i) }
}

/// [`offset_read_then`] with the offset an unsigned 32-bit number in the byte
/// order `endian`.
pub fn offset_then<'a, O, F>(i0: &'a [u8], f: F, endian: Endianness) -> (g: impl Fn(
    &'a [u8],
) -> IResult<'a, O>) where F: Fn(&'a [u8]) -> IResult<'a, O>
    requires
        total(f),
    ensures
        refines(g, offset_then_spec(i0, outcomes(f), endian)),
{
    let f1 = u32(endian);
    let g = offset_read_then(i0, f1, f);
    proof {
        lemma_offset_read_then_monotone(
            i0,
            outcomes(f1),
            u32_spec(endian),
            outcomes(f),
            outcomes(f),
        );
        lemma_refines_weaken(
            g,
            offset_read_then_spec(i0, outcomes(f1), outcomes(f)),
            offset_then_spec(i0, outcomes(f), endian),
        );
    }
    g
}

} // verus!
