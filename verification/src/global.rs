//! A parsing session: one buffer that every offset is measured from, and one
//! byte order.

use crate::error::{ErrorKind, ParseError};
use crate::number::{u32, u32_spec, Endianness};
use crate::offset::{
    apply_offset_read_then, lemma_offset_read_then_monotone, offset_read_then_spec,
    offset_then_spec,
};
use crate::parser::{
    failure, lemma_refines_weaken, outcomes, refines, total, IResult, Outcomes,
};
use crate::trusted::nom_take;
use vstd::prelude::*;

verus! {

/// The buffer that offsets point into, and the byte order of the numbers in
/// it. Both are fixed when the context is made.
#[derive(Clone, Copy, Debug)]
pub struct ParsingContext<'a> {
    global: &'a [u8],
    endian: Endianness,
}

/// What [`ParsingContext::read_at`] returns for a parser with outcomes `p`.
/// With `offset` past the end of the buffer it fails with `InvalidOffset` at
/// the buffer. Otherwise it is an outcome of `p` on the buffer without its
/// first `offset` bytes, rest and all.
pub open spec fn read_at_spec<'a, O>(
    global: &'a [u8],
    offset: usize,
    p: Outcomes<'a, O>,
    r: IResult<'a, O>,
) -> bool {
    if offset > global@.len() {
        r == failure::<O>(ErrorKind::InvalidOffset, global)
    } else {
        exists|sub: &'a [u8]| sub@ == global@.skip(offset as int) && #[trigger] p(sub, r)
    }
}

impl<'a> ParsingContext<'a> {
    /// The buffer of this context.
    pub closed spec fn buffer(&self) -> &'a [u8] {
        self.global
    }

    /// The byte order of this context.
    pub closed spec fn byte_order(&self) -> Endianness {
        self.endian
    }

    /// The context of the buffer `global` and the byte order `endian`.
    pub fn new(global: &'a [u8], endian: Endianness) -> (ctx: Self)
        ensures
            ctx.buffer() == global,
            ctx.byte_order() == endian,
    {
        ParsingContext { global, endian }
    }

    /// The buffer of this context.
    pub fn global(&self) -> (global: &'a [u8])
        ensures
            global == self.buffer(),
    {
        self.global
    }

    /// The byte order of this context.
    pub fn endian(&self) -> (endian: Endianness)
        ensures
            endian == self.byte_order(),
    {
        self.endian
    }

    /// Applies `f` to the buffer from `offset` on and returns what `f` returns.
    /// An `offset` past the end of the buffer fails with `InvalidOffset`.
    pub fn read_at<F, O>(&self, offset: usize, f: F) -> (r: IResult<'a, O>) where
        F: Fn(&'a [u8]) -> IResult<'a, O>,

        requires
            total(f),
        ensures
            read_at_spec(self.buffer(), offset, outcomes(f), r),
    {
        match nom_take(offset, self.global) {
            Ok((sub, _)) => {
                let r = f(sub);
                assert(outcomes(f)(sub, r));
                r
            },
            Err(_) => Err(ParseError { kind: ErrorKind::InvalidOffset, input: self.global }),
        }
    }

    /// The parser that reads an offset from its input with `p`, applies `f` to
    /// the buffer from that offset on, and leaves what `p` left.
    pub fn read_offset_then<P, U, F, O>(&self, p: P, f: F) -> (g: impl Fn(&'a [u8]) -> IResult<
        'a,
        O,
    >) where
        F: Fn(&'a [u8]) -> IResult<'a, O>,
        P: Fn(&'a [u8]) -> IResult<'a, U>,
        U: TryInto<usize>,

        requires
            total(p),
            total(f),
        ensures
            refines(g, offset_read_then_spec(self.buffer(), outcomes(p), outcomes(f))),
    {
        let global = self.global;
        move |i: &'a [u8]| -> (r: IResult<'a, O>)
            ensures
                offset_read_then_spec(global, outcomes(p), outcomes(f))(i, r),
            { apply_offset_read_then(global, &p, &f, i) }
    }

    /// [`ParsingContext::read_offset_then`] with the offset an unsigned 32-bit
    /// number in the byte order of this context.
    pub fn read_then<F, O>(&self, f: F) -> (g: impl Fn(&'a [u8]) -> IResult<'a, O>) where
        F: Fn(&'a [u8]) -> IResult<'a, O>,

        requires
            total(f),
        ensures
            refines(g, offset_then_spec(self.buffer(), outcomes(f), self.byte_order())),
    {
        let p = u32(self.endian);
        let g = self.read_offset_then(p, f);
        proof {
            lemma_offset_read_then_monotone(
                self.buffer(),
                outcomes(p),
                u32_spec(self.endian),
                outcomes(f),
                outcomes(f),
            );
            lemma_refines_weaken(
                g,
                offset_read_then_spec(self.buffer(), outcomes(p), outcomes(f)),
                offset_then_spec(self.buffer(), outcomes(f), self.byte_order()),
            );
        }
        g
    }
}

} // verus!
