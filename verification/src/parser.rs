//! The model of a parser: a relation between an input and its outcomes.

use crate::error::{ErrorKind, ParseError};
use vstd::prelude::*;

verus! {

/// What a parser returns: the unread rest of its input and a value, or a
/// failure.
pub type IResult<'a, O> = Result<(&'a [u8], O), ParseError<'a>>;

/// A relation between an input and an outcome. It stands for a parser in
/// contracts: `p(i, r)` reads "on input `i` the parser may return `r`".
pub type Outcomes<'a, O> = spec_fn(&'a [u8], IResult<'a, O>) -> bool;

/// The outcomes of the executable parser `f`, as its own contract gives them.
pub open spec fn outcomes<'a, O, F: Fn(&'a [u8]) -> IResult<'a, O>>(f: F) -> Outcomes<'a, O> {
    |i: &'a [u8], r: IResult<'a, O>| call_ensures(f, (i,), r)
}

/// `f` may be applied to every input.
pub open spec fn total<'a, O, F: Fn(&'a [u8]) -> IResult<'a, O>>(f: F) -> bool {
    forall|i: &'a [u8]| call_requires(f, (i,))
}

/// Every outcome of `p` is an outcome of `q`.
pub open spec fn included<'a, O>(p: Outcomes<'a, O>, q: Outcomes<'a, O>) -> bool {
    forall|i: &'a [u8], r: IResult<'a, O>| #[trigger] p(i, r) ==> q(i, r)
}

/// `f` may be applied to every input, and returns only what `p` allows.
pub open spec fn refines<'a, O, F: Fn(&'a [u8]) -> IResult<'a, O>>(
    f: F,
    p: Outcomes<'a, O>,
) -> bool {
    &&& total(f)
    &&& forall|i: &'a [u8], r: IResult<'a, O>| #[trigger] call_ensures(f, (i,), r) ==> p(i, r)
}

/// `p` allows at most one outcome on `i`.
pub open spec fn functional_at<'a, O>(p: Outcomes<'a, O>, i: &'a [u8]) -> bool {
    forall|r1: IResult<'a, O>, r2: IResult<'a, O>|
        #[trigger] p(i, r1) && #[trigger] p(i, r2) ==> r1 == r2
}

/// The successful outcome with rest `rest` and value `v`.
pub open spec fn success<'a, O>(rest: &'a [u8], v: O) -> IResult<'a, O> {
    Ok((rest, v))
}

/// The failure of kind `kind` at `input`.
pub open spec fn failure<'a, O>(kind: ErrorKind, input: &'a [u8]) -> IResult<'a, O> {
    Err(ParseError { kind, input })
}

/// The failure `e`, as the outcome of a parser of `O`.
pub open spec fn failed<'a, O>(e: ParseError<'a>) -> IResult<'a, O> {
    Err(e)
}

/// The outcome `r` with `cursor` in place of its rest: a success keeps its
/// value, a failure stays as it is.
pub open spec fn with_cursor<'a, O>(cursor: &'a [u8], r: IResult<'a, O>) -> IResult<'a, O> {
    match r {
        Ok((_, v)) => Ok((cursor, v)),
        Err(e) => Err(e),
    }
}

/// `values.len()` applications of `p` in a row, each to the rest that the
/// one before it left: application `k` takes `inputs[k]`, succeeds with
/// `values[k]` and leaves `inputs[k + 1]`.
pub open spec fn is_run<'a, O>(p: Outcomes<'a, O>, inputs: Seq<&'a [u8]>, values: Seq<O>) -> bool {
    &&& inputs.len() == values.len() + 1
    &&& forall|k: int|
        0 <= k < values.len() ==> p(inputs[k], success(inputs[k + 1], #[trigger] values[k]))
}

/// A parser that refines `p` refines whatever includes `p`.
pub proof fn lemma_refines_weaken<'a, O, F: Fn(&'a [u8]) -> IResult<'a, O>>(
    f: F,
    p: Outcomes<'a, O>,
    q: Outcomes<'a, O>,
)
    requires
        refines(f, p),
        included(p, q),
    ensures
        refines(f, q),
{
}

/// A run of `p` is a run of whatever includes `p`.
pub proof fn lemma_run_monotone<'a, O>(
    p: Outcomes<'a, O>,
    q: Outcomes<'a, O>,
    inputs: Seq<&'a [u8]>,
    values: Seq<O>,
)
    requires
        included(p, q),
        is_run(p, inputs, values),
    ensures
        is_run(q, inputs, values),
{
}

} // verus!
