//! Repetition up to a sentinel: a parser applied again and again until the
//! value it gives equals a chosen one.

use crate::error::{ErrorKind, ParseError};
use crate::parser::{
    failed, functional_at, included, is_run, lemma_run_monotone, outcomes, refines, success,
    total, IResult, Outcomes,
};
use vstd::prelude::*;
use vstd::std_specs::cmp::PartialEqSpec;

verus! {

/// Comparing `x` with the sentinel by `==` may give `b`.
pub open spec fn compares<O: PartialEq>(x: O, sentinel: O, b: bool) -> bool {
    call_ensures(O::eq, (&x, &sentinel), b)
}

/// How many entries of `hits` are true.
pub open spec fn count_true(hits: Seq<bool>) -> nat
    decreases hits.len(),
{
    if hits.len() == 0 {
        0
    } else {
        count_true(hits.drop_last()) + if hits.last() {
            1nat
        } else {
            0nat
        }
    }
}

/// The elements that a repetition keeps: `values` come from a run of `p` over
/// `inputs`, `hits[k]` is what comparing `values[k]` with the sentinel gave,
/// and every element that did not compare equal left the input shorter than
/// it found it.
pub open spec fn is_kept_run<'a, O: PartialEq>(
    p: Outcomes<'a, O>,
    sentinel: O,
    inputs: Seq<&'a [u8]>,
    values: Seq<O>,
    hits: Seq<bool>,
) -> bool {
    &&& is_run(p, inputs, values)
    &&& hits.len() == values.len()
    &&& forall|k: int| 0 <= k < values.len() ==> compares(values[k], sentinel, #[trigger] hits[k])
    &&& forall|k: int|
        0 <= k < values.len() && !#[trigger] hits[k] ==> inputs[k + 1]@.len() < inputs[k]@.len()
}

/// How a repetition that has kept `kept` ends at the input `last`. It
/// succeeds with `kept`, leaving what the parser left, where `full` holds and
/// the parser gave a value that compared equal to the sentinel. It fails as
/// the parser failed; or with `SentinelNotFound` at `last`, where the parser
/// gave a value that did not compare equal and left the input no shorter.
pub open spec fn stops<'a, O: PartialEq>(
    p: Outcomes<'a, O>,
    sentinel: O,
    last: &'a [u8],
    kept: Seq<O>,
    full: bool,
    r: IResult<'a, Vec<O>>,
) -> bool {
    match r {
        Ok((rest, out)) => out@ == kept && full && exists|s: O| #[trigger]
            p(last, success(rest, s)) && compares(s, sentinel, true),
        Err(e) => p(last, failed::<O>(e)) || (e == (ParseError {
            kind: ErrorKind::SentinelNotFound,
            input: last,
        }) && exists|rest: &'a [u8], x: O| #[trigger]
            p(last, success(rest, x)) && compares(x, sentinel, false) && rest@.len()
                >= last@.len()),
    }
}

/// What [`many_until_nth`] makes of a parser with outcomes `p`. It keeps the
/// values of a run of `p` from the input on, of which at most `n` compared
/// equal to the sentinel, and ends as [`stops`] says: it succeeds at the
/// value that compares equal once `n` such values are kept, which it drops.
pub open spec fn many_until_nth_spec<'a, O: PartialEq>(
    p: Outcomes<'a, O>,
    sentinel: O,
    n: usize,
) -> Outcomes<'a, Vec<O>> {
    |i: &'a [u8], r: IResult<'a, Vec<O>>|
        exists|inputs: Seq<&'a [u8]>, values: Seq<O>, hits: Seq<bool>| #[trigger]
            is_kept_run(p, sentinel, inputs, values, hits) && inputs[0] == i && count_true(hits)
                <= n && stops(p, sentinel, inputs.last(), values, count_true(hits) == n, r)
}

/// What [`many_until`] makes of a parser with outcomes `p`: the repetition
/// that ends at the first value that compares equal to the sentinel.
pub open spec fn many_until_spec<'a, O: PartialEq>(p: Outcomes<'a, O>, sentinel: O) -> Outcomes<
    'a,
    Vec<O>,
> {
    many_until_nth_spec(p, sentinel, 0)
}

/// One more entry adds one to the count where it is true, and nothing where
/// it is false.
pub proof fn lemma_count_true_push(hits: Seq<bool>, hit: bool)
    ensures
        count_true(hits.push(hit)) == count_true(hits) + if hit {
            1nat
        } else {
            0nat
        },
{
    assert(hits.push(hit).drop_last() =~= hits);
}

/// Which of `values` equal the sentinel.
pub open spec fn sentinel_hits<O: PartialEq>(values: Seq<O>, sentinel: O) -> Seq<bool> {
    Seq::new(values.len(), |k: int| values[k].eq_spec(&sentinel))
}

/// A part of a sequence holds no more true entries than the whole.
pub proof fn lemma_count_true_take(hits: Seq<bool>, k: int)
    requires
        0 <= k <= hits.len(),
    ensures
        count_true(hits.take(k)) <= count_true(hits),
        k < hits.len() && hits[k] ==> count_true(hits.take(k)) < count_true(hits),
    decreases hits.len(),
{
    if k == hits.len() {
        assert(hits.take(k) =~= hits);
    } else {
        let front = hits.drop_last();
        if k == front.len() {
            assert(hits.take(k) =~= front);
        } else {
            lemma_count_true_take(front, k);
            assert(front.take(k) =~= hits.take(k));
        }
    }
}

/// Where no entry is true the count is zero.
pub proof fn lemma_count_true_none(hits: Seq<bool>)
    requires
        forall|k: int| 0 <= k < hits.len() ==> !hits[k],
    ensures
        count_true(hits) == 0,
    decreases hits.len(),
{
    if hits.len() > 0 {
        lemma_count_true_none(hits.drop_last());
    }
}

/// Where the count is zero no entry is true.
pub proof fn lemma_count_true_zero(hits: Seq<bool>)
    requires
        count_true(hits) == 0,
    ensures
        forall|k: int| 0 <= k < hits.len() ==> !hits[k],
    decreases hits.len(),
{
    if hits.len() > 0 {
        let front = hits.drop_last();
        lemma_count_true_zero(front);
        assert forall|k: int| 0 <= k < hits.len() implies !hits[k] by {
            if k < front.len() {
                assert(hits[k] == front[k]);
            }
        }
    }
}

/// What `many_until` keeps: the values of a run of the parser from the input
/// on, none of which compared equal to the sentinel and each of which left
/// the input shorter. It ends as [`stops`] says, at the first value that
/// compares equal.
pub proof fn lemma_many_until_keeps_no_sentinel<'a, O: PartialEq>(
    p: Outcomes<'a, O>,
    sentinel: O,
    i: &'a [u8],
    r: IResult<'a, Vec<O>>,
)
    requires
        many_until_spec(p, sentinel)(i, r),
    ensures
        exists|inputs: Seq<&'a [u8]>, values: Seq<O>| #[trigger]
            is_run(p, inputs, values) && inputs[0] == i && (forall|k: int|
                0 <= k < values.len() ==> compares(#[trigger] values[k], sentinel, false))
                && (forall|k: int|
                0 <= k < values.len() ==> (#[trigger] inputs[k + 1])@.len() < inputs[k]@.len())
                && stops(p, sentinel, inputs.last(), values, true, r),
{
    let (inputs, values, hits) = choose|
        inputs: Seq<&'a [u8]>,
        values: Seq<O>,
        hits: Seq<bool>,
    | #[trigger]
        is_kept_run(p, sentinel, inputs, values, hits) && inputs[0] == i && count_true(hits) <= 0
            && stops(p, sentinel, inputs.last(), values, count_true(hits) == 0, r);
    lemma_count_true_zero(hits);
    assert forall|k: int| 0 <= k < values.len() implies compares(
        #[trigger] values[k],
        sentinel,
        false,
    ) by {
        assert(compares(values[k], sentinel, hits[k]));
    }
    assert forall|k: int| 0 <= k < values.len() implies (#[trigger] inputs[k + 1])@.len()
        < inputs[k]@.len() by {
        assert(!hits[k]);
    }
    assert(is_run(p, inputs, values));
}

/// Two runs of one parser from one input agree as far as both go, where the
/// parser has one outcome on each input of the first.
proof fn lemma_runs_agree<'a, O>(
    p: Outcomes<'a, O>,
    inputs: Seq<&'a [u8]>,
    values: Seq<O>,
    other_inputs: Seq<&'a [u8]>,
    other_values: Seq<O>,
    k: int,
)
    requires
        is_run(p, inputs, values),
        is_run(p, other_inputs, other_values),
        inputs[0] == other_inputs[0],
        0 <= k <= values.len(),
        k <= other_values.len(),
        forall|j: int| 0 <= j < values.len() ==> functional_at(p, #[trigger] inputs[j]),
    ensures
        other_inputs[k] == inputs[k],
        forall|j: int| 0 <= j < k ==> #[trigger] other_values[j] == values[j],
    decreases k,
{
    if k > 0 {
        lemma_runs_agree(p, inputs, values, other_inputs, other_values, k - 1);
        let a = success(inputs[k], values[k - 1]);
        let b = success(other_inputs[k], other_values[k - 1]);
        assert(functional_at(p, inputs[k - 1]));
        assert(p(inputs[k - 1], a) && p(inputs[k - 1], b));
    }
}

/// A parser that gives, one after another, values of which `n` equal the
/// sentinel, and then one more that equals it: `many_until_nth` keeps all
/// but the last, the `n` that equal the sentinel among them, and leaves what
/// follows the last. This holds where `==` is an equality that Verus knows,
/// the parser has one outcome on each of these inputs, and each value other
/// than the sentinel leaves the input shorter.
pub proof fn lemma_many_until_nth_stops_after_nth<'a, O: PartialEq>(
    p: Outcomes<'a, O>,
    sentinel: O,
    n: usize,
    i: &'a [u8],
    inputs: Seq<&'a [u8]>,
    values: Seq<O>,
    r: IResult<'a, Vec<O>>,
)
    requires
        O::obeys_eq_spec(),
        is_run(p, inputs, values),
        inputs[0] == i,
        forall|k: int| 0 <= k < values.len() ==> functional_at(p, #[trigger] inputs[k]),
        values.len() >= 1,
        values.last().eq_spec(&sentinel),
        count_true(sentinel_hits(values.drop_last(), sentinel)) == n,
        forall|k: int|
            0 <= k < values.len() - 1 && !(#[trigger] values[k]).eq_spec(&sentinel) ==> inputs[k
                + 1]@.len() < inputs[k]@.len(),
        many_until_nth_spec(p, sentinel, n)(i, r),
    ensures
        r is Ok,
        r->Ok_0.0 == inputs.last(),
        r->Ok_0.1@ == values.drop_last(),
{
    let m = values.len() - 1;
    let all = sentinel_hits(values, sentinel);
    let front = sentinel_hits(values.drop_last(), sentinel);
    assert(all.take(m) =~= front);
    let (kept_inputs, kept, hits) = choose|
        kept_inputs: Seq<&'a [u8]>,
        kept: Seq<O>,
        hits: Seq<bool>,
    | #[trigger]
        is_kept_run(p, sentinel, kept_inputs, kept, hits) && kept_inputs[0] == i && count_true(
            hits,
        ) <= n && stops(p, sentinel, kept_inputs.last(), kept, count_true(hits) == n, r);
    let len = kept.len() as int;
    let both = if len <= m {
        len
    } else {
        m + 1
    };
    lemma_runs_agree(p, inputs, values, kept_inputs, kept, both);
    assert forall|j: int| 0 <= j < both implies hits[j] == all[j] by {
        assert(kept[j] == values[j]);
        assert(compares(kept[j], sentinel, hits[j]));
    }
    assert(hits.take(both) =~= all.take(both));
    lemma_count_true_take(hits, both);
    if len > m {
        lemma_count_true_take(all.take(m + 1), m);
        assert(all.take(m + 1).take(m) =~= all.take(m));
        assert(false);
    }
    assert(hits.take(len) =~= hits);
    assert(kept_inputs.last() == inputs[len]);
    assert(functional_at(p, inputs[len]));
    let next = success(inputs[len + 1], values[len]);
    assert(p(inputs[len], next));
    if len < m {
        lemma_count_true_take(all.take(m), len);
        assert(all.take(m).take(len) =~= all.take(len));
    }
    match r {
        Ok((rest, out)) => {
            let s = choose|s: O| #[trigger]
                p(inputs[len], success(rest, s)) && compares(s, sentinel, true);
            assert(success(rest, s) == next);
            assert(all[len]);
            assert(kept =~= values.drop_last());
        },
        Err(e) => {
            if p(inputs[len], failed::<O>(e)) {
                assert(failed::<O>(e) == next);
            } else {
                let (rest, x) = choose|rest: &'a [u8], x: O| #[trigger]
                    p(inputs[len], success(rest, x)) && compares(x, sentinel, false) && rest@.len()
                        >= inputs[len]@.len();
                assert(success(rest, x) == next);
            }
            assert(false);
        },
    }
}

/// A parser that gives, one after another, values of which none equals the
/// sentinel, and then one that does: `many_until` gives exactly those values,
/// in order, and leaves what follows the sentinel. This holds where `==` is an
/// equality that Verus knows, the parser has one outcome on each of these
/// inputs, and each value before the sentinel leaves the input shorter.
pub proof fn lemma_many_until_stops_at_sentinel<'a, O: PartialEq>(
    p: Outcomes<'a, O>,
    sentinel: O,
    i: &'a [u8],
    inputs: Seq<&'a [u8]>,
    values: Seq<O>,
    r: IResult<'a, Vec<O>>,
)
    requires
        O::obeys_eq_spec(),
        is_run(p, inputs, values),
        inputs[0] == i,
        forall|k: int| 0 <= k < values.len() ==> functional_at(p, #[trigger] inputs[k]),
        values.len() >= 1,
        values.last().eq_spec(&sentinel),
        forall|k: int| 0 <= k < values.len() - 1 ==> !(#[trigger] values[k]).eq_spec(&sentinel),
        forall|k: int|
            0 <= k < values.len() - 1 ==> (#[trigger] inputs[k + 1])@.len() < inputs[k]@.len(),
        many_until_spec(p, sentinel)(i, r),
    ensures
        r is Ok,
        r->Ok_0.0 == inputs.last(),
        r->Ok_0.1@ == values.drop_last(),
{
    lemma_count_true_none(sentinel_hits(values.drop_last(), sentinel));
    lemma_many_until_nth_stops_after_nth(p, sentinel, 0, i, inputs, values, r);
}

/// [`many_until_nth_spec`] keeps inclusion.
pub proof fn lemma_many_until_nth_monotone<'a, O: PartialEq>(
    p: Outcomes<'a, O>,
    q: Outcomes<'a, O>,
    sentinel: O,
    n: usize,
)
    requires
        included(p, q),
    ensures
        included(many_until_nth_spec(p, sentinel, n), many_until_nth_spec(q, sentinel, n)),
{
    assert forall|i: &'a [u8], r: IResult<'a, Vec<O>>| #[trigger]
        many_until_nth_spec(p, sentinel, n)(i, r) implies many_until_nth_spec(q, sentinel, n)(
        i,
        r,
    ) by {
        let (inputs, values, hits) = choose|
            inputs: Seq<&'a [u8]>,
            values: Seq<O>,
            hits: Seq<bool>,
        | #[trigger]
            is_kept_run(p, sentinel, inputs, values, hits) && inputs[0] == i && count_true(hits)
                <= n && stops(p, sentinel, inputs.last(), values, count_true(hits) == n, r);
        lemma_run_monotone(p, q, inputs, values);
        assert(is_kept_run(q, sentinel, inputs, values, hits));
        assert(stops(q, sentinel, inputs.last(), values, count_true(hits) == n, r));
    }
}

/// [`many_until_nth`] applied to `i`.
pub(crate) fn apply_many_until_nth<'a, O, F>(f: &F, v: &O, n: usize, i: &'a [u8]) -> (r: IResult<
    'a,
    Vec<O>,
>) where O: PartialEq, F: Fn(&'a [u8]) -> IResult<'a, O>
    requires
        total(*f),
    ensures
        many_until_nth_spec(outcomes(*f), *v, n)(i, r),
{
    let mut res: Vec<O> = Vec::new();
    let mut input = i;
    let mut seen: usize = 0;
    let ghost mut inputs: Seq<&'a [u8]> = seq![i];
    let ghost mut hits: Seq<bool> = Seq::empty();
    loop
        invariant
            total(*f),
            is_kept_run(outcomes(*f), *v, inputs, res@, hits),
            inputs[0] == i,
            inputs.last() == input,
            seen == count_true(hits),
            seen <= n,
        decreases n - seen, input@.len(),
    {
        match f(input) {
            Ok((rest, val)) => {
                let hit = val == *v;
                assert(outcomes(*f)(input, success(rest, val)) && compares(val, *v, hit));
                if hit {
                    if seen < n {
                        seen += 1;
                    } else {
                        return Ok((rest, res));
                    }
                } else {
                    if rest.len() >= input.len() {
                        return Err(ParseError { kind: ErrorKind::SentinelNotFound, input });
                    }
                }
                proof {
                    lemma_count_true_push(hits, hit);
                    inputs = inputs.push(rest);
                    hits = hits.push(hit);
                }
                res.push(val);
                input = rest;
            },
            Err(e) => {
                return Err(e);
            },
        }
    }
}

/// [`many_until`] applied to `i`.
pub(crate) fn apply_many_until<'a, O, F>(f: &F, v: &O, i: &'a [u8]) -> (r: IResult<
    'a,
    Vec<O>,
>) where O: PartialEq, F: Fn(&'a [u8]) -> IResult<'a, O>

    requires
        total(*f),
    ensures
        many_until_spec(outcomes(*f), *v)(i, r),
{
    let mut res: Vec<O> = Vec::new();
    let mut input = i;
    let ghost mut inputs: Seq<&'a [u8]> = seq![i];
    let ghost mut hits: Seq<bool> = Seq::empty();
    loop
        invariant
            total(*f),
            is_kept_run(outcomes(*f), *v, inputs, res@, hits),
            inputs[0] == i,
            inputs.last() == input,
            count_true(hits) == 0,
        decreases input@.len(),
    {
        match f(input) {
            Ok((rest, val)) => {
                let hit = val == *v;
                assert(outcomes(*f)(input, success(rest, val)) && compares(val, *v, hit));
                if hit {
                    return Ok((rest, res));
                } else {
                    if rest.len() >= input.len() {
                        return Err(ParseError { kind: ErrorKind::SentinelNotFound, input });
                    }
                    proof {
                        lemma_count_true_push(hits, hit);
                        inputs = inputs.push(rest);
                        hits = hits.push(hit);
                    }
                    res.push(val);
                    input = rest;
                }
            },
            Err(e) => {
                return Err(e);
            },
        }
    }
}

/// The parser that applies `f` again and again, each time to what the last
/// application left, and keeps the values in order until one equals `v`. That
/// one is dropped, and the parser leaves what follows it. The first failure of
/// `f` is the failure of the whole. A value other than `v` that leaves the
/// input no shorter fails with `SentinelNotFound`: from there `v` cannot be
/// reached.
pub fn many_until<'a, O, F>(f: F, v: O) -> (g: impl Fn(&'a [u8]) -> IResult<'a, Vec<O>>) where
    O: PartialEq,
    F: Fn(&'a [u8]) -> IResult<'a, O>,

    requires
        total(f),
    ensures
        refines(g, many_until_spec(outcomes(f), v)),
{
    move |i: &'a [u8]| -> (r: IResult<'a, Vec<O>>)
        ensures
            many_until_spec(outcomes(f), v)(i, r),
        { apply_many_until(&f, &v, i) }
}

/// As [`many_until`], but the first `occurance` values that equal `v` are
/// kept like any other: the parser ends at the next one.
pub fn many_until_nth<'a, O, F>(f: F, v: O, occurance: usize) -> (g: impl Fn(&'a [u8]) -> IResult<
    'a,
    Vec<O>,
>) where O: PartialEq, F: Fn(&'a [u8]) -> IResult<'a, O>
    requires
        total(f),
    ensures
        refines(g, many_until_nth_spec(outcomes(f), v, occurance)),
{
    move |i: &'a [u8]| -> (r: IResult<'a, Vec<O>>)
        ensures
            many_until_nth_spec(outcomes(f), v, occurance)(i, r),
        { apply_many_until_nth(&f, &v, occurance, i) }
}

} // verus!
