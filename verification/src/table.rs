//! Following many offsets: an array of them, one for each element, or one
//! offset to a run of elements whose number stands before it.

use crate::error::ParseError;
use crate::number::{
    apply_usize, lemma_u32_usize, lemma_usize_monotone, u32, u32_spec, u32_value, usize_spec,
    Endianness,
};
use crate::offset::{
    apply_at_offset, apply_offset_read_then, at_offset_spec, lemma_at_offset_monotone,
    lemma_offset_read_then_monotone, offset_read_then_spec,
};
use crate::parser::{
    failed, included, is_run, lemma_refines_weaken, lemma_run_monotone, outcomes, refines,
    success, total, IResult, Outcomes,
};
use vstd::prelude::*;

verus! {

/// A parser with outcomes `p` applied `n` times in a row. It succeeds where
/// all `n` applications do, leaving what the last one left and giving their
/// values in order. Otherwise its failure is that of the first application
/// that fails.
pub open spec fn count_spec<'a, O>(p: Outcomes<'a, O>, n: usize) -> Outcomes<'a, Vec<O>> {
    |i: &'a [u8], r: IResult<'a, Vec<O>>|
        match r {
            Ok((rest, out)) => out@.len() == n && exists|inputs: Seq<&'a [u8]>| #[trigger]
                is_run(p, inputs, out@) && inputs[0] == i && inputs[n as int] == rest,
            Err(e) => exists|inputs: Seq<&'a [u8]>, values: Seq<O>| #[trigger]
                is_run(p, inputs, values) && values.len() < n && inputs[0] == i && p(
                    inputs.last(),
                    failed::<O>(e),
                ),
        }
}

/// A parser with outcomes `p` applied to the buffer `i0` at each offset of
/// `offsets`, in their order. It succeeds where the parser does at every
/// offset, and gives their values in the order of the offsets. Otherwise its
/// failure is that of the first offset at which [`at_offset_spec`] fails.
pub open spec fn each_at_spec<'a, O>(
    i0: &'a [u8],
    p: Outcomes<'a, O>,
    offsets: Seq<usize>,
    r: Result<Vec<O>, ParseError<'a>>,
) -> bool {
    match r {
        Ok(out) => out@.len() == offsets.len() && forall|k: int|
            0 <= k < offsets.len() ==> at_offset_spec(offsets[k], p)(
                i0,
                success(i0, #[trigger] out@[k]),
            ),
        Err(e) => exists|values: Seq<O>|
            values.len() < offsets.len() && (forall|k: int|
                0 <= k < values.len() ==> at_offset_spec(offsets[k], p)(
                    i0,
                    success(i0, #[trigger] values[k]),
                )) && #[trigger] at_offset_spec(offsets[values.len() as int], p)(
                i0,
                failed::<O>(e),
            ),
    }
}

/// What [`offset_read_table`] makes of an offset reader with outcomes `pr` and
/// a parser with outcomes `p`. First the reader is applied `cnt` times in a
/// row, each number narrowed to an index: a failure there is the outcome.
/// Then `p` is applied at each of those offsets of `i0` as [`each_at_spec`]
/// says. A success leaves what the last reader left.
pub open spec fn offset_read_table_spec<'a, O, U: TryInto<usize>>(
    i0: &'a [u8],
    pr: Outcomes<'a, U>,
    p: Outcomes<'a, O>,
    cnt: usize,
) -> Outcomes<'a, Vec<O>> {
    |i: &'a [u8], r: IResult<'a, Vec<O>>|
        exists|r1: IResult<'a, Vec<usize>>| #[trigger]
            count_spec(usize_spec(pr), cnt)(i, r1) && match r1 {
                Ok((i1, offsets)) => match r {
                    Ok((rest, out)) => rest == i1 && each_at_spec(i0, p, offsets@, Ok(out)),
                    Err(e) => each_at_spec(i0, p, offsets@, Err(e)),
                },
                Err(e) => r == failed::<Vec<O>>(e),
            }
}

/// What [`offset_table`] makes of a parser with outcomes `p`: as
/// [`offset_read_table_spec`], each offset being an unsigned 32-bit number in
/// the byte order `endian`.
pub open spec fn offset_table_spec<'a, O>(
    i0: &'a [u8],
    p: Outcomes<'a, O>,
    cnt: usize,
    endian: Endianness,
) -> Outcomes<'a, Vec<O>> {
    offset_read_table_spec(i0, u32_spec(endian), p, cnt)
}

/// What [`count_then_offset`] makes of a reader with outcomes `pr` and a
/// parser with outcomes `p`. The reader is applied to the cursor and the
/// number it read is narrowed to a count; a failure of either is the outcome.
/// What follows is [`offset_read_then_spec`] on what the reader left, with
/// the same reader for the offset and, at the offset, `p` applied that many
/// times in a row.
pub open spec fn count_then_offset_spec<'a, O, U: TryInto<usize>>(
    i0: &'a [u8],
    pr: Outcomes<'a, U>,
    p: Outcomes<'a, O>,
) -> Outcomes<'a, Vec<O>> {
    |i: &'a [u8], r: IResult<'a, Vec<O>>|
        exists|r1: IResult<'a, usize>| #[trigger]
            usize_spec(pr)(i, r1) && match r1 {
                Ok((i1, cnt)) => offset_read_then_spec(i0, pr, count_spec(p, cnt))(i1, r),
                Err(e) => r == failed::<Vec<O>>(e),
            }
}

/// [`count_spec`] keeps inclusion.
pub proof fn lemma_count_monotone<'a, O>(p: Outcomes<'a, O>, q: Outcomes<'a, O>, n: usize)
    requires
        included(p, q),
    ensures
        included(count_spec(p, n), count_spec(q, n)),
{
    assert forall|i: &'a [u8], r: IResult<'a, Vec<O>>| #[trigger]
        count_spec(p, n)(i, r) implies count_spec(q, n)(i, r) by {
        match r {
            Ok((rest, out)) => {
                let inputs = choose|inputs: Seq<&'a [u8]>| #[trigger]
                    is_run(p, inputs, out@) && inputs[0] == i && inputs[n as int] == rest;
                lemma_run_monotone(p, q, inputs, out@);
            },
            Err(e) => {
                let (inputs, values) = choose|inputs: Seq<&'a [u8]>, values: Seq<O>| #[trigger]
                    is_run(p, inputs, values) && values.len() < n && inputs[0] == i && p(
                        inputs.last(),
                        failed::<O>(e),
                    );
                lemma_run_monotone(p, q, inputs, values);
            },
        }
    }
}

/// [`each_at_spec`] keeps inclusion.
pub proof fn lemma_each_at_monotone<'a, O>(
    i0: &'a [u8],
    p: Outcomes<'a, O>,
    q: Outcomes<'a, O>,
    offsets: Seq<usize>,
    r: Result<Vec<O>, ParseError<'a>>,
)
    requires
        included(p, q),
        each_at_spec(i0, p, offsets, r),
    ensures
        each_at_spec(i0, q, offsets, r),
{
    assert forall|k: int| 0 <= k < offsets.len() implies included(
        at_offset_spec(#[trigger] offsets[k], p),
        at_offset_spec(offsets[k], q),
    ) by {
        lemma_at_offset_monotone(offsets[k], p, q);
    }
    match r {
        Ok(out) => {
            assert forall|k: int| 0 <= k < offsets.len() implies at_offset_spec(offsets[k], q)(
                i0,
                success(i0, #[trigger] out@[k]),
            ) by {
                assert(at_offset_spec(offsets[k], p)(i0, success(i0, out@[k])));
            }
        },
        Err(e) => {
            let values = choose|values: Seq<O>|
                values.len() < offsets.len() && (forall|k: int|
                    0 <= k < values.len() ==> at_offset_spec(offsets[k], p)(
                        i0,
                        success(i0, #[trigger] values[k]),
                    )) && #[trigger] at_offset_spec(offsets[values.len() as int], p)(
                    i0,
                    failed::<O>(e),
                );
            assert forall|k: int| 0 <= k < values.len() implies at_offset_spec(offsets[k], q)(
                i0,
                success(i0, #[trigger] values[k]),
            ) by {
                assert(at_offset_spec(offsets[k], p)(i0, success(i0, values[k])));
            }
            assert(at_offset_spec(offsets[values.len() as int], q)(i0, failed::<O>(e)));
        },
    }
}

/// [`offset_read_table_spec`] keeps inclusion, in the reader and in the
/// parser.
pub proof fn lemma_offset_read_table_monotone<'a, O, U: TryInto<usize>>(
    i0: &'a [u8],
    pr: Outcomes<'a, U>,
    qr: Outcomes<'a, U>,
    p: Outcomes<'a, O>,
    q: Outcomes<'a, O>,
    cnt: usize,
)
    requires
        included(pr, qr),
        included(p, q),
    ensures
        included(offset_read_table_spec(i0, pr, p, cnt), offset_read_table_spec(i0, qr, q, cnt)),
{
    lemma_usize_monotone(pr, qr);
    lemma_count_monotone(usize_spec(pr), usize_spec(qr), cnt);
    assert forall|i: &'a [u8], r: IResult<'a, Vec<O>>| #[trigger]
        offset_read_table_spec(i0, pr, p, cnt)(i, r) implies offset_read_table_spec(
        i0,
        qr,
        q,
        cnt,
    )(i, r) by {
        let r1 = choose|r1: IResult<'a, Vec<usize>>| #[trigger]
            count_spec(usize_spec(pr), cnt)(i, r1) && match r1 {
                Ok((i1, offsets)) => match r {
                    Ok((rest, out)) => rest == i1 && each_at_spec(i0, p, offsets@, Ok(out)),
                    Err(e) => each_at_spec(i0, p, offsets@, Err(e)),
                },
                Err(e) => r == failed::<Vec<O>>(e),
            };
        assert(count_spec(usize_spec(qr), cnt)(i, r1));
        if let Ok((i1, offsets)) = r1 {
            match r {
                Ok((rest, out)) => lemma_each_at_monotone(i0, p, q, offsets@, Ok(out)),
                Err(e) => lemma_each_at_monotone(i0, p, q, offsets@, Err(e)),
            }
        }
    }
}

/// [`count_then_offset_spec`] keeps inclusion, in the reader and in the
/// parser.
pub proof fn lemma_count_then_offset_monotone<'a, O, U: TryInto<usize>>(
    i0: &'a [u8],
    pr: Outcomes<'a, U>,
    qr: Outcomes<'a, U>,
    p: Outcomes<'a, O>,
    q: Outcomes<'a, O>,
)
    requires
        included(pr, qr),
        included(p, q),
    ensures
        included(count_then_offset_spec(i0, pr, p), count_then_offset_spec(i0, qr, q)),
{
    lemma_usize_monotone(pr, qr);
    assert forall|i: &'a [u8], r: IResult<'a, Vec<O>>| #[trigger]
        count_then_offset_spec(i0, pr, p)(i, r) implies count_then_offset_spec(i0, qr, q)(
        i,
        r,
    ) by {
        let r1 = choose|r1: IResult<'a, usize>| #[trigger]
            usize_spec(pr)(i, r1) && match r1 {
                Ok((i1, cnt)) => offset_read_then_spec(i0, pr, count_spec(p, cnt))(i1, r),
                Err(e) => r == failed::<Vec<O>>(e),
            };
        assert(usize_spec(qr)(i, r1));
        if let Ok((i1, cnt)) = r1 {
            lemma_count_monotone(p, q, cnt);
            lemma_offset_read_then_monotone(i0, pr, qr, count_spec(p, cnt), count_spec(q, cnt));
            assert(offset_read_then_spec(i0, pr, count_spec(p, cnt))(i1, r));
        }
    }
}

/// The `k`-th of the 32-bit offsets that stand in a row at the front of `b`.
pub open spec fn pointer(endian: Endianness, b: Seq<u8>, k: int) -> int
    recommends
        0 <= k,
        4 * k + 4 <= b.len(),
{
    u32_value(endian, b.skip(4 * k))
}

/// On the buffer `i0` from `offset` on, the parser with outcomes `p` can only
/// succeed, and only with the value `v`.
pub open spec fn payload_is<'a, O>(i0: &'a [u8], p: Outcomes<'a, O>, offset: int, v: O) -> bool {
    forall|sub: &'a [u8], r0: IResult<'a, O>|
        sub@ == i0@.skip(offset) && #[trigger] p(sub, r0) ==> r0 is Ok && r0->Ok_0.1 == v
}

/// A run of 32-bit offsets read as indices moves four bytes at a time and
/// gives the numbers that stand there.
proof fn lemma_pointer_run<'a>(
    endian: Endianness,
    i: &'a [u8],
    inputs: Seq<&'a [u8]>,
    offsets: Seq<usize>,
    k: int,
)
    requires
        is_run(usize_spec(u32_spec(endian)), inputs, offsets),
        inputs[0] == i,
        0 <= k <= offsets.len(),
    ensures
        4 * k <= i@.len(),
        inputs[k]@ == i@.skip(4 * k),
        forall|j: int| 0 <= j < k ==> #[trigger] offsets[j] as int == pointer(endian, i@, j),
    decreases k,
{
    if k > 0 {
        lemma_pointer_run(endian, i, inputs, offsets, k - 1);
        let step = success(inputs[k], offsets[k - 1]);
        assert(usize_spec(u32_spec(endian))(inputs[k - 1], step));
        lemma_u32_usize(endian, inputs[k - 1], step);
        assert(i@.skip(4 * (k - 1)).skip(4) =~= i@.skip(4 * k));
    }
}

/// A success of `offset_read_table` has read `cnt` offsets in a row and
/// gives `cnt` values in the order of the offsets: value `k` is what the
/// parser gave on the buffer from offset `k` on. The cursor is what the last
/// offset reader left, wherever in the buffer the values stand.
pub proof fn lemma_offset_read_table_success<'a, O, U: TryInto<usize>>(
    i0: &'a [u8],
    pr: Outcomes<'a, U>,
    p: Outcomes<'a, O>,
    cnt: usize,
    i: &'a [u8],
    r: IResult<'a, Vec<O>>,
)
    requires
        offset_read_table_spec(i0, pr, p, cnt)(i, r),
        r is Ok,
    ensures
        r->Ok_0.1@.len() == cnt,
        exists|inputs: Seq<&'a [u8]>, offsets: Seq<usize>| #[trigger]
            is_run(usize_spec(pr), inputs, offsets) && offsets.len() == cnt && inputs[0] == i
                && inputs[cnt as int] == r->Ok_0.0 && forall|k: int|
                0 <= k < cnt ==> at_offset_spec(offsets[k], p)(
                    i0,
                    success(i0, #[trigger] r->Ok_0.1@[k]),
                ),
{
    let r1 = choose|r1: IResult<'a, Vec<usize>>| #[trigger]
        count_spec(usize_spec(pr), cnt)(i, r1) && match r1 {
            Ok((i1, offsets)) => match r {
                Ok((rest, out)) => rest == i1 && each_at_spec(i0, p, offsets@, Ok(out)),
                Err(e) => each_at_spec(i0, p, offsets@, Err(e)),
            },
            Err(e) => r == failed::<Vec<O>>(e),
        };
    let (i1, offsets) = r1->Ok_0;
    let inputs = choose|inputs: Seq<&'a [u8]>| #[trigger]
        is_run(usize_spec(pr), inputs, offsets@) && inputs[0] == i && inputs[cnt as int] == i1;
    assert(is_run(usize_spec(pr), inputs, offsets@) && offsets@.len() == cnt);
}

/// `cnt` offsets within the buffer, each followed in the buffer by a valid
/// value: `offset_table` succeeds, gives exactly those `cnt` values in the
/// order of the offsets, and leaves the cursor `4 * cnt` bytes further,
/// wherever in the buffer the values stand.
pub proof fn lemma_offset_table_reads_all<'a, O>(
    i0: &'a [u8],
    p: Outcomes<'a, O>,
    cnt: usize,
    endian: Endianness,
    i: &'a [u8],
    values: Seq<O>,
    r: IResult<'a, Vec<O>>,
)
    requires
        4 * cnt <= i@.len(),
        values.len() == cnt,
        forall|k: int| 0 <= k < cnt ==> #[trigger] pointer(endian, i@, k) <= i0@.len(),
        forall|k: int|
            0 <= k < cnt ==> payload_is(i0, p, pointer(endian, i@, k), #[trigger] values[k]),
        offset_table_spec(i0, p, cnt, endian)(i, r),
    ensures
        r is Ok,
        r->Ok_0.0@ == i@.skip(4 * cnt),
        r->Ok_0.1@ == values,
{
    let pr = usize_spec(u32_spec(endian));
    let r1 = choose|r1: IResult<'a, Vec<usize>>| #[trigger]
        count_spec(pr, cnt)(i, r1) && match r1 {
            Ok((i1, offsets)) => match r {
                Ok((rest, out)) => rest == i1 && each_at_spec(i0, p, offsets@, Ok(out)),
                Err(e) => each_at_spec(i0, p, offsets@, Err(e)),
            },
            Err(e) => r == failed::<Vec<O>>(e),
        };
    match r1 {
        Err(e) => {
            let (inputs, read) = choose|inputs: Seq<&'a [u8]>, read: Seq<usize>| #[trigger]
                is_run(pr, inputs, read) && read.len() < cnt && inputs[0] == i && pr(
                    inputs.last(),
                    failed::<usize>(e),
                );
            lemma_pointer_run(endian, i, inputs, read, read.len() as int);
            lemma_u32_usize(endian, inputs.last(), failed::<usize>(e));
            assert(false);
        },
        Ok((i1, offsets)) => {
            let inputs = choose|inputs: Seq<&'a [u8]>| #[trigger]
                is_run(pr, inputs, offsets@) && inputs[0] == i && inputs[cnt as int] == i1;
            lemma_pointer_run(endian, i, inputs, offsets@, cnt as int);
            match r {
                Err(e) => {
                    let kept = choose|kept: Seq<O>|
                        kept.len() < offsets@.len() && (forall|k: int|
                            0 <= k < kept.len() ==> at_offset_spec(offsets@[k], p)(
                                i0,
                                success(i0, #[trigger] kept[k]),
                            )) && #[trigger] at_offset_spec(offsets@[kept.len() as int], p)(
                            i0,
                            failed::<O>(e),
                        );
                    let k = kept.len() as int;
                    assert(offsets@[k] as int == pointer(endian, i@, k));
                    assert(payload_is(i0, p, pointer(endian, i@, k), values[k]));
                    assert(false);
                },
                Ok((rest, out)) => {
                    assert forall|k: int| 0 <= k < cnt implies out@[k] == values[k] by {
                        assert(offsets@[k] as int == pointer(endian, i@, k));
                        assert(payload_is(i0, p, pointer(endian, i@, k), values[k]));
                        assert(at_offset_spec(offsets@[k], p)(i0, success(i0, out@[k])));
                    }
                    assert(out@ =~= values);
                },
            }
        },
    }
}

/// `f` applied `n` times in a row, from `i` on.
pub(crate) fn apply_count<'a, O, F>(f: &F, n: usize, i: &'a [u8]) -> (r: IResult<'a, Vec<O>>) where
    F: Fn(&'a [u8]) -> IResult<'a, O>,

    requires
        total(*f),
    ensures
        count_spec(outcomes(*f), n)(i, r),
{
    let mut input = i;
    let mut res: Vec<O> = Vec::new();
    let ghost mut inputs: Seq<&'a [u8]> = seq![i];
    let mut k: usize = 0;
    while k < n
        invariant
            total(*f),
            k <= n,
            res@.len() == k,
            is_run(outcomes(*f), inputs, res@),
            inputs[0] == i,
            inputs.last() == input,
        decreases n - k,
    {
        match f(input) {
            Ok((rest, o)) => {
                res.push(o);
                proof {
                    inputs = inputs.push(rest);
                }
                input = rest;
            },
            Err(e) => {
                return Err(e);
            },
        }
        k += 1;
    }
    let r: IResult<'a, Vec<O>> = Ok((input, res));
    assert(is_run(outcomes(*f), inputs, r->Ok_0.1@) && inputs[n as int] == r->Ok_0.0);
    r
}

/// `f` applied to `i0` at each of `offsets`, in their order.
pub(crate) fn apply_each_at<'a, O, F>(i0: &'a [u8], f: &F, offsets: &Vec<usize>) -> (r: Result<
    Vec<O>,
    ParseError<'a>,
>) where F: Fn(&'a [u8]) -> IResult<'a, O>
    requires
        total(*f),
    ensures
        each_at_spec(i0, outcomes(*f), offsets@, r),
{
    let mut res: Vec<O> = Vec::new();
    let mut k: usize = 0;
    while k < offsets.len()
        invariant
            total(*f),
            k <= offsets@.len(),
            res@.len() == k,
            forall|j: int|
                0 <= j < k ==> at_offset_spec(offsets@[j], outcomes(*f))(
                    i0,
                    success(i0, #[trigger] res@[j]),
                ),
        decreases offsets@.len() - k,
    {
        match apply_at_offset(offsets[k], f, i0) {
            Ok((_, v)) => {
                res.push(v);
            },
            Err(e) => {
                return Err(e);
            },
        }
        k += 1;
    }
    Ok(res)
}

/// [`offset_read_table`] applied to `i`.
pub(crate) fn apply_offset_read_table<'a, O, F, F1, U>(
    i0: &'a [u8],
    f1: &F1,
    f: &F,
    cnt: usize,
    i: &'a [u8],
) -> (r: IResult<'a, Vec<O>>) where
    F: Fn(&'a [u8]) -> IResult<'a, O>,
    F1: Fn(&'a [u8]) -> IResult<'a, U>,
    U: TryInto<usize>,

    requires
        total(*f1),
        total(*f),
    ensures
        offset_read_table_spec(i0, outcomes(*f1), outcomes(*f), cnt)(i, r),
{
    let index = |x: &'a [u8]| -> (n: IResult<'a, usize>)
        ensures
            usize_spec(outcomes(*f1))(x, n),
        { apply_usize(f1, x) };
    let r1 = apply_count(&index, cnt, i);
    proof {
        lemma_count_monotone(outcomes(index), usize_spec(outcomes(*f1)), cnt);
    }
    match r1 {
        Ok((i1, offsets)) => {
            match apply_each_at(i0, f, &offsets) {
                Ok(res) => Ok((i1, res)),
                Err(e) => Err(e),
            }
        },
        Err(e) => Err(e),
    }
}

/// [`count_then_offset`] applied to `i`.
pub(crate) fn apply_count_then_offset<'a, O, F, F1, U>(
    i0: &'a [u8],
    f1: &F1,
    f: &F,
    i: &'a [u8],
) -> (r: IResult<'a, Vec<O>>) where
    F: Fn(&'a [u8]) -> IResult<'a, O>,
    F1: Fn(&'a [u8]) -> IResult<'a, U>,
    U: TryInto<usize>,

    requires
        total(*f1),
        total(*f),
    ensures
        count_then_offset_spec(i0, outcomes(*f1), outcomes(*f))(i, r),
{
    match apply_usize(f1, i) {
        Ok((i1, cnt)) => {
            let run = |x: &'a [u8]| -> (n: IResult<'a, Vec<O>>)
                ensures
                    count_spec(outcomes(*f), cnt)(x, n),
                { apply_count(f, cnt, x) };
            let r = apply_offset_read_then(i0, f1, &run, i1);
            proof {
                lemma_offset_read_then_monotone(
                    i0,
                    outcomes(*f1),
                    outcomes(*f1),
                    outcomes(run),
                    count_spec(outcomes(*f), cnt),
                );
            }
            r
        },
        Err(e) => Err(e),
    }
}

/// The parser that reads `cnt` offsets in a row from its input with `f1` and
/// then applies `f` to the buffer `i0` at each of them, in their order. It
/// gives the `cnt` values in that order and leaves what the last `f1` left: the
/// cursor moves past the offsets alone. Any failure is the failure of the
/// whole, and no value is given.
pub fn offset_read_table<'a, O, F, F1, U>(i0: &'a [u8], f1: F1, f: F, cnt: usize) -> (g: impl Fn(
    &'a [u8],
) -> IResult<'a, Vec<O>>) where
    F: Fn(&'a [u8]) -> IResult<'a, O>,
    F1: Fn(&'a [u8]) -> IResult<'a, U>,
    U: TryInto<usize>,

    requires
        total(f1),
        total(f),
    ensures
        refines(g, offset_read_table_spec(i0, outcomes(f1), outcomes(f), cnt)),
{
    move |i: &'a [u8]| -> (r: IResult<'a, Vec<O>>)
        ensures
            offset_read_table_spec(i0, outcomes(f1), outcomes(f), cnt)(i, r),
        { apply_offset_read_table(i0, &f1, &f, cnt, i) }
}

/// The parser that reads a count with `f1`, then an offset with `f1`, and
/// applies `f` that many times in a row to the buffer `i0` from that offset
/// on. It gives the values in order and leaves what the second `f1` left.
pub fn count_then_offset<'a, O, F, F1, U>(i0: &'a [u8], f1: F1, f: F) -> (g: impl Fn(
    &'a [u8],
) -> IResult<'a, Vec<O>>) where
    F: Fn(&'a [u8]) -> IResult<'a, O>,
    F1: Fn(&'a [u8]) -> IResult<'a, U>,
    U: TryInto<usize>,

    requires
        total(f1),
        total(f),
    ensures
        refines(g, count_then_offset_spec(i0, outcomes(f1), outcomes(f))),
{
    move |i: &'a [u8]| -> (r: IResult<'a, Vec<O>>)
        ensures
            count_then_offset_spec(i0, outcomes(f1), outcomes(f))(i, r),
        { apply_count_then_offset(i0, &f1, &f, i) }
}

/// [`offset_read_table`] with each offset an unsigned 32-bit number in the
/// byte order `endian`.
pub fn offset_table<'a, O, F>(i0: &'a [u8], f: F, cnt: usize, endian: Endianness) -> (g: impl Fn(
    &'a [u8],
) -> IResult<'a, Vec<O>>) where F: Fn(&'a [u8]) -> IResult<'a, O>
    requires
        total(f),
    ensures
        refines(g, offset_table_spec(i0, outcomes(f), cnt, endian)),
{
    let f1 = u32(endian);
    let g = offset_read_table(i0, f1, f, cnt);
    proof {
        lemma_offset_read_table_monotone(
            i0,
            outcomes(f1),
            u32_spec(endian),
            outcomes(f),
            outcomes(f),
            cnt,
        );
        lemma_refines_weaken(
            g,
            offset_read_table_spec(i0, outcomes(f1), outcomes(f), cnt),
            offset_table_spec(i0, outcomes(f), cnt, endian),
        );
    }
    g
}

} // verus!
