//! Folding stages that follow each other into one stage.

use crate::compose::{
    answers, call_span, call_spans, compose_maps_new, is_tile, is_tiling, lemma_overlay_last, lemma_overlay_none,
    overlay_at, pair_at, Call, Yield,
};
use crate::interval::{contains, offset_range};
use crate::invert::{can_invert, inverse_at, invert_map, invertible, lemma_inverse_witness, shift_fits};
use crate::spans::{covered, covers, index_at, lemma_canonical, lemma_value_at, value_at, well_formed, Span};
use crate::stages::{entries_of_all, or_zero};
use crate::store::{all_entries, as_span, as_spans, clone_map, entries, in_range, lemma_entries_in_range};
use rangemap::RangeMap;
use std::ops::Range;
use vstd::prelude::*;

verus! {

/// The two stages can be combined within `i64`: the first can be inverted,
/// and wherever the first lands on a point that the second covers, the sum
/// of the two offsets fits.
pub open spec fn combinable(a: Seq<Span<i64>>, b: Seq<Span<i64>>) -> bool {
    &&& invertible(a)
    &&& forall|y: int|
        (#[trigger] inverse_at(a, y)) is Some && value_at(b, y) is Some ==> i64::MIN <= -inverse_at(a, y).unwrap()
            + value_at(b, y).unwrap() <= i64::MAX
}

/// The offset that the combination of the stages `a` and `b` gives to the
/// point `x`.
///
/// A point that `b` covers and on which `a` does not land keeps `b`'s
/// offset.  Any other point that `a` covers, and whose image is not taken
/// over by a later entry of `a`, gets `a`'s offset plus the offset that `b`
/// gives to its image.  No other point is covered.
pub open spec fn combined_at(a: Seq<Span<i64>>, b: Seq<Span<i64>>, x: int) -> Option<i64> {
    if value_at(b, x) is Some && inverse_at(a, x) is None {
        value_at(b, x)
    } else if value_at(a, x) is Some && inverse_at(a, x + value_at(a, x).unwrap()) == Some(
        (-value_at(a, x).unwrap()) as i64,
    ) {
        Some((value_at(a, x).unwrap() + or_zero(value_at(b, x + value_at(a, x).unwrap()))) as i64)
    } else {
        None
    }
}

/// `combined` is the combination of the stages `a` and `b`, as a
/// well-formed map.
pub open spec fn is_combined(a: Seq<Span<i64>>, b: Seq<Span<i64>>, combined: Seq<Span<i64>>) -> bool {
    &&& well_formed(combined)
    &&& forall|x: int| #[trigger] value_at(combined, x) == combined_at(a, b, x)
}

/// The zipper of the stage combiner can work on the tile within `i64`.
pub open spec fn stage_zip_fits(r: Range<i64>, left: Option<i64>, right: Option<i64>) -> bool {
    &&& i64::MIN <= r.start + or_zero(left) <= i64::MAX
    &&& i64::MIN <= r.end + or_zero(left) <= i64::MAX
    &&& or_zero(left) > i64::MIN
    &&& i64::MIN <= -or_zero(left) + or_zero(right) <= i64::MAX
}

/// What the zipper of the stage combiner returns for a tile: the tile moved
/// back by the inverse's offset, with the sum of the two stages' offsets.
pub open spec fn stage_zip(r: Range<i64>, left: Option<i64>, right: Option<i64>) -> Yield {
    Some(
        (
            Range { start: (r.start + or_zero(left)) as i64, end: (r.end + or_zero(left)) as i64 },
            (-or_zero(left) + or_zero(right)) as i64,
        ),
    )
}

/// On an interval where the inverse of `a` and `b` are constant, the
/// zipper of the stage combiner stays within `i64`.
proof fn lemma_stage_zip_fits(
    a: Seq<Span<i64>>,
    inv: Seq<Span<i64>>,
    b: Seq<Span<i64>>,
    r: Range<i64>,
    left: Option<i64>,
    right: Option<i64>,
)
    requires
        in_range(a),
        combinable(a, b),
        forall|y: int| #[trigger] value_at(inv, y) == inverse_at(a, y),
        r.start < r.end,
        forall|y: int| r.start <= y < r.end ==> #[trigger] pair_at(inv, b, y) == (left, right),
    ensures
        stage_zip_fits(r, left, right),
{
    let first = r.start as int;
    let last = r.end - 1;
    assert(pair_at(inv, b, first) == (left, right));
    assert(pair_at(inv, b, last) == (left, right));
    assert(value_at(inv, first) == inverse_at(a, first));
    assert(value_at(inv, last) == inverse_at(a, last));
    if left is Some {
        let i = lemma_inverse_witness(a, first);
        let j = lemma_inverse_witness(a, last);
        assert(shift_fits(a[i]));
        assert(shift_fits(a[j]));
    }
}

/// `outs` lists what the zipper of the stage combiner returns for `calls`.
spec fn stage_zipped(calls: Seq<Call>, outs: Seq<Yield>) -> bool {
    &&& outs.len() == calls.len()
    &&& forall|i: int| 0 <= i < calls.len() ==> #[trigger] outs[i] == stage_zip(calls[i].0, calls[i].1, calls[i].2)
}

/// What the stage combiner inserts for tile `i` of the points on which `a`
/// lands: the tile moved back to where it came from, with both offsets.
proof fn lemma_left_out(
    a: Seq<Span<i64>>,
    inv: Seq<Span<i64>>,
    b: Seq<Span<i64>>,
    left: Seq<Call>,
    right: Seq<Call>,
    outs: Seq<Yield>,
    i: int,
)
    requires
        in_range(a),
        combinable(a, b),
        forall|y: int| #[trigger] value_at(inv, y) == inverse_at(a, y),
        is_tiling(inv, b, left, right),
        stage_zipped(left + right, outs),
        0 <= i < left.len(),
    ensures
        left[i].0.start < left[i].0.end,
        left[i].1 is Some,
        forall|y: int|
            left[i].0.start <= y < left[i].0.end ==> #[trigger] inverse_at(a, y) == left[i].1 && value_at(b, y)
                == left[i].2,
        outs[i] is Some,
        outs[i].unwrap().0.start == left[i].0.start + left[i].1.unwrap(),
        outs[i].unwrap().0.end == left[i].0.end + left[i].1.unwrap(),
        outs[i].unwrap().1 == -left[i].1.unwrap() + or_zero(left[i].2),
{
    let spans = call_spans(left);
    let c = left[i];
    assert(spans[i] == call_span(c));
    assert(spans[i].0 < spans[i].1);
    assert forall|y: int| c.0.start <= y < c.0.end implies #[trigger] pair_at(inv, b, y) == (c.1, c.2) by {
        assert(covers(spans, i, y));
        lemma_value_at(spans, i, y);
        assert(value_at(spans, y) == if covered(inv, y) {
            Some(pair_at(inv, b, y))
        } else {
            None
        });
    }
    assert(c.1 is Some) by {
        let y = c.0.start as int;
        assert(covers(spans, i, y));
        lemma_value_at(spans, i, y);
        assert(value_at(spans, y) == if covered(inv, y) {
            Some(pair_at(inv, b, y))
        } else {
            None
        });
    }
    assert forall|y: int| c.0.start <= y < c.0.end implies #[trigger] inverse_at(a, y) == c.1 && value_at(b, y)
        == c.2 by {
        assert(pair_at(inv, b, y) == (c.1, c.2));
        assert(value_at(inv, y) == inverse_at(a, y));
    }
    lemma_stage_zip_fits(a, inv, b, c.0, c.1, c.2);
    assert((left + right)[i] == c);
    assert(outs[i] == stage_zip(c.0, c.1, c.2));
}

/// What the stage combiner inserts for tile `j` of the points that only
/// `b` covers: the tile as it is, with `b`'s offset.
proof fn lemma_right_out(
    a: Seq<Span<i64>>,
    inv: Seq<Span<i64>>,
    b: Seq<Span<i64>>,
    left: Seq<Call>,
    right: Seq<Call>,
    outs: Seq<Yield>,
    j: int,
)
    requires
        forall|y: int| #[trigger] value_at(inv, y) == inverse_at(a, y),
        is_tiling(inv, b, left, right),
        stage_zipped(left + right, outs),
        0 <= j < right.len(),
    ensures
        right[j].0.start < right[j].0.end,
        right[j].1 is None,
        right[j].2 is Some,
        forall|y: int|
            right[j].0.start <= y < right[j].0.end ==> #[trigger] inverse_at(a, y) is None && value_at(b, y)
                == right[j].2,
        outs[left.len() + j] is Some,
        outs[left.len() + j].unwrap().0.start == right[j].0.start,
        outs[left.len() + j].unwrap().0.end == right[j].0.end,
        outs[left.len() + j].unwrap().1 == right[j].2.unwrap(),
{
    let spans = call_spans(right);
    let c = right[j];
    assert(spans[j] == call_span(c));
    assert(spans[j].0 < spans[j].1);
    assert forall|y: int| c.0.start <= y < c.0.end implies #[trigger] inverse_at(a, y) is None && value_at(b, y)
        == c.2 && c.1 is None && c.2 is Some by {
        assert(covers(spans, j, y));
        lemma_value_at(spans, j, y);
        assert(value_at(spans, y) == if !covered(inv, y) && covered(b, y) {
            Some(pair_at(inv, b, y))
        } else {
            None
        });
        assert(value_at(inv, y) == inverse_at(a, y));
    }
    assert(inverse_at(a, c.0.start as int) is None);
    assert((left + right)[left.len() + j] == c);
    assert(outs[left.len() + j] == stage_zip(c.0, c.1, c.2));
}

/// Point by point, what the stage combiner has inserted is the combination
/// of the two stages.
proof fn lemma_combined_at(
    a: Seq<Span<i64>>,
    inv: Seq<Span<i64>>,
    b: Seq<Span<i64>>,
    left: Seq<Call>,
    right: Seq<Call>,
    outs: Seq<Yield>,
    x: int,
)
    requires
        well_formed(a),
        in_range(a),
        combinable(a, b),
        forall|y: int| #[trigger] value_at(inv, y) == inverse_at(a, y),
        is_tiling(inv, b, left, right),
        stage_zipped(left + right, outs),
    ensures
        overlay_at(outs, x) == combined_at(a, b, x),
{
    let n = left.len() as int;
    let ls = call_spans(left);
    let rs = call_spans(right);
    assert(value_at(inv, x) == inverse_at(a, x));
    assert(value_at(rs, x) == if !covered(inv, x) && covered(b, x) {
        Some(pair_at(inv, b, x))
    } else {
        None
    });
    // a pair that comes from a tile on which `a` lands covers `x` only if
    // the tile holds the image of `x`
    assert forall|i: int| 0 <= i < n && (#[trigger] outs[i]) is Some && contains(outs[i].unwrap().0, x) implies {
        &&& value_at(a, x) is Some
        &&& inverse_at(a, x + value_at(a, x).unwrap()) == Some((-value_at(a, x).unwrap()) as i64)
        &&& left[i].0.start <= x + value_at(a, x).unwrap() < left[i].0.end
    } by {
        lemma_left_out(a, inv, b, left, right, outs, i);
        let l0 = left[i].1.unwrap();
        let y = x - l0;
        assert(inverse_at(a, y) == left[i].1);
        let k = lemma_inverse_witness(a, y);
        assert(shift_fits(a[k]));
        assert(covers(a, k, x));
        lemma_value_at(a, k, x);
    }
    if value_at(b, x) is Some && inverse_at(a, x) is None {
        let j = index_at(rs, x);
        assert(covers(rs, j, x));
        assert(rs[j] == call_span(right[j]));
        lemma_right_out(a, inv, b, left, right, outs, j);
        assert forall|m: int| n + j < m < outs.len() implies !((#[trigger] outs[m]) is Some && contains(
            outs[m].unwrap().0,
            x,
        )) by {
            let j2 = m - n;
            lemma_right_out(a, inv, b, left, right, outs, j2);
            assert(rs[j2] == call_span(right[j2]));
            assert(rs[j].1 <= rs[j2].0);
        }
        lemma_overlay_last(outs, x, n + j);
    } else {
        assert forall|m: int| n <= m < outs.len() implies !((#[trigger] outs[m]) is Some && contains(
            outs[m].unwrap().0,
            x,
        )) by {
            let j2 = m - n;
            lemma_right_out(a, inv, b, left, right, outs, j2);
            if contains(outs[m].unwrap().0, x) {
                assert(inverse_at(a, x) is None && value_at(b, x) == right[j2].2);
            }
        }
        if value_at(a, x) is Some && inverse_at(a, x + value_at(a, x).unwrap()) == Some(
            (-value_at(a, x).unwrap()) as i64,
        ) {
            let d = value_at(a, x).unwrap();
            let y = x + d;
            let k = index_at(a, x);
            assert(covers(a, k, x));
            lemma_value_at(a, k, x);
            assert(shift_fits(a[k]));
            assert(value_at(inv, y) == inverse_at(a, y));
            assert(value_at(ls, y) == if covered(inv, y) {
                Some(pair_at(inv, b, y))
            } else {
                None
            });
            let i = index_at(ls, y);
            assert(covers(ls, i, y));
            assert(ls[i] == call_span(left[i]));
            lemma_left_out(a, inv, b, left, right, outs, i);
            assert(inverse_at(a, y) == left[i].1);
            assert(contains(outs[i].unwrap().0, x));
            assert forall|m: int| i < m < outs.len() implies !((#[trigger] outs[m]) is Some && contains(
                outs[m].unwrap().0,
                x,
            )) by {
                if m < n && outs[m] is Some && contains(outs[m].unwrap().0, x) {
                    assert(ls[m] == call_span(left[m]));
                    assert(ls[i].1 <= ls[m].0);
                }
            }
            lemma_overlay_last(outs, x, i);
        } else {
            lemma_overlay_none(outs, x);
        }
    }
}

/// Whether the two stages can be combined within `i64`.
pub fn can_combine(map1: &RangeMap<i64, i64>, map2: &RangeMap<i64, i64>) -> (ok: bool)
    ensures
        ok == combinable(entries(*map1), entries(*map2)),
{
    if !can_invert(map1) {
        return false;
    }
    let inverse = invert_map(map1);
    let landed = all_entries(&inverse);
    let second = all_entries(map2);
    let ghost a = entries(*map1);
    let ghost inv = entries(inverse);
    let ghost b = entries(*map2);
    let mut j: usize = 0;
    while j < landed.len()
        invariant
            j <= landed.len(),
            a == entries(*map1),
            b == entries(*map2),
            invertible(a),
            as_spans(landed@) == inv,
            as_spans(second@) == b,
            well_formed(inv),
            well_formed(b),
            forall|y: int| #[trigger] value_at(inv, y) == inverse_at(a, y),
            forall|m: int, k: int, y: int|
                0 <= m < j && 0 <= k < b.len() && #[trigger] covers(inv, m, y) && #[trigger] covers(b, k, y)
                    ==> i64::MIN <= -inv[m].2 + b[k].2 <= i64::MAX,
        decreases landed.len() - j,
    {
        let start = landed[j].0.start;
        let end = landed[j].0.end;
        let back = landed[j].1;
        proof {
            assert(inv[j as int] == as_span(landed@[j as int]));
        }
        let mut k: usize = 0;
        while k < second.len()
            invariant
                k <= second.len(),
                j < landed.len(),
                a == entries(*map1),
                b == entries(*map2),
                invertible(a),
                as_spans(landed@) == inv,
                as_spans(second@) == b,
                well_formed(inv),
                well_formed(b),
                forall|y: int| #[trigger] value_at(inv, y) == inverse_at(a, y),
                inv[j as int] == (start as int, end as int, back),
                forall|n: int, y: int|
                    0 <= n < k && covers(inv, j as int, y) && #[trigger] covers(b, n, y) ==> i64::MIN <= -back + b[n].2
                        <= i64::MAX,
            decreases second.len() - k,
        {
            let other = &second[k].0;
            let forth = second[k].1;
            proof {
                assert(b[k as int] == as_span(second@[k as int]));
            }
            let sum: i128 = -(back as i128) + (forth as i128);
            if start < other.end && other.start < end && (sum < (i64::MIN as i128) || sum > (i64::MAX as i128)) {
                proof {
                    let y: int = if start >= other.start {
                        start as int
                    } else {
                        other.start as int
                    };
                    assert(inv[j as int].0 < inv[j as int].1);
                    assert(b[k as int].0 < b[k as int].1);
                    assert(covers(inv, j as int, y));
                    assert(covers(b, k as int, y));
                    lemma_value_at(inv, j as int, y);
                    lemma_value_at(b, k as int, y);
                    assert(value_at(inv, y) == inverse_at(a, y));
                    assert(!combinable(a, b));
                }
                return false;
            }
            k = k + 1;
        }
        j = j + 1;
    }
    proof {
        assert forall|y: int| (#[trigger] inverse_at(a, y)) is Some && value_at(b, y) is Some implies i64::MIN
            <= -inverse_at(a, y).unwrap() + value_at(b, y).unwrap() <= i64::MAX by {
            assert(value_at(inv, y) == inverse_at(a, y));
            let m = index_at(inv, y);
            let k = index_at(b, y);
            assert(covers(inv, m, y));
            assert(covers(b, k, y));
            lemma_value_at(inv, m, y);
            lemma_value_at(b, k, y);
        }
    }
    true
}

/// Folds two stages into one.
///
/// The inverse of `map1` is composed with `map2` over the points between the
/// two stages.  A tile on which `map1` lands is moved back to where `map1`
/// took it from, and carries the sum of the two offsets; a tile on which
/// `map1` does not land stays where it is and keeps `map2`'s offset.  What
/// [`combined_at`] says of a point is what the result holds there.  Where
/// `map1` is one to one and lands on the very points that it covers, that is
/// the offset of going through `map1` and then through `map2`.
///
/// The two stages have to be combinable within `i64`.
pub fn combine_stages(map1: RangeMap<i64, i64>, map2: RangeMap<i64, i64>) -> (combined: RangeMap<i64, i64>)
    requires
        combinable(entries(map1), entries(map2)),
    ensures
        is_combined(entries(map1), entries(map2), entries(combined)),
{
    let map1_inv = invert_map(&map1);
    let ghost a = entries(map1);
    let ghost inv = entries(map1_inv);
    let ghost b = entries(map2);
    let zipper = |r: Range<i64>, x1: Option<i64>, x2: Option<i64>| -> (out: Yield)
        requires
            stage_zip_fits(r, x1, x2),
        ensures
            out == stage_zip(r, x1, x2),
        {
            let d1: i64 = match x1 {
                Some(d) => d,
                None => 0,
            };
            let d2: i64 = match x2 {
                Some(d) => d,
                None => 0,
            };
            // the inverse's offset points backwards
            let delta = -d1 + d2;
            let range = offset_range(r, d1);
            Some((range, delta))
        };
    proof {
        lemma_entries_in_range(map1);
        assert forall|r: Range<i64>, left: Option<i64>, right: Option<i64>|
            is_tile(inv, b, r.start as int, r.end as int, left, right) implies #[trigger] zipper.requires(
            (r, left, right),
        ) by {
            lemma_stage_zip_fits(a, inv, b, r, left, right);
        }
        assert forall|r: Range<i64>, left: Option<i64>, right: Option<i64>, out: Yield|
            is_tile(inv, b, r.start as int, r.end as int, left, right) && #[trigger] zipper.ensures(
                (r, left, right),
                out,
            ) && out is Some implies out.unwrap().0.start < out.unwrap().0.end by {
            lemma_stage_zip_fits(a, inv, b, r, left, right);
        }
    }
    let combined = compose_maps_new(zipper, &map1_inv, &map2);
    proof {
        let (left, right, outs) = choose|left: Seq<Call>, right: Seq<Call>, outs: Seq<Yield>|
            {
                &&& is_tiling(inv, b, left, right)
                &&& #[trigger] answers(zipper, left + right, outs)
                &&& forall|x: int| #[trigger] value_at(entries(combined), x) == overlay_at(outs, x)
            };
        assert forall|i: int| 0 <= i < (left + right).len() implies #[trigger] outs[i] == stage_zip(
            (left + right)[i].0,
            (left + right)[i].1,
            (left + right)[i].2,
        ) by {
            assert(zipper.ensures((left + right)[i], outs[i]));
        }
        assert forall|x: int| #[trigger] value_at(entries(combined), x) == combined_at(a, b, x) by {
            lemma_combined_at(a, inv, b, left, right, outs, x);
        }
    }
    combined
}

/// `folded` is the stages folded into one, from the first on: the one
/// stage where there is one, else the combination of the fold of all but
/// the last with the last.
pub open spec fn is_folded(stages: Seq<Seq<Span<i64>>>, folded: Seq<Span<i64>>) -> bool
    decreases stages.len(),
{
    if stages.len() == 0 {
        false
    } else if stages.len() == 1 {
        folded == stages[0]
    } else {
        exists|before: Seq<Span<i64>>|
            {
                &&& is_folded(stages.drop_last(), before)
                &&& #[trigger] is_combined(before, stages.last(), folded)
            }
    }
}

/// Every step of folding the stages can be taken within `i64`.
pub open spec fn foldable(stages: Seq<Seq<Span<i64>>>) -> bool
    decreases stages.len(),
{
    if stages.len() <= 1 {
        true
    } else {
        &&& foldable(stages.drop_last())
        &&& forall|before: Seq<Span<i64>>| #[trigger]
            is_folded(stages.drop_last(), before) ==> combinable(before, stages.last())
    }
}

/// Where the stages can be folded, so can the first `n` of them.
pub proof fn lemma_foldable_prefix(stages: Seq<Seq<Span<i64>>>, n: int)
    requires
        foldable(stages),
        0 <= n <= stages.len(),
    ensures
        foldable(stages.take(n)),
    decreases stages.len() - n,
{
    if n == stages.len() {
        assert(stages.take(n) =~= stages);
    } else {
        lemma_foldable_prefix(stages, n + 1);
        assert(stages.take(n + 1).drop_last() =~= stages.take(n));
    }
}

/// The stages fold into one map only.
pub proof fn lemma_folded_unique(stages: Seq<Seq<Span<i64>>>, p: Seq<Span<i64>>, q: Seq<Span<i64>>)
    requires
        is_folded(stages, p),
        is_folded(stages, q),
    ensures
        p == q,
    decreases stages.len(),
{
    if stages.len() > 1 {
        let rest = stages.drop_last();
        let bp = choose|b: Seq<Span<i64>>| is_folded(rest, b) && #[trigger] is_combined(b, stages.last(), p);
        let bq = choose|b: Seq<Span<i64>>| is_folded(rest, b) && #[trigger] is_combined(b, stages.last(), q);
        lemma_folded_unique(rest, bp, bq);
        assert forall|x: int| #[trigger] value_at(p, x) == value_at(q, x) by {
            assert(value_at(p, x) == combined_at(bp, stages.last(), x));
            assert(value_at(q, x) == combined_at(bq, stages.last(), x));
        }
        lemma_canonical(p, q);
    }
}

/// Folds the stages into one, from the first on.
///
/// Returns `None` where there is no stage, and where a step cannot be taken
/// within `i64`.
pub fn fold_stages(stages: &Vec<RangeMap<i64, i64>>) -> (folded: Option<RangeMap<i64, i64>>)
    ensures
        folded is Some <==> stages@.len() > 0 && foldable(entries_of_all(stages@)),
        folded is Some ==> well_formed(entries(folded.unwrap())),
        folded is Some ==> is_folded(entries_of_all(stages@), entries(folded.unwrap())),
{
    if stages.len() == 0 {
        return None;
    }
    let ghost all = entries_of_all(stages@);
    let mut folded = clone_map(&stages[0]);
    let mut i: usize = 1;
    proof {
        assert(all.take(1)[0] == entries(stages@[0]));
    }
    while i < stages.len()
        invariant
            1 <= i <= stages@.len(),
            all == entries_of_all(stages@),
            foldable(all.take(i as int)),
            well_formed(entries(folded)),
            is_folded(all.take(i as int), entries(folded)),
        decreases stages@.len() - i,
    {
        let next = clone_map(&stages[i]);
        let ghost before = entries(folded);
        let ghost upto = all.take(i as int + 1);
        proof {
            assert(upto.drop_last() =~= all.take(i as int));
            assert(upto.last() == entries(next));
        }
        if !can_combine(&folded, &next) {
            proof {
                if foldable(all) {
                    lemma_foldable_prefix(all, i as int + 1);
                    assert(is_folded(upto.drop_last(), before));
                }
            }
            return None;
        }
        proof {
            assert forall|other: Seq<Span<i64>>| #[trigger] is_folded(upto.drop_last(), other) implies combinable(
                other,
                upto.last(),
            ) by {
                lemma_folded_unique(upto.drop_last(), other, before);
            }
            assert(foldable(upto));
        }
        folded = combine_stages(folded, next);
        proof {
            assert(is_folded(upto.drop_last(), before));
            assert(is_combined(before, upto.last(), entries(folded)));
            assert(is_folded(upto, entries(folded)));
        }
        i = i + 1;
    }
    proof {
        assert(all.take(i as int) =~= all);
    }
    Some(folded)
}

} // verus!
