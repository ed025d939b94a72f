//! What holds of the interval algebra as a whole.

use crate::combine::{combinable, combined_at, foldable, is_combined, is_folded};
use crate::compose::{
    answers, call_span, call_spans, composes, is_tiling, lemma_overlay_last, lemma_overlay_none, overlay_at,
    pair_at, Call, Yield,
};
use crate::interval::contains;
use crate::invert::{
    inverse_at, invertible, is_inverse, lands_in, lemma_inverse_covered, lemma_inverse_witness, one_to_one,
    shift_fits,
};
use crate::locate::{is_least_value, is_lowest, lemma_query_lowest, locatable, locate_zip};
use crate::spans::{
    covered, covers, index_at, lemma_canonical, lemma_disjoint, lemma_value_at, value_at, well_formed, Span,
};
use crate::stages::{no_overlaps, or_zero, sent, sent_through};
use std::ops::Range;
use vstd::prelude::*;

verus! {

/// The entries of a well-formed map stand apart: none is empty and no two
/// of them share a point.
///
/// Every map that the library hands out or changes is well formed, so this
/// holds after any run of insertions and removals.
pub proof fn lemma_entries_apart<V>(es: Seq<Span<V>>)
    requires
        well_formed(es),
    ensures
        no_overlaps(es),
{
    assert forall|i: int, j: int| 0 <= i < es.len() && 0 <= j < es.len() && i != j implies (#[trigger] es[i]).1
        <= (#[trigger] es[j]).0 || es[j].1 <= es[i].0 by {
        lemma_disjoint(es, i, j);
    }
}

/// In a stage that is one to one, the entry that lands on a point decides
/// the inverse there.
pub proof fn lemma_inverse_of_entry(m: Seq<Span<i64>>, i: int, y: int)
    requires
        one_to_one(m),
        0 <= i < m.len(),
        lands_in(m[i], y),
    ensures
        inverse_at(m, y) == Some((-m[i].2) as i64),
{
    lemma_inverse_covered(m, i, y);
    let j = lemma_inverse_witness(m, y);
    assert(lands_in(m[i], y) && lands_in(m[j], y));
}

/// Inverting twice gives the stage back: the inverse of the inverse of a
/// stage that is one to one has the entries of the stage itself.  That the
/// inverse can be inverted at all is
/// [`lemma_inverse_invertible`](crate::invert::lemma_inverse_invertible).
pub proof fn lemma_invert_twice(m: Seq<Span<i64>>, inv: Seq<Span<i64>>, back: Seq<Span<i64>>)
    requires
        well_formed(m),
        invertible(m),
        one_to_one(m),
        is_inverse(m, inv),
        is_inverse(inv, back),
    ensures
        back == m,
{
    assert forall|x: int| #[trigger] value_at(back, x) == value_at(m, x) by {
        assert(value_at(back, x) == inverse_at(inv, x));
        if inverse_at(inv, x) is Some {
            let j = lemma_inverse_witness(inv, x);
            let y = x - inv[j].2;
            assert(covers(inv, j, y));
            lemma_value_at(inv, j, y);
            assert(value_at(inv, y) == inverse_at(m, y));
            let i = lemma_inverse_witness(m, y);
            assert(shift_fits(m[i]));
            assert(covers(m, i, x));
            lemma_value_at(m, i, x);
        } else if covered(m, x) {
            let i = index_at(m, x);
            assert(covers(m, i, x));
            lemma_value_at(m, i, x);
            assert(shift_fits(m[i]));
            let y = x + m[i].2;
            assert(lands_in(m[i], y));
            lemma_inverse_of_entry(m, i, y);
            assert(value_at(inv, y) == inverse_at(m, y));
            let j = index_at(inv, y);
            assert(covers(inv, j, y));
            lemma_value_at(inv, j, y);
            assert(lands_in(inv[j], x));
            lemma_inverse_covered(inv, j, x);
        }
    }
    lemma_canonical(back, m);
}

/// The tiles cover what the two maps cover, without gap or overlap: a point
/// that either map covers lies in exactly one tile, that tile carries what
/// the two maps hold at the point, and no tile holds a point that neither
/// map covers.
pub proof fn lemma_tiles_cover(a: Seq<Span<i64>>, b: Seq<Span<i64>>, left: Seq<Call>, right: Seq<Call>, x: int)
    requires
        is_tiling(a, b, left, right),
    ensures
        (covered(a, x) || covered(b, x)) <==> exists|i: int|
            0 <= i < (left + right).len() && contains(#[trigger] (left + right)[i].0, x),
        forall|i: int, j: int|
            0 <= i < (left + right).len() && 0 <= j < (left + right).len() && contains(
                #[trigger] (left + right)[i].0,
                x,
            ) && contains(#[trigger] (left + right)[j].0, x) ==> i == j,
        forall|i: int|
            0 <= i < (left + right).len() && contains(#[trigger] (left + right)[i].0, x) ==> ((left + right)[i].1, (
                left + right)[i].2) == pair_at(a, b, x),
{
    let calls = left + right;
    let n = left.len() as int;
    let ls = call_spans(left);
    let rs = call_spans(right);
    assert(value_at(ls, x) == if covered(a, x) {
        Some(pair_at(a, b, x))
    } else {
        None
    });
    assert(value_at(rs, x) == if !covered(a, x) && covered(b, x) {
        Some(pair_at(a, b, x))
    } else {
        None
    });
    assert forall|i: int| 0 <= i < calls.len() && contains(#[trigger] calls[i].0, x) implies {
        &&& (calls[i].1, calls[i].2) == pair_at(a, b, x)
        &&& i < n ==> covered(a, x) && index_at(ls, x) == i
        &&& i >= n ==> !covered(a, x) && covered(b, x) && index_at(rs, x) == i - n
    } by {
        if i < n {
            assert(calls[i] == left[i]);
            assert(ls[i] == call_span(left[i]));
            assert(covers(ls, i, x));
            lemma_value_at(ls, i, x);
        } else {
            assert(calls[i] == right[i - n]);
            assert(rs[i - n] == call_span(right[i - n]));
            assert(covers(rs, i - n, x));
            lemma_value_at(rs, i - n, x);
        }
    }
    if covered(a, x) {
        let i = index_at(ls, x);
        assert(covers(ls, i, x));
        assert(ls[i] == call_span(left[i]));
        assert(calls[i] == left[i]);
        assert(contains(calls[i].0, x));
    } else if covered(b, x) {
        let j = index_at(rs, x);
        assert(covers(rs, j, x));
        assert(rs[j] == call_span(right[j]));
        assert(calls[n + j] == right[j]);
        assert(contains(calls[n + j].0, x));
    }
}

/// Two maps have one tiling only: what the composer calls the zipper on, and
/// in which order, is settled by the two maps.
pub proof fn lemma_tiling_unique(
    a: Seq<Span<i64>>,
    b: Seq<Span<i64>>,
    left: Seq<Call>,
    right: Seq<Call>,
    other_left: Seq<Call>,
    other_right: Seq<Call>,
)
    requires
        is_tiling(a, b, left, right),
        is_tiling(a, b, other_left, other_right),
    ensures
        left == other_left,
        right == other_right,
{
    assert forall|x: int| #[trigger] value_at(call_spans(left), x) == value_at(call_spans(other_left), x) by {
        assert(value_at(call_spans(other_left), x) == if covered(a, x) {
            Some(pair_at(a, b, x))
        } else {
            None
        });
    }
    lemma_canonical(call_spans(left), call_spans(other_left));
    assert(left.len() == call_spans(left).len());
    assert(other_left.len() == call_spans(other_left).len());
    assert forall|i: int| 0 <= i < left.len() implies left[i] == other_left[i] by {
        assert(call_spans(left)[i] == call_span(left[i]));
        assert(call_spans(other_left)[i] == call_span(other_left[i]));
    }
    assert(left =~= other_left);
    assert forall|x: int| #[trigger] value_at(call_spans(right), x) == value_at(call_spans(other_right), x) by {
        assert(value_at(call_spans(other_right), x) == if !covered(a, x) && covered(b, x) {
            Some(pair_at(a, b, x))
        } else {
            None
        });
    }
    lemma_canonical(call_spans(right), call_spans(other_right));
    assert(right.len() == call_spans(right).len());
    assert(other_right.len() == call_spans(other_right).len());
    assert forall|i: int| 0 <= i < right.len() implies right[i] == other_right[i] by {
        assert(call_spans(right)[i] == call_span(right[i]));
        assert(call_spans(other_right)[i] == call_span(other_right[i]));
    }
    assert(right =~= other_right);
}

/// What the zipper that passes every tile on returns for it: the tile with
/// the sum of the two values, a missing value counting as zero.
pub open spec fn pass_zip(c: Call) -> Yield {
    Some((c.0, (or_zero(c.1) + or_zero(c.2)) as i64))
}

/// Composing with a zipper that passes every tile on covers exactly what
/// the two maps cover: each point that either map covers gets the sum of
/// what the two hold there, and no other point gets anything.
pub proof fn lemma_pass_covers<F: Fn(Range<i64>, Option<i64>, Option<i64>) -> Yield>(
    zipper: F,
    a: Seq<Span<i64>>,
    b: Seq<Span<i64>>,
    result: Seq<Span<i64>>,
    x: int,
)
    requires
        composes(zipper, a, b, result),
        forall|c: Call, out: Yield| #[trigger] zipper.ensures(c, out) ==> out == pass_zip(c),
    ensures
        value_at(result, x) == if covered(a, x) || covered(b, x) {
            Some((or_zero(value_at(a, x)) + or_zero(value_at(b, x))) as i64)
        } else {
            None
        },
{
    let (left, right, outs) = choose|left: Seq<Call>, right: Seq<Call>, outs: Seq<Yield>|
        {
            &&& is_tiling(a, b, left, right)
            &&& #[trigger] answers(zipper, left + right, outs)
            &&& forall|x: int| #[trigger] value_at(result, x) == overlay_at(outs, x)
        };
    let calls = left + right;
    assert forall|i: int| 0 <= i < outs.len() implies #[trigger] outs[i] == pass_zip(calls[i]) by {
        assert(zipper.ensures(calls[i], outs[i]));
    }
    assert(value_at(result, x) == overlay_at(outs, x));
    lemma_tiles_cover(a, b, left, right, x);
    if covered(a, x) || covered(b, x) {
        let i = choose|i: int| 0 <= i < calls.len() && contains(#[trigger] calls[i].0, x);
        assert(outs[i] == pass_zip(calls[i]));
        assert forall|j: int| i < j < outs.len() implies !((#[trigger] outs[j]) is Some && contains(
            outs[j].unwrap().0,
            x,
        )) by {
            assert(outs[j] == pass_zip(calls[j]));
            if contains(calls[j].0, x) {
                assert(contains(calls[i].0, x));
            }
        }
        lemma_overlay_last(outs, x, i);
    } else {
        assert forall|j: int| 0 <= j < outs.len() implies !((#[trigger] outs[j]) is Some && contains(
            outs[j].unwrap().0,
            x,
        )) by {
            assert(outs[j] == pass_zip(calls[j]));
        }
        lemma_overlay_none(outs, x);
    }
}

/// With a zipper that returns one thing only for each call, composing two
/// maps gives one map only.
pub proof fn lemma_composes_unique<F: Fn(Range<i64>, Option<i64>, Option<i64>) -> Yield>(
    zipper: F,
    a: Seq<Span<i64>>,
    b: Seq<Span<i64>>,
    result: Seq<Span<i64>>,
    other: Seq<Span<i64>>,
)
    requires
        forall|c: Call, out: Yield, again: Yield|
            #[trigger] zipper.ensures(c, out) && #[trigger] zipper.ensures(c, again) ==> out == again,
        well_formed(result),
        composes(zipper, a, b, result),
        well_formed(other),
        composes(zipper, a, b, other),
    ensures
        result == other,
{
    let (left, right, outs) = choose|left: Seq<Call>, right: Seq<Call>, outs: Seq<Yield>|
        {
            &&& is_tiling(a, b, left, right)
            &&& #[trigger] answers(zipper, left + right, outs)
            &&& forall|x: int| #[trigger] value_at(result, x) == overlay_at(outs, x)
        };
    let (left2, right2, outs2) = choose|left: Seq<Call>, right: Seq<Call>, outs: Seq<Yield>|
        {
            &&& is_tiling(a, b, left, right)
            &&& #[trigger] answers(zipper, left + right, outs)
            &&& forall|x: int| #[trigger] value_at(other, x) == overlay_at(outs, x)
        };
    lemma_tiling_unique(a, b, left, right, left2, right2);
    assert forall|i: int| 0 <= i < outs.len() implies outs[i] == outs2[i] by {
        assert(zipper.ensures((left + right)[i], outs[i]));
        assert(zipper.ensures((left + right)[i], outs2[i]));
    }
    assert(outs =~= outs2);
    assert forall|x: int| #[trigger] value_at(result, x) == value_at(other, x) by {
        assert(value_at(other, x) == overlay_at(outs2, x));
    }
    lemma_canonical(result, other);
}

/// Looking a point up in the combination of two stages gives the sum of the
/// offset that the first stage gives to the point and the offset that the
/// second gives to where the first sends it.
///
/// This is so where the first stage is one to one and, if the second stage
/// covers the point, the first covers the point exactly if it lands on it.
pub proof fn lemma_combined_agrees(a: Seq<Span<i64>>, b: Seq<Span<i64>>, x: int)
    requires
        well_formed(a),
        combinable(a, b),
        one_to_one(a),
        covered(b, x) ==> (covered(a, x) <==> inverse_at(a, x) is Some),
    ensures
        or_zero(combined_at(a, b, x)) == or_zero(value_at(a, x)) + or_zero(
            value_at(b, x + or_zero(value_at(a, x))),
        ),
{
    if covered(a, x) {
        let i = index_at(a, x);
        assert(covers(a, i, x));
        lemma_value_at(a, i, x);
        let y = x + a[i].2;
        assert(shift_fits(a[i]));
        assert(lands_in(a[i], y));
        lemma_inverse_of_entry(a, i, y);
    }
}

/// The stage permutes the points that it covers: it is one to one, and it
/// lands exactly on the points that it covers.
pub open spec fn permutes(m: Seq<Span<i64>>) -> bool {
    &&& one_to_one(m)
    &&& forall|y: int| covered(m, y) <==> (#[trigger] inverse_at(m, y)) is Some
}

/// A covered point is sent to where its entry lands.
proof fn lemma_sent_lands(m: Seq<Span<i64>>, x: int) -> (i: int)
    requires
        well_formed(m),
        covered(m, x),
    ensures
        covers(m, i, x),
        value_at(m, x) == Some(m[i].2),
        lands_in(m[i], sent(m, x)),
        inverse_at(m, sent(m, x)) is Some,
{
    let i = index_at(m, x);
    assert(covers(m, i, x));
    lemma_value_at(m, i, x);
    lemma_inverse_covered(m, i, sent(m, x));
    i
}

/// A point on which the stage lands is where the stage sends some covered
/// point.
proof fn lemma_landed_from(m: Seq<Span<i64>>, y: int) -> (x: int)
    requires
        well_formed(m),
        invertible(m),
        inverse_at(m, y) is Some,
    ensures
        covered(m, x),
        sent(m, x) == y,
{
    let i = lemma_inverse_witness(m, y);
    let x = y - m[i].2;
    assert(covers(m, i, x));
    lemma_value_at(m, i, x);
    x
}

/// A stage that permutes its points sends no two points to one place.
proof fn lemma_sent_apart(m: Seq<Span<i64>>, x: int, z: int)
    requires
        well_formed(m),
        invertible(m),
        permutes(m),
        sent(m, x) == sent(m, z),
    ensures
        x == z,
{
    if covered(m, x) && covered(m, z) {
        let i = lemma_sent_lands(m, x);
        let j = lemma_sent_lands(m, z);
        assert(lands_in(m[i], sent(m, x)) && lands_in(m[j], sent(m, x)));
    } else if covered(m, x) {
        let i = lemma_sent_lands(m, x);
        assert(inverse_at(m, z) is Some);
    } else if covered(m, z) {
        let j = lemma_sent_lands(m, z);
        assert(inverse_at(m, x) is Some);
    }
}

/// A stage that permutes its points sends some point to every place, a
/// covered one to a covered place and the place itself to any other.
proof fn lemma_sent_onto(m: Seq<Span<i64>>, y: int) -> (x: int)
    requires
        well_formed(m),
        invertible(m),
        permutes(m),
    ensures
        sent(m, x) == y,
        covered(m, x) <==> covered(m, y),
{
    if covered(m, y) {
        assert(inverse_at(m, y) is Some);
        lemma_landed_from(m, y)
    } else {
        y
    }
}

/// A stage that permutes its points sends covered points to covered
/// places, and leaves the others where they are.
proof fn lemma_sent_within(m: Seq<Span<i64>>, x: int)
    requires
        well_formed(m),
        permutes(m),
    ensures
        covered(m, x) <==> covered(m, sent(m, x)),
{
    if covered(m, x) {
        let i = lemma_sent_lands(m, x);
    }
}

/// The combination of two stages that permute their points sends a point
/// to where the second stage sends what the first makes of it, and covers
/// what either of the two covers.
pub proof fn lemma_combined_sends(a: Seq<Span<i64>>, b: Seq<Span<i64>>, c: Seq<Span<i64>>, x: int)
    requires
        well_formed(a),
        combinable(a, b),
        permutes(a),
        is_combined(a, b, c),
    ensures
        sent(c, x) == sent(b, sent(a, x)),
        covered(c, x) <==> covered(a, x) || covered(b, x),
{
    lemma_combined_agrees(a, b, x);
    assert(value_at(c, x) == combined_at(a, b, x));
    assert(covered(a, x) <==> inverse_at(a, x) is Some);
    if covered(a, x) {
        let i = lemma_sent_lands(a, x);
        assert(shift_fits(a[i]));
        lemma_inverse_of_entry(a, i, sent(a, x));
    }
}

/// The combination of two stages that permute their points permutes its
/// points.
pub proof fn lemma_combined_permutes(a: Seq<Span<i64>>, b: Seq<Span<i64>>, c: Seq<Span<i64>>)
    requires
        well_formed(a),
        well_formed(b),
        combinable(a, b),
        invertible(b),
        permutes(a),
        permutes(b),
        is_combined(a, b, c),
    ensures
        permutes(c),
{
    assert forall|i: int, j: int, z: int|
        0 <= i < c.len() && 0 <= j < c.len() && #[trigger] lands_in(c[i], z) && #[trigger] lands_in(
            c[j],
            z,
        ) implies i == j by {
        let x = z - c[i].2;
        let y = z - c[j].2;
        assert(covers(c, i, x));
        assert(covers(c, j, y));
        lemma_value_at(c, i, x);
        lemma_value_at(c, j, y);
        lemma_combined_sends(a, b, c, x);
        lemma_combined_sends(a, b, c, y);
        lemma_sent_apart(b, sent(a, x), sent(a, y));
        lemma_sent_apart(a, x, y);
    }
    assert forall|z: int| covered(c, z) <==> (#[trigger] inverse_at(c, z)) is Some by {
        if inverse_at(c, z) is Some {
            let i = lemma_inverse_witness(c, z);
            let x = z - c[i].2;
            assert(covers(c, i, x));
            lemma_value_at(c, i, x);
            lemma_combined_sends(a, b, c, x);
            lemma_combined_sends(a, b, c, z);
            lemma_sent_within(a, x);
            lemma_sent_within(b, sent(a, x));
            assert(sent(c, x) == z);
        }
        if covered(c, z) {
            lemma_combined_sends(a, b, c, z);
            let w = lemma_sent_onto(b, z);
            let x = lemma_sent_onto(a, w);
            lemma_combined_sends(a, b, c, x);
            assert(covered(c, x));
            let i = lemma_sent_lands(c, x);
        }
    }
}

/// Every stage of the list is well formed, lies within `i64`, can be
/// inverted there, and permutes its points.
pub open spec fn all_permute(stages: Seq<Seq<Span<i64>>>) -> bool {
    forall|i: int|
        0 <= i < stages.len() ==> well_formed(#[trigger] stages[i]) && invertible(stages[i]) && permutes(stages[i])
}

/// Folding agrees with going through the stages one by one: where every
/// stage permutes its points, the fold of the stages sends each point to
/// where the stages send it in turn.
pub proof fn lemma_fold_agrees(stages: Seq<Seq<Span<i64>>>, folded: Seq<Span<i64>>, x: int)
    requires
        all_permute(stages),
        foldable(stages),
        is_folded(stages, folded),
    ensures
        sent(folded, x) == sent_through(stages, x),
        well_formed(folded),
        permutes(folded),
    decreases stages.len(),
{
    if stages.len() == 1 {
        assert(stages.drop_last() =~= Seq::<Seq<Span<i64>>>::empty());
        assert(sent_through(stages.drop_last(), x) == x);
        assert(stages.last() == stages[0]);
    } else {
        let rest = stages.drop_last();
        let before = choose|before: Seq<Span<i64>>|
            is_folded(rest, before) && #[trigger] is_combined(before, stages.last(), folded);
        assert forall|i: int| 0 <= i < rest.len() implies well_formed(#[trigger] rest[i]) && invertible(rest[i])
            && permutes(rest[i]) by {
            assert(rest[i] == stages[i]);
        }
        lemma_fold_agrees(rest, before, x);
        assert(combinable(before, stages.last()));
        assert(stages.last() == stages[stages.len() - 1]);
        lemma_combined_sends(before, stages.last(), folded, x);
        lemma_combined_permutes(before, stages.last(), folded);
    }
}

/// The range query agrees with trying every seed: where every stage
/// permutes its points, the lowest place that the fold of the stages sends
/// a seed to is the lowest place that a seed reaches by going through the
/// stages one by one.
pub proof fn lemma_lowest_agrees(
    seeds: Seq<Span<i64>>,
    stages: Seq<Seq<Span<i64>>>,
    folded: Seq<Span<i64>>,
    lowest: Option<i64>,
)
    requires
        all_permute(stages),
        foldable(stages),
        is_folded(stages, folded),
        is_lowest(seeds, folded, lowest),
    ensures
        lowest is None <==> forall|x: int| !covered(seeds, x),
        lowest is Some ==> exists|x: int| covered(seeds, x) && lowest.unwrap() == #[trigger] sent_through(stages, x),
        lowest is Some ==> forall|x: int| covered(seeds, x) ==> lowest.unwrap() <= #[trigger] sent_through(stages, x),
{
    if lowest is Some {
        let x = choose|x: int| covered(seeds, x) && lowest.unwrap() == #[trigger] sent(folded, x);
        lemma_fold_agrees(stages, folded, x);
        assert(covered(seeds, x) && lowest.unwrap() == sent_through(stages, x));
        assert forall|x: int| covered(seeds, x) implies lowest.unwrap() <= #[trigger] sent_through(stages, x) by {
            lemma_fold_agrees(stages, folded, x);
            assert(lowest.unwrap() <= sent(folded, x));
        }
    }
}

/// The range query agrees with trying every seed, stated at the composer.
///
/// The stages, each of which permutes its points, are folded into one; the
/// seeds are composed with the fold through the zipper that drops the tiles
/// without seeds and keeps each tile of seeds with the place that its first
/// point is sent to.  The least value of the result is then the lowest place
/// that a seed reaches by going through the stages one by one, and there is
/// none exactly if there is no seed.
///
/// The fold and the zipper have to stay within `i64`, as they have to in
/// order to run at all.
pub proof fn lemma_range_query_agrees<F: Fn(Range<i64>, Option<i64>, Option<i64>) -> Yield>(
    zipper: F,
    seeds: Seq<Span<i64>>,
    stages: Seq<Seq<Span<i64>>>,
    folded: Seq<Span<i64>>,
    result: Seq<Span<i64>>,
    lowest: Option<i64>,
)
    requires
        all_permute(stages),
        foldable(stages),
        is_folded(stages, folded),
        locatable(seeds, folded),
        forall|c: Call, out: Yield| #[trigger] zipper.ensures(c, out) ==> out == locate_zip(c.0, c.1, c.2),
        composes(zipper, seeds, folded, result),
        well_formed(result),
        is_least_value(result, lowest),
    ensures
        lowest is None <==> forall|x: int| !covered(seeds, x),
        lowest is Some ==> exists|x: int| covered(seeds, x) && lowest.unwrap() == #[trigger] sent_through(stages, x),
        lowest is Some ==> forall|x: int| covered(seeds, x) ==> lowest.unwrap() <= #[trigger] sent_through(stages, x),
{
    lemma_query_lowest(zipper, seeds, folded, result, lowest);
    lemma_lowest_agrees(seeds, stages, folded, lowest);
}

} // verus!
