//! Composing two interval maps through a zipper.
//!
//! The two maps cut the integers into tiles: maximal intervals on which
//! both maps are constant (covered with one value, or not covered) and at
//! least one of them is covered.  The composer calls the zipper once per
//! tile and inserts what the zipper returns into the result.

use crate::interval::{contains, intersection};
use crate::spans::{
    covered, covers, index_at, is_update, lemma_canonical, lemma_push, lemma_skip_first, lemma_span_maximal,
    lemma_value_at, value_at, well_formed, Span,
};
use crate::store::{
    all_entries, as_span, as_spans, clone_map, entries, first_entry, first_overlap,
    first_overlapping, insert_range, new_map, overlaps, remove_range,
};
use rangemap::RangeMap;
use std::ops::Range;
use vstd::prelude::*;

verus! {

/// The arguments of one zipper call: an interval, the left map's value on
/// it and the right map's value on it (`None` where that map does not cover
/// the interval).
pub type Call = (Range<i64>, Option<i64>, Option<i64>);

/// What one zipper call returns: an interval and a value to insert, or
/// nothing.
pub type Yield = Option<(Range<i64>, i64)>;

/// Removes the first entry of the map and returns it; `None` leaves an empty
/// map as it is.
pub fn pop_first(rm: &mut RangeMap<i64, i64>) -> (first: Option<(Range<i64>, i64)>)
    ensures
        first is None <==> entries(*old(rm)).len() == 0,
        first is None ==> entries(*final(rm)) == entries(*old(rm)),
        first is Some ==> as_span(first.unwrap()) == entries(*old(rm))[0],
        first is Some ==> first.unwrap().0.start < first.unwrap().0.end,
        first is Some ==> well_formed(entries(*final(rm))),
        first is Some ==> is_update(
            entries(*old(rm)),
            entries(*final(rm)),
            first.unwrap().0.start as int,
            first.unwrap().0.end as int,
            None,
        ),
        first is Some && well_formed(entries(*old(rm))) ==> entries(*final(rm)) == entries(*old(rm)).skip(1),
{
    match first_entry(rm) {
        None => None,
        Some((range, value)) => {
            let ghost before = entries(*rm);
            remove_range(rm, range.start..range.end);
            proof {
                if well_formed(before) {
                    lemma_skip_first(before);
                    assert forall|x: int| #[trigger]
                        value_at(entries(*rm), x) == value_at(before.skip(1), x) by {
                        assert(value_at(before.skip(1), x) == if before[0].0 <= x < before[0].1 {
                            None
                        } else {
                            value_at(before, x)
                        });
                    }
                    lemma_canonical(entries(*rm), before.skip(1));
                }
            }
            Some((range, value))
        },
    }
}

/// Inserts the pair into the map, if there is one: its interval then maps
/// to its value, whatever the map held there before.
///
/// The interval of the pair must not be empty.
pub fn insert(rm: &mut RangeMap<i64, i64>, kv: Yield)
    requires
        kv is Some ==> kv.unwrap().0.start < kv.unwrap().0.end,
    ensures
        kv is None ==> entries(*final(rm)) == entries(*old(rm)),
        kv is Some ==> well_formed(entries(*final(rm))),
        forall|x: int| #[trigger] value_at(entries(*final(rm)), x) == put(kv, value_at(entries(*old(rm)), x), x),
{
    if let Some((k, v)) = kv {
        insert_range(rm, k, v);
    }
}

/// The value at the point `x` once `kv` has been inserted over `before`.
pub open spec fn put(kv: Yield, before: Option<i64>, x: int) -> Option<i64> {
    if kv is Some && contains(kv.unwrap().0, x) {
        Some(kv.unwrap().1)
    } else {
        before
    }
}

/// The value at the point `x` once every pair of `outs` has been inserted
/// into an empty map, in order: the last pair whose interval contains `x`
/// decides.
pub open spec fn overlay_at(outs: Seq<Yield>, x: int) -> Option<i64>
    decreases outs.len(),
{
    if outs.len() == 0 {
        None
    } else {
        put(outs.last(), overlay_at(outs.drop_last(), x), x)
    }
}

/// What the two maps hold at the point `x`.
pub open spec fn pair_at(a: Seq<Span<i64>>, b: Seq<Span<i64>>, x: int) -> (Option<i64>, Option<i64>) {
    (value_at(a, x), value_at(b, x))
}

/// `[start, end)` is a tile of `a` and `b` that carries `left` and `right`:
/// a non-empty interval on which `a` is `left` and `b` is `right`
/// throughout, at least one of the two covers it, and it cannot be extended
/// at either end.
pub open spec fn is_tile(
    a: Seq<Span<i64>>,
    b: Seq<Span<i64>>,
    start: int,
    end: int,
    left: Option<i64>,
    right: Option<i64>,
) -> bool {
    &&& start < end
    &&& left is Some || right is Some
    &&& forall|x: int| start <= x < end ==> #[trigger] pair_at(a, b, x) == (left, right)
    &&& pair_at(a, b, start - 1) != (left, right)
    &&& pair_at(a, b, end) != (left, right)
}

/// The zipper call as a span that carries the pair of values.
pub open spec fn call_span(c: Call) -> Span<(Option<i64>, Option<i64>)> {
    (c.0.start as int, c.0.end as int, (c.1, c.2))
}

/// A list of zipper calls as spans.
pub open spec fn call_spans(cs: Seq<Call>) -> Seq<Span<(Option<i64>, Option<i64>)>> {
    Seq::new(cs.len(), |i: int| call_span(cs[i]))
}

/// `left` lists the tiles of the points that `a` covers, `right` the tiles
/// of the points that only `b` covers, each in ascending order.
///
/// As spans both lists are well formed, so each is the one way to cut its
/// points into tiles.
pub open spec fn is_tiling(a: Seq<Span<i64>>, b: Seq<Span<i64>>, left: Seq<Call>, right: Seq<Call>) -> bool {
    &&& well_formed(call_spans(left))
    &&& forall|x: int| #[trigger]
        value_at(call_spans(left), x) == if covered(a, x) {
            Some(pair_at(a, b, x))
        } else {
            None
        }
    &&& well_formed(call_spans(right))
    &&& forall|x: int| #[trigger]
        value_at(call_spans(right), x) == if !covered(a, x) && covered(b, x) {
            Some(pair_at(a, b, x))
        } else {
            None
        }
}

/// The zipper can be called on every tile of `a` and `b`, and whenever it
/// returns a pair for a tile, the interval of the pair is not empty.
pub open spec fn fits_tiles<F: Fn(Range<i64>, Option<i64>, Option<i64>) -> Yield>(
    zipper: F,
    a: Seq<Span<i64>>,
    b: Seq<Span<i64>>,
) -> bool {
    &&& forall|r: Range<i64>, left: Option<i64>, right: Option<i64>|
        is_tile(a, b, r.start as int, r.end as int, left, right) ==> #[trigger] zipper.requires((r, left, right))
    &&& forall|r: Range<i64>, left: Option<i64>, right: Option<i64>, out: Yield|
        is_tile(a, b, r.start as int, r.end as int, left, right) && #[trigger] zipper.ensures((r, left, right), out)
            && out is Some ==> out.unwrap().0.start < out.unwrap().0.end
}

/// `outs` lists, call by call, something that the zipper may return for
/// that call.
pub open spec fn answers<F: Fn(Range<i64>, Option<i64>, Option<i64>) -> Yield>(
    zipper: F,
    calls: Seq<Call>,
    outs: Seq<Yield>,
) -> bool {
    &&& outs.len() == calls.len()
    &&& forall|i: int| 0 <= i < calls.len() ==> zipper.ensures(#[trigger] calls[i], outs[i])
}

/// `result` is what composing `a` and `b` through `zipper` gives: the
/// zipper was called on the tiles that `a` covers, in ascending order, then
/// on the tiles that only `b` covers, in ascending order, and what it
/// returned was inserted in that order.
pub open spec fn composes<F: Fn(Range<i64>, Option<i64>, Option<i64>) -> Yield>(
    zipper: F,
    a: Seq<Span<i64>>,
    b: Seq<Span<i64>>,
    result: Seq<Span<i64>>,
) -> bool {
    exists|left: Seq<Call>, right: Seq<Call>, outs: Seq<Yield>|
        {
            &&& is_tiling(a, b, left, right)
            &&& #[trigger] answers(zipper, left + right, outs)
            &&& forall|x: int| #[trigger] value_at(result, x) == overlay_at(outs, x)
        }
}

/// Where a run of the composer stands once it has dealt with every point
/// below `cur`: `left` tiles the points below `cur` that `a` covers, and
/// `m2` is `b` without those points.
spec fn progress(a: Seq<Span<i64>>, b: Seq<Span<i64>>, cur: int, left: Seq<Call>, m2: Seq<Span<i64>>) -> bool {
    &&& well_formed(call_spans(left))
    &&& forall|x: int| #[trigger]
        value_at(call_spans(left), x) == if covered(a, x) && x < cur {
            Some(pair_at(a, b, x))
        } else {
            None
        }
    &&& well_formed(m2)
    &&& forall|x: int| #[trigger]
        value_at(m2, x) == if covered(a, x) && x < cur {
            None
        } else {
            value_at(b, x)
        }
    &&& left.len() > 0 ==> left.last().0.end <= cur
    &&& left.len() > 0 && left.last().0.end == cur ==> pair_at(a, b, cur) != (left.last().1, left.last().2)
}

/// Nothing has been dealt with yet.
proof fn lemma_progress_start(a: Seq<Span<i64>>, b: Seq<Span<i64>>, cur: int)
    requires
        well_formed(b),
        forall|i: int| 0 <= i < a.len() ==> cur <= (#[trigger] a[i]).0,
    ensures
        progress(a, b, cur, Seq::<Call>::empty(), b),
{
    let left = Seq::<Call>::empty();
    assert(call_spans(left) =~= Seq::<Span<(Option<i64>, Option<i64>)>>::empty());
    assert forall|x: int| covered(a, x) implies x >= cur by {
        let i = choose|i: int| covers(a, i, x);
        assert(cur <= a[i].0);
    }
    assert forall|x: int| #[trigger] value_at(call_spans(left), x) is None by {
        assert forall|i: int| !covers(call_spans(left), i, x) by {}
    }
}

/// The run may skip points that `a` does not cover.
proof fn lemma_progress_skip(
    a: Seq<Span<i64>>,
    b: Seq<Span<i64>>,
    cur: int,
    next: int,
    left: Seq<Call>,
    m2: Seq<Span<i64>>,
)
    requires
        progress(a, b, cur, left, m2),
        cur <= next,
        forall|x: int| cur <= x < next ==> !covered(a, x),
    ensures
        progress(a, b, next, left, m2),
{
    assert forall|x: int| #[trigger]
        value_at(call_spans(left), x) == if covered(a, x) && x < next {
            Some(pair_at(a, b, x))
        } else {
            None
        } by {
        if cur <= x < next {
            assert(!covered(a, x));
        }
    }
    assert forall|x: int| #[trigger]
        value_at(m2, x) == if covered(a, x) && x < next {
            None
        } else {
            value_at(b, x)
        } by {
        if cur <= x < next {
            assert(!covered(a, x));
        }
    }
}

/// One more tile: the interval of `c` starts where the run stands, `a`
/// covers it, both maps are constant on it, and they change behind it.
/// `m2` loses the points of the tile.
proof fn lemma_progress_tile(
    a: Seq<Span<i64>>,
    b: Seq<Span<i64>>,
    cur: int,
    left: Seq<Call>,
    m2: Seq<Span<i64>>,
    c: Call,
    m2_after: Seq<Span<i64>>,
)
    requires
        progress(a, b, cur, left, m2),
        c.0.start == cur,
        c.0.start < c.0.end,
        c.1 is Some,
        forall|x: int| c.0.start <= x < c.0.end ==> #[trigger] pair_at(a, b, x) == (c.1, c.2),
        pair_at(a, b, c.0.end as int) != (c.1, c.2),
        well_formed(m2_after),
        is_update(m2, m2_after, c.0.start as int, c.0.end as int, None),
    ensures
        progress(a, b, c.0.end as int, left.push(c), m2_after),
{
    let end = c.0.end as int;
    let spans = call_spans(left);
    let next = left.push(c);
    assert(call_spans(next) =~= spans.push(call_span(c)));
    assert(pair_at(a, b, cur) == (c.1, c.2));
    if left.len() > 0 {
        assert(spans.last() == call_span(left.last()));
    }
    lemma_push(spans, call_span(c));
    assert forall|x: int| #[trigger]
        value_at(call_spans(next), x) == if covered(a, x) && x < end {
            Some(pair_at(a, b, x))
        } else {
            None
        } by {
        assert(value_at(spans, x) == if covered(a, x) && x < cur {
            Some(pair_at(a, b, x))
        } else {
            None
        });
        if cur <= x < end {
            assert(pair_at(a, b, x) == (c.1, c.2));
        }
    }
    assert forall|x: int| #[trigger]
        value_at(m2_after, x) == if covered(a, x) && x < end {
            None
        } else {
            value_at(b, x)
        } by {
        assert(value_at(m2, x) == if covered(a, x) && x < cur {
            None
        } else {
            value_at(b, x)
        });
        if cur <= x < end {
            assert(pair_at(a, b, x) == (c.1, c.2));
        }
    }
    assert(next.last() == c);
}

/// The interval of `c` starts where the run stands, `a` covers it, both
/// maps are constant on it, and they change behind it: then it is a tile.
proof fn lemma_is_tile(a: Seq<Span<i64>>, b: Seq<Span<i64>>, cur: int, left: Seq<Call>, m2: Seq<Span<i64>>, c: Call)
    requires
        progress(a, b, cur, left, m2),
        c.0.start == cur,
        c.0.start < c.0.end,
        c.1 is Some,
        forall|x: int| c.0.start <= x < c.0.end ==> #[trigger] pair_at(a, b, x) == (c.1, c.2),
        pair_at(a, b, c.0.end as int) != (c.1, c.2),
    ensures
        is_tile(a, b, c.0.start as int, c.0.end as int, c.1, c.2),
{
    let spans = call_spans(left);
    assert(pair_at(a, b, cur) == (c.1, c.2));
    // the tile cannot be extended to the left
    let before = cur - 1;
    assert(value_at(spans, before) == if covered(a, before) && before < cur {
        Some(pair_at(a, b, before))
    } else {
        None
    });
    if left.len() > 0 && left.last().0.end == cur {
        let n = left.len() - 1;
        assert(spans[n] == call_span(left[n]));
        assert(spans[n].0 < spans[n].1);
        assert(covers(spans, n, before));
        lemma_value_at(spans, n, before);
    } else {
        assert forall|i: int| !covers(spans, i, before) by {
            if 0 <= i < spans.len() {
                let n = left.len() - 1;
                assert(spans[n] == call_span(left[n]));
                if i < n {
                    assert(spans[i].1 <= spans[n].0);
                    assert(spans[n].0 < spans[n].1);
                }
            }
        }
    }
}

/// One more call of the zipper, and its result inserted.
proof fn lemma_record<F: Fn(Range<i64>, Option<i64>, Option<i64>) -> Yield>(
    zipper: F,
    calls: Seq<Call>,
    outs: Seq<Yield>,
    c: Call,
    out: Yield,
    before: Seq<Span<i64>>,
    after: Seq<Span<i64>>,
)
    requires
        answers(zipper, calls, outs),
        zipper.ensures(c, out),
        forall|x: int| #[trigger] value_at(before, x) == overlay_at(outs, x),
        forall|x: int| #[trigger] value_at(after, x) == put(out, value_at(before, x), x),
    ensures
        answers(zipper, calls.push(c), outs.push(out)),
        forall|x: int| #[trigger] value_at(after, x) == overlay_at(outs.push(out), x),
{
    let calls2 = calls.push(c);
    let outs2 = outs.push(out);
    assert forall|i: int| 0 <= i < calls2.len() implies zipper.ensures(#[trigger] calls2[i], outs2[i]) by {
        if i < calls.len() {
            assert(calls2[i] == calls[i]);
            assert(outs2[i] == outs[i]);
        }
    }
    assert(outs2.drop_last() =~= outs);
    assert(outs2.last() == out);
    assert forall|x: int| #[trigger] value_at(after, x) == overlay_at(outs2, x) by {
        assert(value_at(before, x) == overlay_at(outs, x));
    }
}

/// The entries that are left of `b` once the run has passed all of `a`
/// are the tiles that only `b` covers.
proof fn lemma_right_tiles(a: Seq<Span<i64>>, b: Seq<Span<i64>>, rest: Seq<(Range<i64>, i64)>, right: Seq<Call>)
    requires
        well_formed(as_spans(rest)),
        forall|x: int| #[trigger]
            value_at(as_spans(rest), x) == if covered(a, x) {
                None
            } else {
                value_at(b, x)
            },
        right.len() == rest.len(),
        forall|i: int| 0 <= i < rest.len() ==> #[trigger] right[i] == (rest[i].0, None::<i64>, Some(rest[i].1)),
    ensures
        well_formed(call_spans(right)),
        forall|x: int| #[trigger]
            value_at(call_spans(right), x) == if !covered(a, x) && covered(b, x) {
                Some(pair_at(a, b, x))
            } else {
                None
            },
        forall|i: int|
            0 <= i < right.len() ==> is_tile(
                a,
                b,
                (#[trigger] right[i]).0.start as int,
                right[i].0.end as int,
                right[i].1,
                right[i].2,
            ),
{
    let es = as_spans(rest);
    let ts = call_spans(right);
    assert forall|i: int| 0 <= i < ts.len() implies (#[trigger] ts[i]).0 == es[i].0 && ts[i].1 == es[i].1
        && ts[i].2 == (None::<i64>, Some(es[i].2)) by {
        assert(right[i] == (rest[i].0, None::<i64>, Some(rest[i].1)));
    }
    assert(well_formed(ts)) by {
        assert forall|i: int| 0 <= i < ts.len() implies (#[trigger] ts[i]).0 < ts[i].1 by {
            assert(es[i].0 < es[i].1);
        }
        assert forall|i: int, j: int| 0 <= i < j < ts.len() implies (#[trigger] ts[i]).1 <= (#[trigger] ts[j]).0 by {
            assert(es[i].1 <= es[j].0);
        }
        assert forall|i: int, j: int|
            0 <= i && j == i + 1 && j < ts.len() && (#[trigger] ts[i]).1 == (#[trigger] ts[j]).0 implies ts[i].2
            != ts[j].2 by {
            assert(es[i].1 == es[j].0);
            assert(es[i].2 != es[j].2);
        }
    }
    assert forall|x: int| #[trigger]
        value_at(ts, x) == if !covered(a, x) && covered(b, x) {
            Some(pair_at(a, b, x))
        } else {
            None
        } by {
        assert(value_at(es, x) == if covered(a, x) {
            None
        } else {
            value_at(b, x)
        });
        if covered(ts, x) {
            let i = index_at(ts, x);
            assert(covers(ts, i, x));
            assert(covers(es, i, x));
            lemma_value_at(ts, i, x);
            lemma_value_at(es, i, x);
        } else if covered(es, x) {
            let i = index_at(es, x);
            assert(covers(es, i, x));
            assert(covers(ts, i, x));
        }
    }
    assert forall|i: int| 0 <= i < right.len() implies is_tile(
        a,
        b,
        (#[trigger] right[i]).0.start as int,
        right[i].0.end as int,
        right[i].1,
        right[i].2,
    ) by {
        let start = es[i].0;
        let end = es[i].1;
        assert(ts[i].0 == start && ts[i].1 == end);
        assert(right[i] == (rest[i].0, None::<i64>, Some(rest[i].1)));
        assert(start < end);
        assert forall|x: int| start <= x < end implies #[trigger] pair_at(a, b, x) == (right[i].1, right[i].2) by {
            assert(covers(es, i, x));
            lemma_value_at(es, i, x);
            assert(value_at(es, x) == if covered(a, x) {
                None
            } else {
                value_at(b, x)
            });
        }
        lemma_span_maximal(es, i);
        assert(value_at(es, end) == if covered(a, end) {
            None
        } else {
            value_at(b, end)
        });
        assert(value_at(es, start - 1) == if covered(a, start - 1) {
            None
        } else {
            value_at(b, start - 1)
        });
    }
}

/// Composes two interval maps through `zipper`.
///
/// The two maps cut the integers into tiles.  The zipper is called on every
/// tile that `map1` covers, in ascending order, with `map1`'s value and, where
/// `map2` covers the tile too, `map2`'s value; then on every tile that only
/// `map2` covers, in ascending order, with `map2`'s value.  Each pair that the
/// zipper returns is inserted into the result as it comes, over whatever an
/// earlier pair put there; where the zipper returns `None` nothing is
/// inserted.  The two maps are left as they are.
///
/// The zipper has to accept every tile, and the interval that it returns for
/// a tile must not be empty.
pub fn compose_maps_new<F: Fn(Range<i64>, Option<i64>, Option<i64>) -> Yield>(
    zipper: F,
    map1: &RangeMap<i64, i64>,
    map2: &RangeMap<i64, i64>,
) -> (result: RangeMap<i64, i64>)
    requires
        fits_tiles(zipper, entries(*map1), entries(*map2)),
    ensures
        well_formed(entries(result)),
        composes(zipper, entries(*map1), entries(*map2), entries(result)),
{
    let mut result = new_map();
    // both maps are taken apart on the way, so this works on copies
    let mut m1 = clone_map(map1);
    let mut m2 = clone_map(map2);
    let ghost a = entries(*map1);
    let ghost b = entries(*map2);
    let ghost mut left = Seq::<Call>::empty();
    let ghost mut outs = Seq::<Yield>::empty();
    let ghost mut k: int = 0;
    let ghost mut cur: int = if a.len() > 0 {
        a[0].0
    } else {
        0
    };
    proof {
        assert forall|i: int| 0 <= i < a.len() implies cur <= (#[trigger] a[i]).0 by {
            if i > 0 {
                assert(a[0].1 <= a[i].0);
                assert(a[0].0 < a[0].1);
            }
        }
        lemma_progress_start(a, b, cur);
        assert(a.skip(0) =~= a);
    }
    loop
        invariant
            a == entries(*map1),
            b == entries(*map2),
            well_formed(a),
            fits_tiles(zipper, a, b),
            0 <= k <= a.len(),
            entries(m1) == a.skip(k),
            well_formed(entries(m1)),
            forall|i: int| 0 <= i < k ==> (#[trigger] a[i]).1 <= cur,
            forall|i: int| k <= i < a.len() ==> cur <= (#[trigger] a[i]).0,
            progress(a, b, cur, left, entries(m2)),
            answers(zipper, left, outs),
            well_formed(entries(result)),
            forall|x: int| #[trigger] value_at(entries(result), x) == overlay_at(outs, x),
        ensures
            k == a.len(),
            forall|i: int| 0 <= i < a.len() ==> (#[trigger] a[i]).1 <= cur,
            progress(a, b, cur, left, entries(m2)),
            answers(zipper, left, outs),
            well_formed(entries(result)),
            forall|x: int| #[trigger] value_at(entries(result), x) == overlay_at(outs, x),
        decreases a.len() - k,
    {
        // the first map is drained entry by entry, from the lowest on
        let first = match pop_first(&mut m1) {
            Some(first) => first,
            None => {
                break ;
            },
        };
        let v1 = first.1;
        let end = first.0.end;
        let mut rest = first.0;
        proof {
            assert(a.skip(k)[0] == a[k]);
            assert(a.skip(k).skip(1) =~= a.skip(k + 1));
            assert forall|x: int| cur <= x < rest.start implies !covered(a, x) by {
                if covered(a, x) {
                    let i = index_at(a, x);
                    assert(covers(a, i, x));
                    if i < k {
                        assert(a[i].1 <= cur);
                    } else {
                        assert(cur <= a[i].0);
                        if i > k {
                            assert(a[k].1 <= a[i].0);
                        }
                    }
                }
            }
            lemma_progress_skip(a, b, cur, rest.start as int, left, entries(m2));
            cur = rest.start as int;
            assert forall|x: int| rest.start <= x < end implies #[trigger] value_at(a, x) == Some(v1) by {
                assert(covers(a, k, x));
                lemma_value_at(a, k, x);
            }
            lemma_span_maximal(a, k);
        }
        let ghost first_start = rest.start as int;
        loop
            invariant
                a == entries(*map1),
                b == entries(*map2),
                fits_tiles(zipper, a, b),
                rest.end == end,
                first_start <= rest.start <= rest.end,
                first_start < rest.start || rest.start < rest.end,
                cur == rest.start,
                forall|x: int| first_start <= x < end ==> #[trigger] value_at(a, x) == Some(v1),
                value_at(a, end as int) != Some(v1),
                progress(a, b, cur, left, entries(m2)),
                answers(zipper, left, outs),
                well_formed(entries(result)),
                forall|x: int| #[trigger] value_at(entries(result), x) == overlay_at(outs, x),
            ensures
                forall|x: int| rest.start <= x < end ==> #[trigger] value_at(b, x) is None,
            decreases rest.end - rest.start,
        {
            // what is left of the entry is cut along the entries of the second map
            let r2 = match first_overlapping(&m2, &rest) {
                Some(r2) => r2,
                None => {
                    proof {
                        lemma_none_overlapping(a, b, cur, left, entries(m2), end as int);
                    }
                    break ;
                },
            };
            let v2 = r2.1;
            let ghost m2_before = entries(m2);
            let ghost i2 = choose|i: int|
                first_overlap(m2_before, rest.start as int, rest.end as int, i) && m2_before[i] == as_span(r2);
            proof {
                // an entry of `m2` cannot reach back over a point that the run has passed
                if rest.start == rest.end {
                    assert(covers(m2_before, i2, cur - 1));
                    lemma_value_at(m2_before, i2, cur - 1);
                    assert(value_at(a, cur - 1) == Some(v1));
                }
            }
            let common = intersection(&rest, &r2.0).unwrap();
            proof {
                lemma_overlap_values(a, b, cur, left, m2_before, i2, end as int);
            }
            if rest.start < common.start {
                // the part before the overlap belongs to the first map alone
                let ghost c: Call = (rest.start..common.start, Some(v1), None);
                proof {
                    assert forall|x: int| c.0.start <= x < c.0.end implies #[trigger] pair_at(a, b, x) == (
                        c.1,
                        c.2,
                    ) by {
                        assert(value_at(a, x) == Some(v1));
                    }
                    lemma_is_tile(a, b, cur, left, m2_before, c);
                    lemma_progress_tile(a, b, cur, left, m2_before, c, m2_before);
                }
                let out = zipper(rest.start..common.start, Some(v1), None);
                let ghost before = entries(result);
                insert(&mut result, out);
                proof {
                    lemma_record(zipper, left, outs, c, out, before, entries(result));
                    left = left.push(c);
                    outs = outs.push(out);
                    cur = common.start as int;
                }
            }
            let ghost c: Call = (common.start..common.end, Some(v1), Some(v2));
            proof {
                assert forall|x: int| c.0.start <= x < c.0.end implies #[trigger] pair_at(a, b, x) == (
                    c.1,
                    c.2,
                ) by {
                    assert(value_at(a, x) == Some(v1));
                }
                lemma_is_tile(a, b, cur, left, m2_before, c);
            }
            let out = zipper(common.start..common.end, Some(v1), Some(v2));
            let ghost before = entries(result);
            insert(&mut result, out);
            // the overlap is done with; what the second map holds behind it stays
            remove_range(&mut m2, common.start..common.end);
            proof {
                lemma_progress_tile(a, b, cur, left, m2_before, c, entries(m2));
                lemma_record(zipper, left, outs, c, out, before, entries(result));
                left = left.push(c);
                outs = outs.push(out);
                cur = common.end as int;
            }
            rest = common.end..rest.end;
        }
        if rest.start < rest.end {
            // nothing of the second map overlaps what is left of the entry
            let ghost c: Call = (rest.start..rest.end, Some(v1), None);
            proof {
                assert forall|x: int| c.0.start <= x < c.0.end implies #[trigger] pair_at(a, b, x) == (
                    c.1,
                    c.2,
                ) by {
                    assert(value_at(a, x) == Some(v1));
                    assert(value_at(b, x) is None);
                }
                lemma_is_tile(a, b, cur, left, entries(m2), c);
                lemma_progress_tile(a, b, cur, left, entries(m2), c, entries(m2));
            }
            let out = zipper(rest.start..rest.end, Some(v1), None);
            let ghost before = entries(result);
            insert(&mut result, out);
            proof {
                lemma_record(zipper, left, outs, c, out, before, entries(result));
                left = left.push(c);
                outs = outs.push(out);
                cur = end as int;
            }
        }
        proof {
            assert forall|i: int| 0 <= i < k + 1 implies (#[trigger] a[i]).1 <= cur by {
                if i < k {
                    assert(a[i].1 <= a[k].0);
                    assert(a[k].0 < a[k].1);
                }
            }
            assert forall|i: int| k + 1 <= i < a.len() implies cur <= (#[trigger] a[i]).0 by {
                assert(a[k].1 <= a[i].0);
            }
            k = k + 1;
        }
    }
    // what is left of the second map is what the first map does not cover
    let remaining = all_entries(&m2);
    let ghost mut right = Seq::<Call>::empty();
    let ghost all_right = Seq::new(
        remaining@.len(),
        |i: int| (remaining@[i].0, None::<i64>, Some(remaining@[i].1)),
    );
    proof {
        assert forall|x: int| #[trigger]
            value_at(as_spans(remaining@), x) == if covered(a, x) {
                None
            } else {
                value_at(b, x)
            } by {
            assert(value_at(entries(m2), x) == if covered(a, x) && x < cur {
                None
            } else {
                value_at(b, x)
            });
            if covered(a, x) {
                let i = index_at(a, x);
                assert(covers(a, i, x));
                assert(a[i].1 <= cur);
            }
        }
        lemma_right_tiles(a, b, remaining@, all_right);
        assert(left + right =~= left);
    }
    let mut i: usize = 0;
    while i < remaining.len()
        invariant
            a == entries(*map1),
            b == entries(*map2),
            fits_tiles(zipper, a, b),
            i <= remaining.len(),
            all_right.len() == remaining.len(),
            forall|j: int|
                0 <= j < remaining.len() ==> #[trigger] all_right[j] == (
                    remaining@[j].0,
                    None::<i64>,
                    Some(remaining@[j].1),
                ),
            forall|j: int|
                0 <= j < all_right.len() ==> is_tile(
                    a,
                    b,
                    (#[trigger] all_right[j]).0.start as int,
                    all_right[j].0.end as int,
                    all_right[j].1,
                    all_right[j].2,
                ),
            right == all_right.take(i as int),
            answers(zipper, left + right, outs),
            well_formed(entries(result)),
            forall|x: int| #[trigger] value_at(entries(result), x) == overlay_at(outs, x),
        decreases remaining.len() - i,
    {
        let range = remaining[i].0.start..remaining[i].0.end;
        let value = remaining[i].1;
        let ghost c: Call = (range, None, Some(value));
        proof {
            assert(all_right[i as int] == c);
        }
        let out = zipper(range, None, Some(value));
        let ghost before = entries(result);
        insert(&mut result, out);
        proof {
            lemma_record(zipper, left + right, outs, c, out, before, entries(result));
            assert((left + right).push(c) =~= left + right.push(c));
            assert(all_right.take(i as int).push(c) =~= all_right.take(i as int + 1));
            right = right.push(c);
            outs = outs.push(out);
        }
        i = i + 1;
    }
    proof {
        assert(right =~= all_right);
        assert forall|x: int| #[trigger]
            value_at(call_spans(left), x) == if covered(a, x) {
                Some(pair_at(a, b, x))
            } else {
                None
            } by {
            assert(value_at(call_spans(left), x) == if covered(a, x) && x < cur {
                Some(pair_at(a, b, x))
            } else {
                None
            });
            if covered(a, x) {
                let i = index_at(a, x);
                assert(covers(a, i, x));
                assert(a[i].1 <= cur);
            }
        }
        assert(is_tiling(a, b, left, right));
        assert(answers(zipper, left + right, outs));
    }
    result
}

/// No entry of `m2` overlaps what is left of the current entry of `a`, so
/// `b` covers none of it.
proof fn lemma_none_overlapping(
    a: Seq<Span<i64>>,
    b: Seq<Span<i64>>,
    cur: int,
    left: Seq<Call>,
    m2: Seq<Span<i64>>,
    end: int,
)
    requires
        progress(a, b, cur, left, m2),
        forall|i: int| 0 <= i < m2.len() ==> !overlaps(#[trigger] m2[i], cur, end),
    ensures
        forall|x: int| cur <= x < end ==> #[trigger] value_at(b, x) is None,
{
    assert forall|x: int| cur <= x < end implies #[trigger] value_at(b, x) is None by {
        assert(value_at(m2, x) == if covered(a, x) && x < cur {
            None
        } else {
            value_at(b, x)
        });
        if covered(m2, x) {
            let i = index_at(m2, x);
            assert(covers(m2, i, x));
            assert(overlaps(m2[i], cur, end));
        }
    }
}

/// Entry `i` of `m2` is the first that overlaps what is left of the current
/// entry of `a`: `b` covers nothing before it, carries its value on it, and
/// changes where it ends.
proof fn lemma_overlap_values(
    a: Seq<Span<i64>>,
    b: Seq<Span<i64>>,
    cur: int,
    left: Seq<Call>,
    m2: Seq<Span<i64>>,
    i: int,
    end: int,
)
    requires
        progress(a, b, cur, left, m2),
        first_overlap(m2, cur, end, i),
    ensures
        forall|x: int| cur <= x < m2[i].0 && x < end ==> #[trigger] value_at(b, x) is None,
        forall|x: int| cur <= x && m2[i].0 <= x < m2[i].1 ==> #[trigger] value_at(b, x) == Some(m2[i].2),
        value_at(b, m2[i].1) != Some(m2[i].2),
{
    assert forall|x: int| cur <= x < m2[i].0 && x < end implies #[trigger] value_at(b, x) is None by {
        assert(value_at(m2, x) == if covered(a, x) && x < cur {
            None
        } else {
            value_at(b, x)
        });
        if covered(m2, x) {
            let j = index_at(m2, x);
            assert(covers(m2, j, x));
            if j < i {
                assert(!overlaps(m2[j], cur, end));
            } else if j > i {
                assert(m2[i].1 <= m2[j].0);
                assert(m2[i].0 < m2[i].1);
            }
        }
    }
    assert forall|x: int| cur <= x && m2[i].0 <= x < m2[i].1 implies #[trigger] value_at(b, x) == Some(m2[i].2) by {
        assert(value_at(m2, x) == if covered(a, x) && x < cur {
            None
        } else {
            value_at(b, x)
        });
        assert(covers(m2, i, x));
        lemma_value_at(m2, i, x);
    }
    lemma_span_maximal(m2, i);
    let e = m2[i].1;
    assert(value_at(m2, e) == if covered(a, e) && e < cur {
        None
    } else {
        value_at(b, e)
    });
}

/// Where no pair covers `x`, nothing is there.
pub proof fn lemma_overlay_none(outs: Seq<Yield>, x: int)
    requires
        forall|i: int| 0 <= i < outs.len() ==> !((#[trigger] outs[i]) is Some && contains(outs[i].unwrap().0, x)),
    ensures
        overlay_at(outs, x) is None,
    decreases outs.len(),
{
    if outs.len() > 0 {
        assert(outs.last() == outs[outs.len() - 1]);
        assert forall|i: int| 0 <= i < outs.drop_last().len() implies !((#[trigger] outs.drop_last()[i]) is Some
            && contains(outs.drop_last()[i].unwrap().0, x)) by {
            assert(outs.drop_last()[i] == outs[i]);
        }
        lemma_overlay_none(outs.drop_last(), x);
    }
}

/// The last pair that covers `x` decides.
pub proof fn lemma_overlay_last(outs: Seq<Yield>, x: int, i: int)
    requires
        0 <= i < outs.len(),
        outs[i] is Some,
        contains(outs[i].unwrap().0, x),
        forall|j: int| i < j < outs.len() ==> !((#[trigger] outs[j]) is Some && contains(outs[j].unwrap().0, x)),
    ensures
        overlay_at(outs, x) == Some(outs[i].unwrap().1),
    decreases outs.len(),
{
    assert(outs.last() == outs[outs.len() - 1]);
    if i < outs.len() - 1 {
        assert forall|j: int| i < j < outs.drop_last().len() implies !((#[trigger] outs.drop_last()[j]) is Some
            && contains(outs.drop_last()[j].unwrap().0, x)) by {
            assert(outs.drop_last()[j] == outs[j]);
        }
        assert(outs.drop_last()[i] == outs[i]);
        lemma_overlay_last(outs.drop_last(), x, i);
    }
}

/// Every span of the tiling of the points that `a` covers is a tile.
pub proof fn lemma_span_tile(a: Seq<Span<i64>>, b: Seq<Span<i64>>, left: Seq<Call>, right: Seq<Call>, i: int)
    requires
        is_tiling(a, b, left, right),
        0 <= i < left.len(),
    ensures
        is_tile(a, b, left[i].0.start as int, left[i].0.end as int, left[i].1, left[i].2),
        left[i].1 is Some,
{
    let ls = call_spans(left);
    let c = left[i];
    assert(ls[i] == call_span(c));
    assert(ls[i].0 < ls[i].1);
    assert forall|y: int| c.0.start <= y < c.0.end implies #[trigger] pair_at(a, b, y) == (c.1, c.2) by {
        assert(covers(ls, i, y));
        lemma_value_at(ls, i, y);
        assert(value_at(ls, y) == if covered(a, y) {
            Some(pair_at(a, b, y))
        } else {
            None
        });
    }
    assert(c.1 is Some) by {
        let y = c.0.start as int;
        assert(covers(ls, i, y));
        lemma_value_at(ls, i, y);
        assert(value_at(ls, y) == if covered(a, y) {
            Some(pair_at(a, b, y))
        } else {
            None
        });
    }
    lemma_span_maximal(ls, i);
    let e = c.0.end as int;
    assert(value_at(ls, e) == if covered(a, e) {
        Some(pair_at(a, b, e))
    } else {
        None
    });
    let p = c.0.start - 1;
    assert(value_at(ls, p) == if covered(a, p) {
        Some(pair_at(a, b, p))
    } else {
        None
    });
}

/// The tiles that only `b` covers carry no value of `a`.
pub proof fn lemma_right_bare(a: Seq<Span<i64>>, b: Seq<Span<i64>>, left: Seq<Call>, right: Seq<Call>, j: int)
    requires
        is_tiling(a, b, left, right),
        0 <= j < right.len(),
    ensures
        right[j].1 is None,
{
    let rs = call_spans(right);
    let c = right[j];
    assert(rs[j] == call_span(c));
    assert(rs[j].0 < rs[j].1);
    let y = c.0.start as int;
    assert(covers(rs, j, y));
    lemma_value_at(rs, j, y);
    assert(value_at(rs, y) == if !covered(a, y) && covered(b, y) {
        Some(pair_at(a, b, y))
    } else {
        None
    });
}

/// A tile that `a` covers is listed among the tiles that `a` covers.
pub proof fn lemma_tile_listed(
    a: Seq<Span<i64>>,
    b: Seq<Span<i64>>,
    left: Seq<Call>,
    right: Seq<Call>,
    r: Range<i64>,
    l: Option<i64>,
    rv: Option<i64>,
) -> (i: int)
    requires
        is_tiling(a, b, left, right),
        is_tile(a, b, r.start as int, r.end as int, l, rv),
        l is Some,
    ensures
        0 <= i < left.len(),
        left[i].0.start == r.start,
        left[i].1 == l,
        left[i].2 == rv,
{
    let ls = call_spans(left);
    let x = r.start as int;
    assert(pair_at(a, b, x) == (l, rv));
    assert(value_at(ls, x) == if covered(a, x) {
        Some(pair_at(a, b, x))
    } else {
        None
    });
    let i = index_at(ls, x);
    assert(covers(ls, i, x));
    lemma_value_at(ls, i, x);
    assert(ls[i] == call_span(left[i]));
    if left[i].0.start < x {
        let p = x - 1;
        assert(covers(ls, i, p));
        lemma_value_at(ls, i, p);
        assert(value_at(ls, p) == if covered(a, p) {
            Some(pair_at(a, b, p))
        } else {
            None
        });
    }
    i
}

} // verus!
