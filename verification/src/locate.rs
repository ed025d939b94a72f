//! Sending whole ranges of seeds through a stage at once.

use crate::compose::{
    answers, call_span, call_spans, compose_maps_new, composes, is_tile, is_tiling, lemma_overlay_last,
    lemma_overlay_none, lemma_right_bare, lemma_span_tile, lemma_tile_listed, overlay_at, pair_at, Call, Yield,
};
use crate::interval::contains;
use crate::spans::{covered, covers, index_at, lemma_value_at, value_at, well_formed, Span};
use crate::stages::{or_zero, sent};
use crate::store::{all_entries, as_span, as_spans, entries, insert_range, new_map};
use rangemap::RangeMap;
use std::ops::Range;
use vstd::prelude::*;

verus! {

/// The seed range `(start, count)` can be held in `i64`: it is not empty
/// and ends within `i64`.
pub open spec fn seed_fits(s: (u64, u64)) -> bool {
    s.1 > 0 && s.0 + s.1 <= i64::MAX
}

/// Every seed range can be held in `i64`.
pub open spec fn seeds_in_range(seeds: Seq<(u64, u64)>) -> bool {
    forall|i: int| 0 <= i < seeds.len() ==> seed_fits(#[trigger] seeds[i])
}

/// The point `x` is a seed: one of the ranges `(start, count)` holds it.
pub open spec fn is_seed(seeds: Seq<(u64, u64)>, x: int) -> bool {
    exists|i: int| 0 <= i < seeds.len() && (#[trigger] seeds[i]).0 <= x < seeds[i].0 + seeds[i].1
}

/// Whether every seed range fits into `i64`.
pub fn seeds_fit(seeds: &Vec<(u64, u64)>) -> (ok: bool)
    ensures
        ok == seeds_in_range(seeds@),
{
    let mut i: usize = 0;
    while i < seeds.len()
        invariant
            i <= seeds@.len(),
            forall|j: int| 0 <= j < i ==> seed_fits(#[trigger] seeds@[j]),
        decreases seeds@.len() - i,
    {
        let (start, count) = seeds[i];
        let limit = i64::MAX as u64;
        if count == 0 || start > limit || count > limit - start {
            proof {
                assert(!seed_fits(seeds@[i as int]));
            }
            return false;
        }
        i = i + 1;
    }
    true
}

/// The interval map of the seed ranges: it covers exactly the seeds.  The
/// value that it gives to them, zero, means nothing.
///
/// Every seed range has to fit into `i64`.
pub fn seed_map(seeds: &Vec<(u64, u64)>) -> (map: RangeMap<i64, i64>)
    requires
        seeds_in_range(seeds@),
    ensures
        well_formed(entries(map)),
        forall|x: int| #[trigger]
            value_at(entries(map), x) == if is_seed(seeds@, x) {
                Some(0i64)
            } else {
                None
            },
{
    let mut map = new_map();
    let mut i: usize = 0;
    while i < seeds.len()
        invariant
            i <= seeds@.len(),
            seeds_in_range(seeds@),
            well_formed(entries(map)),
            forall|x: int| #[trigger]
                value_at(entries(map), x) == if is_seed(seeds@.take(i as int), x) {
                    Some(0i64)
                } else {
                    None
                },
        decreases seeds@.len() - i,
    {
        let (seed, count) = seeds[i];
        assert(seed_fits(seeds@[i as int]));
        let ghost before = entries(map);
        insert_range(&mut map, (seed as i64)..((seed + count) as i64), 0);
        proof {
            let done = seeds@.take(i as int);
            let next = seeds@.take(i as int + 1);
            assert forall|x: int| #[trigger]
                value_at(entries(map), x) == if is_seed(next, x) {
                    Some(0i64)
                } else {
                    None
                } by {
                assert(value_at(before, x) == if is_seed(done, x) {
                    Some(0i64)
                } else {
                    None
                });
                if seed <= x < seed + count {
                    assert(next[i as int] == seeds@[i as int]);
                } else if is_seed(done, x) {
                    let k = choose|k: int| 0 <= k < done.len() && (#[trigger] done[k]).0 <= x < done[k].0 + done[k].1;
                    assert(next[k] == done[k]);
                } else if is_seed(next, x) {
                    let k = choose|k: int| 0 <= k < next.len() && (#[trigger] next[k]).0 <= x < next[k].0 + next[k].1;
                    assert(k < i);
                    assert(next[k] == done[k]);
                }
            }
        }
        i = i + 1;
    }
    proof {
        assert(seeds@.take(i as int) =~= seeds@);
    }
    map
}

/// What the zipper of the range query returns for a tile: nothing where no
/// seed stands, else the tile with the place that its first point is sent
/// to.
pub open spec fn locate_zip(r: Range<i64>, left: Option<i64>, right: Option<i64>) -> Yield {
    if left is None {
        None
    } else {
        Some((r, (r.start + or_zero(right)) as i64))
    }
}

/// Every tile of seeds starts at a point that the stage sends to a place
/// within `i64`.
pub open spec fn locatable(seeds: Seq<Span<i64>>, stage: Seq<Span<i64>>) -> bool {
    forall|r: Range<i64>, left: Option<i64>, right: Option<i64>| #[trigger]
        is_tile(seeds, stage, r.start as int, r.end as int, left, right) && left is Some ==> i64::MIN <= r.start
            + or_zero(right) <= i64::MAX
}

/// `outs` lists what the zipper of the range query returns for `calls`.
spec fn locate_zipped(calls: Seq<Call>, outs: Seq<Yield>) -> bool {
    &&& outs.len() == calls.len()
    &&& forall|i: int| 0 <= i < calls.len() ==> #[trigger] outs[i] == locate_zip(calls[i].0, calls[i].1, calls[i].2)
}

/// The zipper kept every tile that `a` covers as it is, with some value,
/// and dropped every other tile.
spec fn keeps_left(left: Seq<Call>, right: Seq<Call>, outs: Seq<Yield>) -> bool {
    &&& outs.len() == left.len() + right.len()
    &&& forall|m: int|
        0 <= m < left.len() ==> (#[trigger] outs[m]) is Some && outs[m].unwrap().0.start == left[m].0.start
            && outs[m].unwrap().0.end == left[m].0.end
    &&& forall|m: int| left.len() <= m < outs.len() ==> (#[trigger] outs[m]) is None
}

/// Where the zipper keeps the tiles that `a` covers and drops the others,
/// a point that `a` covers holds what was returned for its tile, and no
/// other point holds anything.
proof fn lemma_kept_tiles(
    a: Seq<Span<i64>>,
    b: Seq<Span<i64>>,
    left: Seq<Call>,
    right: Seq<Call>,
    outs: Seq<Yield>,
    x: int,
) -> (i: int)
    requires
        is_tiling(a, b, left, right),
        keeps_left(left, right, outs),
    ensures
        !covered(a, x) ==> overlay_at(outs, x) is None,
        covered(a, x) ==> {
            &&& 0 <= i < left.len()
            &&& left[i].0.start <= x < left[i].0.end
            &&& (left[i].1, left[i].2) == pair_at(a, b, x)
            &&& overlay_at(outs, x) == Some(outs[i].unwrap().1)
        },
{
    let n = left.len() as int;
    let ls = call_spans(left);
    assert(value_at(ls, x) == if covered(a, x) {
        Some(pair_at(a, b, x))
    } else {
        None
    });
    assert forall|m: int| 0 <= m < n && contains((#[trigger] outs[m]).unwrap().0, x) implies covers(ls, m, x) by {
        assert(ls[m] == call_span(left[m]));
    }
    if covered(a, x) {
        let i = index_at(ls, x);
        assert(covers(ls, i, x));
        lemma_value_at(ls, i, x);
        assert(ls[i] == call_span(left[i]));
        assert forall|m: int| i < m < outs.len() implies !((#[trigger] outs[m]) is Some && contains(
            outs[m].unwrap().0,
            x,
        )) by {
            if m < n && contains(outs[m].unwrap().0, x) {
                assert(covers(ls, m, x));
                assert(ls[i].1 <= ls[m].0);
            }
        }
        lemma_overlay_last(outs, x, i);
        i
    } else {
        assert forall|m: int| 0 <= m < outs.len() implies !((#[trigger] outs[m]) is Some && contains(
            outs[m].unwrap().0,
            x,
        )) by {
            if m < n && contains(outs[m].unwrap().0, x) {
                assert(covers(ls, m, x));
                lemma_value_at(ls, m, x);
            }
        }
        lemma_overlay_none(outs, x);
        0
    }
}

/// What the range query has inserted at the point `x`: nothing if `x` is no
/// seed, else the place that some seed `s <= x` is sent to, a seed that the
/// stage moves by as much as it moves `x`.
proof fn lemma_located(
    a: Seq<Span<i64>>,
    b: Seq<Span<i64>>,
    left: Seq<Call>,
    right: Seq<Call>,
    outs: Seq<Yield>,
    x: int,
) -> (s: int)
    requires
        locatable(a, b),
        is_tiling(a, b, left, right),
        locate_zipped(left + right, outs),
    ensures
        !covered(a, x) ==> overlay_at(outs, x) is None,
        covered(a, x) ==> {
            &&& s <= x
            &&& covered(a, s)
            &&& or_zero(value_at(b, s)) == or_zero(value_at(b, x))
            &&& overlay_at(outs, x) == Some(sent(b, s) as i64)
            &&& i64::MIN <= sent(b, s) <= i64::MAX
        },
{
    let n = left.len() as int;
    assert forall|m: int| 0 <= m < n implies (#[trigger] outs[m]) is Some && outs[m].unwrap().0.start
        == left[m].0.start && outs[m].unwrap().0.end == left[m].0.end by {
        assert((left + right)[m] == left[m]);
        lemma_span_tile(a, b, left, right, m);
    }
    assert forall|m: int| n <= m < outs.len() implies (#[trigger] outs[m]) is None by {
        assert((left + right)[m] == right[m - n]);
        lemma_right_bare(a, b, left, right, m - n);
    }
    let i = lemma_kept_tiles(a, b, left, right, outs, x);
    if covered(a, x) {
        let s = left[i].0.start as int;
        lemma_span_tile(a, b, left, right, i);
        assert((left + right)[i] == left[i]);
        assert(pair_at(a, b, s) == (left[i].1, left[i].2));
        s
    } else {
        0
    }
}

/// `lowest` is the lowest place that `stage` sends a seed to, `None` where
/// there is no seed.
pub open spec fn is_lowest(seeds: Seq<Span<i64>>, stage: Seq<Span<i64>>, lowest: Option<i64>) -> bool {
    &&& lowest is None <==> forall|x: int| !covered(seeds, x)
    &&& lowest is Some ==> exists|x: int| covered(seeds, x) && lowest.unwrap() == #[trigger] sent(stage, x)
    &&& lowest is Some ==> forall|x: int| covered(seeds, x) ==> lowest.unwrap() <= #[trigger] sent(stage, x)
}

/// `lowest` is the least value that an entry carries, `None` where there is
/// no entry.
pub open spec fn is_least_value(es: Seq<Span<i64>>, lowest: Option<i64>) -> bool {
    &&& lowest is None <==> es.len() == 0
    &&& lowest is Some ==> exists|j: int| 0 <= j < es.len() && lowest.unwrap() == (#[trigger] es[j]).2
    &&& lowest is Some ==> forall|j: int| 0 <= j < es.len() ==> lowest.unwrap() <= (#[trigger] es[j]).2
}

/// The range query at the composer: where the seeds are composed with a
/// stage through the zipper that keeps each tile of seeds with the place
/// that its first point is sent to, the least value of the result is the
/// lowest place that the stage sends any seed to.
pub proof fn lemma_query_lowest<F: Fn(Range<i64>, Option<i64>, Option<i64>) -> Yield>(
    zipper: F,
    seeds: Seq<Span<i64>>,
    stage: Seq<Span<i64>>,
    result: Seq<Span<i64>>,
    lowest: Option<i64>,
)
    requires
        locatable(seeds, stage),
        forall|c: Call, out: Yield| #[trigger] zipper.ensures(c, out) ==> out == locate_zip(c.0, c.1, c.2),
        composes(zipper, seeds, stage, result),
        well_formed(result),
        is_least_value(result, lowest),
    ensures
        is_lowest(seeds, stage, lowest),
{
    let (left, right, outs) = choose|left: Seq<Call>, right: Seq<Call>, outs: Seq<Yield>|
        {
            &&& is_tiling(seeds, stage, left, right)
            &&& #[trigger] answers(zipper, left + right, outs)
            &&& forall|x: int| #[trigger] value_at(result, x) == overlay_at(outs, x)
        };
    assert forall|i: int| 0 <= i < (left + right).len() implies #[trigger] outs[i] == locate_zip(
        (left + right)[i].0,
        (left + right)[i].1,
        (left + right)[i].2,
    ) by {
        assert(zipper.ensures((left + right)[i], outs[i]));
    }
    if lowest is None {
        assert forall|x: int| !covered(seeds, x) by {
            let s = lemma_located(seeds, stage, left, right, outs, x);
            assert(value_at(result, x) == overlay_at(outs, x));
            assert(forall|j: int| !covers(result, j, x));
        }
    } else {
        let low = lowest.unwrap();
        let j = choose|j: int| 0 <= j < result.len() && low == (#[trigger] result[j]).2;
        let p = result[j].0;
        assert(result[j].0 < result[j].1);
        assert(covers(result, j, p));
        lemma_value_at(result, j, p);
        assert(value_at(result, p) == overlay_at(outs, p));
        let s = lemma_located(seeds, stage, left, right, outs, p);
        assert(covered(seeds, s) && low == sent(stage, s));
        assert forall|x: int| covered(seeds, x) implies low <= #[trigger] sent(stage, x) by {
            let s = lemma_located(seeds, stage, left, right, outs, x);
            assert(value_at(result, x) == overlay_at(outs, x));
            let m = index_at(result, x);
            assert(covers(result, m, x));
            lemma_value_at(result, m, x);
            assert(low <= result[m].2);
        }
    }
}

/// The lowest place that the stage sends a seed to; `None` where there is no
/// seed.
///
/// `seed_map` covers the seeds (its values mean nothing) and `stage` holds
/// the offsets.  The two are composed: each tile of seeds is kept with the
/// place that its first point is sent to, which is the lowest of the tile,
/// and the lowest of these is returned.
///
/// The first point of every tile of seeds has to be sent to a place within
/// `i64`.
pub fn lowest_location(seed_map: &RangeMap<i64, i64>, stage: &RangeMap<i64, i64>) -> (lowest: Option<i64>)
    requires
        locatable(entries(*seed_map), entries(*stage)),
    ensures
        is_lowest(entries(*seed_map), entries(*stage), lowest),
{
    let ghost a = entries(*seed_map);
    let ghost b = entries(*stage);
    let zipper = |r: Range<i64>, x1: Option<i64>, x2: Option<i64>| -> (out: Yield)
        requires
            x1 is Some ==> i64::MIN <= r.start + or_zero(x2) <= i64::MAX,
        ensures
            out == locate_zip(r, x1, x2),
        {
            // where there is no seed, there is nothing to send
            if x1.is_none() {
                return None;
            }
            let delta: i64 = match x2 {
                Some(d) => d,
                None => 0,
            };
            let first = r.start;
            Some((r, first + delta))
        };
    let final_map = compose_maps_new(zipper, seed_map, stage);
    let all = all_entries(&final_map);
    let ghost found = entries(final_map);
    let mut lowest: Option<i64> = None;
    let mut i: usize = 0;
    while i < all.len()
        invariant
            i <= all.len(),
            as_spans(all@) == found,
            lowest is None <==> i == 0,
            lowest is Some ==> exists|j: int| 0 <= j < i && lowest.unwrap() == (#[trigger] found[j]).2,
            lowest is Some ==> forall|j: int| 0 <= j < i ==> lowest.unwrap() <= (#[trigger] found[j]).2,
        decreases all.len() - i,
    {
        let value = all[i].1;
        proof {
            assert(found[i as int] == as_span(all@[i as int]));
        }
        lowest =
        match lowest {
            Some(low) if low <= value => Some(low),
            _ => Some(value),
        };
        i = i + 1;
    }
    proof {
        lemma_query_lowest(zipper, a, b, found, lowest);
    }
    lowest
}

/// What the zipper that looks for trouble returns for a tile: nothing where
/// no seed stands, else the tile with `0` if its first point is sent to a
/// place within `i64`, and with `1` if not.
spec fn probe_zip(r: Range<i64>, left: Option<i64>, right: Option<i64>) -> Yield {
    if left is None {
        None
    } else if i64::MIN <= r.start + or_zero(right) <= i64::MAX {
        Some((r, 0i64))
    } else {
        Some((r, 1i64))
    }
}

/// Whether the first point of every tile of seeds is sent to a place within
/// `i64`.
pub fn can_locate(seed_map: &RangeMap<i64, i64>, stage: &RangeMap<i64, i64>) -> (ok: bool)
    ensures
        ok == locatable(entries(*seed_map), entries(*stage)),
{
    let ghost a = entries(*seed_map);
    let ghost b = entries(*stage);
    let zipper = |r: Range<i64>, x1: Option<i64>, x2: Option<i64>| -> (out: Yield)
        ensures
            out == probe_zip(r, x1, x2),
        {
            if x1.is_none() {
                return None;
            }
            let delta: i64 = match x2 {
                Some(d) => d,
                None => 0,
            };
            let place: i128 = (r.start as i128) + (delta as i128);
            if (i64::MIN as i128) <= place && place <= (i64::MAX as i128) {
                Some((r, 0))
            } else {
                Some((r, 1))
            }
        };
    let probed = compose_maps_new(zipper, seed_map, stage);
    let all = all_entries(&probed);
    let ghost found = entries(probed);
    let ghost (left, right, outs) = choose|left: Seq<Call>, right: Seq<Call>, outs: Seq<Yield>|
        {
            &&& is_tiling(a, b, left, right)
            &&& #[trigger] answers(zipper, left + right, outs)
            &&& forall|x: int| #[trigger] value_at(found, x) == overlay_at(outs, x)
        };
    let ghost n = left.len() as int;
    proof {
        assert forall|m: int| 0 <= m < n implies (#[trigger] outs[m]) == probe_zip(
            left[m].0,
            left[m].1,
            left[m].2,
        ) && left[m].1 is Some by {
            assert((left + right)[m] == left[m]);
            assert(zipper.ensures((left + right)[m], outs[m]));
            lemma_span_tile(a, b, left, right, m);
        }
        assert forall|m: int| n <= m < outs.len() implies (#[trigger] outs[m]) is None by {
            assert((left + right)[m] == right[m - n]);
            assert(zipper.ensures((left + right)[m], outs[m]));
            lemma_right_bare(a, b, left, right, m - n);
        }
        assert(keeps_left(left, right, outs));
    }
    let mut i: usize = 0;
    while i < all.len()
        invariant
            i <= all.len(),
            as_spans(all@) == found,
            forall|j: int| 0 <= j < i ==> (#[trigger] found[j]).2 == 0,
        ensures
            i <= all.len(),
            i < all.len() ==> found[i as int].2 != 0,
            forall|j: int| 0 <= j < i ==> (#[trigger] found[j]).2 == 0,
        decreases all.len() - i,
    {
        proof {
            assert(found[i as int] == as_span(all@[i as int]));
        }
        if all[i].1 != 0 {
            break ;
        }
        i = i + 1;
    }
    let ok = i == all.len();
    proof {
        if ok {
            assert forall|r: Range<i64>, l: Option<i64>, rv: Option<i64>| #[trigger]
                is_tile(a, b, r.start as int, r.end as int, l, rv) && l is Some implies i64::MIN <= r.start + or_zero(
                rv,
            ) <= i64::MAX by {
                let m = lemma_tile_listed(a, b, left, right, r, l, rv);
                let x = r.start as int;
                let t = lemma_kept_tiles(a, b, left, right, outs, x);
                assert(covered(a, x)) by {
                    assert(pair_at(a, b, x) == (l, rv));
                }
                assert(t == m) by {
                    let ls = call_spans(left);
                    assert(ls[t] == call_span(left[t]));
                    assert(ls[m] == call_span(left[m]));
                    lemma_span_tile(a, b, left, right, m);
                    assert(covers(ls, t, x));
                    assert(covers(ls, m, x));
                    lemma_value_at(ls, t, x);
                    lemma_value_at(ls, m, x);
                }
                assert(value_at(found, x) == overlay_at(outs, x));
                let e = index_at(found, x);
                assert(covers(found, e, x));
                lemma_value_at(found, e, x);
            }
        } else {
            let j = i as int;
            let p = found[j].0;
            assert(found[j].0 < found[j].1);
            assert(covers(found, j, p));
            lemma_value_at(found, j, p);
            assert(value_at(found, p) == overlay_at(outs, p));
            let t = lemma_kept_tiles(a, b, left, right, outs, p);
            lemma_span_tile(a, b, left, right, t);
            assert(!locatable(a, b)) by {
                let r = left[t].0;
                assert(is_tile(a, b, r.start as int, r.end as int, left[t].1, left[t].2) && left[t].1 is Some);
            }
        }
    }
    ok
}

} // verus!
