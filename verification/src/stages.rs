//! Stages: interval maps whose values are offsets.
//!
//! A stage sends a point `x` that it covers to `x + offset`, and every other
//! point to itself.

use crate::parse::StageMap;
use crate::spans::{lemma_disjoint, non_empty, value_at, well_formed, Span};
use crate::store::{
    all_entries, all_overlapping, as_span, as_spans, entries, insert_range, is_stretch, lookup, new_map, overlaps,
};
use rangemap::RangeMap;
use vstd::prelude::*;

verus! {

/// The triple can be held in `i64`: its source interval is not empty and
/// ends within `i64`, and so does its destination start.
pub open spec fn triple_fits(t: (u64, u64, u64)) -> bool {
    &&& t.2 > 0
    &&& t.1 + t.2 <= i64::MAX
    &&& t.0 <= i64::MAX
}

/// Every triple can be held in `i64`.
pub open spec fn triples_fit(ms: Seq<(u64, u64, u64)>) -> bool {
    forall|i: int| 0 <= i < ms.len() ==> triple_fits(#[trigger] ms[i])
}

/// The offset that the written stage gives to the point `x`: that of the
/// last triple whose source interval contains `x`.
pub open spec fn stage_at(ms: Seq<(u64, u64, u64)>, x: int) -> Option<i64>
    decreases ms.len(),
{
    if ms.len() == 0 {
        None
    } else if ms.last().1 <= x < ms.last().1 + ms.last().2 {
        Some((ms.last().0 - ms.last().1) as i64)
    } else {
        stage_at(ms.drop_last(), x)
    }
}

/// Whether every triple of the written stage fits into `i64`.
pub fn stage_fits(stage_map: &StageMap) -> (ok: bool)
    ensures
        ok == triples_fit(stage_map.mappings@),
{
    let mut i: usize = 0;
    while i < stage_map.mappings.len()
        invariant
            i <= stage_map.mappings@.len(),
            forall|j: int| 0 <= j < i ==> triple_fits(#[trigger] stage_map.mappings@[j]),
        decreases stage_map.mappings@.len() - i,
    {
        let (dest, src, len) = stage_map.mappings[i];
        let limit = i64::MAX as u64;
        if len == 0 || dest > limit || src > limit || len > limit - src {
            proof {
                assert(!triple_fits(stage_map.mappings@[i as int]));
            }
            return false;
        }
        i = i + 1;
    }
    true
}

/// The interval map of a written stage: each triple's source interval maps
/// to the triple's offset, destination start minus source start.  Where two
/// source intervals overlap, the later triple decides.
///
/// Every triple has to fit into `i64`.
pub fn collect_map(stage_map: &StageMap) -> (range_map: RangeMap<i64, i64>)
    requires
        triples_fit(stage_map.mappings@),
    ensures
        well_formed(entries(range_map)),
        forall|x: int| #[trigger] value_at(entries(range_map), x) == stage_at(stage_map.mappings@, x),
{
    let mut range_map = new_map();
    let mut i: usize = 0;
    while i < stage_map.mappings.len()
        invariant
            i <= stage_map.mappings@.len(),
            triples_fit(stage_map.mappings@),
            well_formed(entries(range_map)),
            forall|x: int| #[trigger]
                value_at(entries(range_map), x) == stage_at(stage_map.mappings@.take(i as int), x),
        decreases stage_map.mappings@.len() - i,
    {
        let (udest, usrc, ulen) = stage_map.mappings[i];
        assert(triple_fits(stage_map.mappings@[i as int]));
        let (dest, src, len) = (udest as i64, usrc as i64, ulen as i64);
        let delta = dest - src;
        let ghost before = entries(range_map);
        insert_range(&mut range_map, src..(src + len), delta);
        proof {
            let done = stage_map.mappings@.take(i as int);
            let next = stage_map.mappings@.take(i as int + 1);
            assert(next.drop_last() =~= done);
            assert(next.last() == stage_map.mappings@[i as int]);
            assert forall|x: int| #[trigger] value_at(entries(range_map), x) == stage_at(next, x) by {
                assert(value_at(before, x) == stage_at(done, x));
            }
        }
        i = i + 1;
    }
    proof {
        assert(stage_map.mappings@.take(i as int) =~= stage_map.mappings@);
    }
    range_map
}

/// The source intervals of the two triples share no point.
pub open spec fn triples_apart(s: (u64, u64, u64), t: (u64, u64, u64)) -> bool {
    s.1 + s.2 <= t.1 || t.1 + t.2 <= s.1
}

/// No two triples claim a common source point.
pub open spec fn sources_disjoint(ms: Seq<(u64, u64, u64)>) -> bool {
    forall|i: int, j: int| 0 <= i < j < ms.len() ==> triples_apart(#[trigger] ms[i], #[trigger] ms[j])
}

/// Whether the source intervals of the written stage stand apart: no two
/// triples claim a common source point.
///
/// Where they do not, [`collect_map`] lets the later triple decide, and the
/// stage is not what was written.
pub fn sources_apart(stage_map: &StageMap) -> (ok: bool)
    ensures
        ok == sources_disjoint(stage_map.mappings@),
{
    let ghost ms = stage_map.mappings@;
    let mut j: usize = 0;
    while j < stage_map.mappings.len()
        invariant
            j <= ms.len(),
            ms == stage_map.mappings@,
            forall|i: int, k: int| 0 <= i < k < j ==> triples_apart(#[trigger] ms[i], #[trigger] ms[k]),
        decreases ms.len() - j,
    {
        let (_, start, len) = stage_map.mappings[j];
        let mut i: usize = 0;
        while i < j
            invariant
                i <= j < ms.len(),
                ms == stage_map.mappings@,
                ms[j as int].1 == start,
                ms[j as int].2 == len,
                forall|n: int| 0 <= n < i ==> triples_apart(#[trigger] ms[n], ms[j as int]),
            decreases j - i,
        {
            let (_, other, other_len) = stage_map.mappings[i];
            let apart = (other as u128) + (other_len as u128) <= (start as u128) || (start as u128) + (len as u128)
                <= (other as u128);
            if !apart {
                proof {
                    assert(!triples_apart(ms[i as int], ms[j as int]));
                }
                return false;
            }
            i = i + 1;
        }
        j = j + 1;
    }
    true
}

/// No entry is empty and no two entries share a point.
pub open spec fn no_overlaps<V>(es: Seq<Span<V>>) -> bool {
    &&& non_empty(es)
    &&& forall|i: int, j: int|
        0 <= i < es.len() && 0 <= j < es.len() && i != j ==> (#[trigger] es[i]).1 <= (#[trigger] es[j]).0 || es[j].1
            <= es[i].0
}

/// Checks that the only entry of the map that overlaps an entry is that
/// entry itself, for every entry.
///
/// The map keeps its entries apart by itself, so the check finds nothing:
/// the answer is always `true`.
pub fn check_no_overlaps(rm: &RangeMap<i64, i64>) -> (ok: bool)
    ensures
        ok == no_overlaps(entries(*rm)),
        ok,
{
    let all = all_entries(rm);
    let ghost es = entries(*rm);
    let mut ok = true;
    let mut i: usize = 0;
    while i < all.len()
        invariant
            i <= all.len(),
            es == entries(*rm),
            as_spans(all@) == es,
            well_formed(es),
            ok,
        decreases all.len() - i,
    {
        let found = all_overlapping(rm, &all[i].0);
        proof {
            let start = all[i as int].0.start as int;
            let end = all[i as int].0.end as int;
            let k = choose|k: int| is_stretch(es, as_spans(found@), start, end, k);
            assert(es[i as int] == as_span(all@[i as int]));
            assert(es[i as int].0 < es[i as int].1);
            assert(overlaps(es[i as int], es[i as int].0, es[i as int].1));
            assert(k <= i < k + found@.len());
            assert forall|j: int| 0 <= j < es.len() && j != i implies !overlaps(
                #[trigger] es[j],
                es[i as int].0,
                es[i as int].1,
            ) by {
                lemma_disjoint(es, i as int, j);
            }
            if k < i {
                assert(overlaps(es[k], es[i as int].0, es[i as int].1));
            }
            if k + found@.len() > i + 1 {
                assert(overlaps(es[i as int + 1], es[i as int].0, es[i as int].1));
            }
            assert(found@.len() == 1);
            assert(as_spans(found@)[0] == es.subrange(k, k + 1)[0]);
            assert(as_span(found@[0]) == es[i as int]);
        }
        if !(found.len() == 1 && found[0].0.start == all[i].0.start && found[0].0.end == all[i].0.end) {
            ok = false;
        }
        i = i + 1;
    }
    proof {
        assert forall|i: int, j: int| 0 <= i < es.len() && 0 <= j < es.len() && i != j implies (#[trigger] es[i]).1
            <= (#[trigger] es[j]).0 || es[j].1 <= es[i].0 by {
            lemma_disjoint(es, i, j);
        }
    }
    ok
}

/// The offset of an optional entry: zero where there is none.
pub open spec fn or_zero(v: Option<i64>) -> int {
    match v {
        Some(d) => d as int,
        None => 0,
    }
}

/// Where the stage sends the point `x`.
pub open spec fn sent(stage: Seq<Span<i64>>, x: int) -> int {
    x + or_zero(value_at(stage, x))
}

/// Where the stages send the point `x`, one after the other.
pub open spec fn sent_through(stages: Seq<Seq<Span<i64>>>, x: int) -> int
    decreases stages.len(),
{
    if stages.len() == 0 {
        x
    } else {
        sent(stages.last(), sent_through(stages.drop_last(), x))
    }
}

/// Every stop on the way of `x` through the stages lies within `i64`.
pub open spec fn way_fits(stages: Seq<Seq<Span<i64>>>, x: int) -> bool {
    forall|n: int| 0 <= n <= stages.len() ==> i64::MIN <= #[trigger] sent_through(stages.take(n), x) <= i64::MAX
}

/// The offset that the stage gives to a point: zero where the stage does
/// not cover the point.
pub fn offset_at(stage: &RangeMap<i64, i64>, value: i64) -> (delta: i64)
    ensures
        delta == or_zero(value_at(entries(*stage), value as int)),
{
    match lookup(stage, value) {
        Some(delta) => delta,
        None => 0,
    }
}

/// Sends a point through one stage: a point that the stage covers moves by
/// the stage's offset there, any other point stays.
///
/// The result has to fit into `i64`.
pub fn apply_stage(stage: &RangeMap<i64, i64>, value: i64) -> (moved: i64)
    requires
        i64::MIN <= sent(entries(*stage), value as int) <= i64::MAX,
    ensures
        moved == sent(entries(*stage), value as int),
{
    value + offset_at(stage, value)
}

/// The entries of each stage of a list.
pub open spec fn entries_of_all(stages: Seq<RangeMap<i64, i64>>) -> Seq<Seq<Span<i64>>> {
    Seq::new(stages.len(), |i: int| entries(stages[i]))
}

/// Sends a point through the stages in order.
///
/// Every stop on the way has to fit into `i64`.
pub fn apply_stages(stages: &Vec<RangeMap<i64, i64>>, value: i64) -> (moved: i64)
    requires
        way_fits(entries_of_all(stages@), value as int),
    ensures
        moved == sent_through(entries_of_all(stages@), value as int),
{
    let ghost all = entries_of_all(stages@);
    let mut moved = value;
    let mut i: usize = 0;
    proof {
        assert(all.take(0) =~= Seq::<Seq<Span<i64>>>::empty());
    }
    while i < stages.len()
        invariant
            i <= stages@.len(),
            all == entries_of_all(stages@),
            way_fits(all, value as int),
            moved == sent_through(all.take(i as int), value as int),
        decreases stages@.len() - i,
    {
        proof {
            let next = all.take(i as int + 1);
            assert(next.drop_last() =~= all.take(i as int));
            assert(next.last() == entries(stages@[i as int]));
            assert(i64::MIN <= sent_through(next, value as int) <= i64::MAX);
        }
        moved = apply_stage(&stages[i], moved);
        i = i + 1;
    }
    proof {
        assert(all.take(i as int) =~= all);
    }
    moved
}

} // verus!
