//! The inverse of a stage.

use crate::spans::{covers, lemma_value_at, value_at, well_formed, Span};
use crate::store::{
    all_entries, as_span, as_spans, entries, in_range, insert_range, lemma_entries_in_range, new_map,
};
use rangemap::RangeMap;
use vstd::prelude::*;

verus! {

/// The entry can be inverted within `i64`: its shifted interval and its
/// negated offset fit.
pub open spec fn shift_fits(e: Span<i64>) -> bool {
    &&& i64::MIN <= e.0 + e.2
    &&& e.1 + e.2 <= i64::MAX
    &&& e.2 > i64::MIN
}

/// Every entry can be inverted within `i64`.
pub open spec fn invertible(es: Seq<Span<i64>>) -> bool {
    forall|i: int| 0 <= i < es.len() ==> shift_fits(#[trigger] es[i])
}

/// The point `y` lies in the interval of `e` shifted by its offset.
pub open spec fn lands_in(e: Span<i64>, y: int) -> bool {
    e.0 + e.2 <= y < e.1 + e.2
}

/// The offset that the inverse of the stage gives to the point `y`: the
/// negated offset of the last entry whose shifted interval contains `y`.
pub open spec fn inverse_at(es: Seq<Span<i64>>, y: int) -> Option<i64>
    decreases es.len(),
{
    if es.len() == 0 {
        None
    } else if lands_in(es.last(), y) {
        Some((-es.last().2) as i64)
    } else {
        inverse_at(es.drop_last(), y)
    }
}

/// No two entries land on a common point: the stage is one to one on the
/// points that it covers.
pub open spec fn one_to_one(es: Seq<Span<i64>>) -> bool {
    forall|i: int, j: int, y: int|
        0 <= i < es.len() && 0 <= j < es.len() && #[trigger] lands_in(es[i], y) && #[trigger] lands_in(es[j], y)
            ==> i == j
}

/// An inverse offset at `y` comes from an entry that lands on `y`.
pub proof fn lemma_inverse_witness(es: Seq<Span<i64>>, y: int) -> (i: int)
    requires
        inverse_at(es, y) is Some,
    ensures
        0 <= i < es.len(),
        lands_in(es[i], y),
        inverse_at(es, y) == Some((-es[i].2) as i64),
    decreases es.len(),
{
    if lands_in(es.last(), y) {
        es.len() - 1
    } else {
        let i = lemma_inverse_witness(es.drop_last(), y);
        assert(es.drop_last()[i] == es[i]);
        i
    }
}

/// Where an entry lands on `y`, the inverse covers `y`.
pub proof fn lemma_inverse_covered(es: Seq<Span<i64>>, i: int, y: int)
    requires
        0 <= i < es.len(),
        lands_in(es[i], y),
    ensures
        inverse_at(es, y) is Some,
    decreases es.len(),
{
    if !lands_in(es.last(), y) {
        assert(es.drop_last()[i] == es[i]);
        lemma_inverse_covered(es.drop_last(), i, y);
    }
}

/// Whether every entry of the stage can be inverted within `i64`.
pub fn can_invert(rm: &RangeMap<i64, i64>) -> (ok: bool)
    ensures
        ok == invertible(entries(*rm)),
{
    let all = all_entries(rm);
    let ghost es = entries(*rm);
    let mut i: usize = 0;
    while i < all.len()
        invariant
            i <= all.len(),
            es == entries(*rm),
            as_spans(all@) == es,
            forall|j: int| 0 <= j < i ==> shift_fits(#[trigger] es[j]),
        decreases all.len() - i,
    {
        let start = all[i].0.start;
        let end = all[i].0.end;
        let delta = all[i].1;
        proof {
            assert(es[i as int] == as_span(all@[i as int]));
        }
        let low: i128 = (start as i128) + (delta as i128);
        let high: i128 = (end as i128) + (delta as i128);
        if low < (i64::MIN as i128) || high > (i64::MAX as i128) || delta == i64::MIN {
            proof {
                assert(!shift_fits(es[i as int]));
            }
            return false;
        }
        i = i + 1;
    }
    true
}

/// `inv` is the inverse of the stage `m`, as a well-formed map.
pub open spec fn is_inverse(m: Seq<Span<i64>>, inv: Seq<Span<i64>>) -> bool {
    &&& well_formed(inv)
    &&& forall|y: int| #[trigger] value_at(inv, y) == inverse_at(m, y)
}

/// The inverse of a stage can be inverted within `i64`: its entries land
/// within the entries of the stage, and their offsets are the negated
/// offsets of the stage.
pub proof fn lemma_inverse_invertible(m: Seq<Span<i64>>, inv: Seq<Span<i64>>)
    requires
        in_range(m),
        invertible(m),
        is_inverse(m, inv),
    ensures
        invertible(inv),
{
    assert forall|j: int| 0 <= j < inv.len() implies shift_fits(#[trigger] inv[j]) by {
        let first = inv[j].0;
        let last = inv[j].1 - 1;
        assert(covers(inv, j, first));
        assert(covers(inv, j, last));
        lemma_value_at(inv, j, first);
        lemma_value_at(inv, j, last);
        assert(value_at(inv, first) == inverse_at(m, first));
        assert(value_at(inv, last) == inverse_at(m, last));
        let i = lemma_inverse_witness(m, first);
        let k = lemma_inverse_witness(m, last);
        assert(shift_fits(m[i]));
        assert(shift_fits(m[k]));
    }
}

/// Inverts a stage: every entry `(start..end, offset)` becomes
/// `(start + offset..end + offset, -offset)`.  Where two entries land on a
/// common point, the later one decides there.
///
/// Every entry has to be invertible within `i64`.
///
/// The inverse can be inverted in turn.  The stage that is handed in is
/// well formed, as every map is; the last clause says so for the proofs of
/// those who call.
pub fn invert_map(rm: &RangeMap<i64, i64>) -> (result: RangeMap<i64, i64>)
    requires
        invertible(entries(*rm)),
    ensures
        is_inverse(entries(*rm), entries(result)),
        invertible(entries(result)),
        well_formed(entries(*rm)),
{
    let all = all_entries(rm);
    let ghost es = entries(*rm);
    let mut result = new_map();
    let mut i: usize = 0;
    while i < all.len()
        invariant
            i <= all.len(),
            es == entries(*rm),
            as_spans(all@) == es,
            well_formed(es),
            invertible(es),
            well_formed(entries(result)),
            forall|y: int| #[trigger] value_at(entries(result), y) == inverse_at(es.take(i as int), y),
        decreases all.len() - i,
    {
        let start = all[i].0.start;
        let end = all[i].0.end;
        let delta = all[i].1;
        proof {
            assert(es[i as int] == as_span(all@[i as int]));
            assert(shift_fits(es[i as int]));
            assert(es[i as int].0 < es[i as int].1);
        }
        let ghost before = entries(result);
        insert_range(&mut result, (start + delta)..(end + delta), -delta);
        proof {
            let done = es.take(i as int);
            let next = es.take(i as int + 1);
            assert(next.drop_last() =~= done);
            assert(next.last() == es[i as int]);
            assert forall|y: int| #[trigger] value_at(entries(result), y) == inverse_at(next, y) by {
                assert(value_at(before, y) == inverse_at(done, y));
            }
        }
        i = i + 1;
    }
    proof {
        assert(es.take(i as int) =~= es);
        lemma_entries_in_range(*rm);
        lemma_inverse_invertible(es, entries(result));
    }
    result
}

} // verus!
