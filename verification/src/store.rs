//! The interval map itself is `rangemap::RangeMap<i64, i64>`.
//!
//! Verus cannot look inside it, so this module names what a map holds
//! ([`entries`]) and states, for each `RangeMap` method the library calls,
//! what that method does to the entries.  None of these statements is
//! proved: they are read off `rangemap`'s source and documentation, and
//! everything else in the library is proved from them.
//!
//! `rangemap` stores its ranges in ascending order, never stores an empty
//! range, never lets two stored ranges overlap, and merges ranges that touch
//! and map to the same value.  That is [`well_formed`] of the entries; the
//! functions below that hand out a new or changed map say so of it.

use crate::spans::{is_update, value_at, well_formed, Span};
use rangemap::RangeMap;
use std::ops::Range;
use vstd::prelude::*;

verus! {

/// `rangemap::RangeMap`, as a type whose inside the verifier does not see.
#[verifier::external_type_specification]
#[verifier::external_body]
#[verifier::reject_recursive_types(K)]
#[verifier::reject_recursive_types(V)]
pub struct ExRangeMap<K, V>(RangeMap<K, V>);

/// The stored `(start, end, value)` triples of a map, in ascending order.
pub uninterp spec fn stored(m: RangeMap<i64, i64>) -> Seq<(i64, i64, i64)>;

/// The entries of a map as spans, in ascending order.
pub open spec fn entries(m: RangeMap<i64, i64>) -> Seq<Span<i64>> {
    Seq::new(stored(m).len(), |i: int| (stored(m)[i].0 as int, stored(m)[i].1 as int, stored(m)[i].2))
}

/// Every coordinate of a span lies within `i64`.
pub open spec fn in_range<V>(es: Seq<Span<V>>) -> bool {
    forall|i: int|
        0 <= i < es.len() ==> i64::MIN <= (#[trigger] es[i]).0 <= i64::MAX && i64::MIN <= es[i].1 <= i64::MAX
}

/// The entries of a map lie within `i64`.
pub proof fn lemma_entries_in_range(m: RangeMap<i64, i64>)
    ensures
        in_range(entries(m)),
{
}

/// An executable `(range, value)` pair as a span.
pub open spec fn as_span(e: (Range<i64>, i64)) -> Span<i64> {
    (e.0.start as int, e.0.end as int, e.1)
}

/// A list of executable `(range, value)` pairs as spans.
pub open spec fn as_spans(v: Seq<(Range<i64>, i64)>) -> Seq<Span<i64>> {
    Seq::new(v.len(), |i: int| as_span(v[i]))
}

/// The span `e` and the interval `[start, end)`, as `rangemap` compares
/// them: `e` ends behind `start` and starts before `end`.  For two
/// non-empty intervals this says that they share a point.
pub open spec fn overlaps<V>(e: Span<V>, start: int, end: int) -> bool {
    start < e.1 && e.0 < end
}

/// Span `i` of `es` overlaps `[start, end)` and none before it does.
pub open spec fn first_overlap<V>(es: Seq<Span<V>>, start: int, end: int, i: int) -> bool {
    &&& 0 <= i < es.len()
    &&& overlaps(es[i], start, end)
    &&& forall|j: int| 0 <= j < i ==> !overlaps(#[trigger] es[j], start, end)
}

/// The spans of `es` that overlap `[start, end)` are exactly those at the
/// indices from `k` on that `found` lists.
pub open spec fn is_stretch<V>(es: Seq<Span<V>>, found: Seq<Span<V>>, start: int, end: int, k: int) -> bool {
    &&& 0 <= k
    &&& k + found.len() <= es.len()
    &&& found == es.subrange(k, k + found.len())
    &&& forall|i: int| 0 <= i < es.len() ==> (overlaps(#[trigger] es[i], start, end) <==> k <= i < k + found.len())
}

/// `RangeMap::new`: a map without entries.
#[verifier::external_body]
pub(crate) fn new_map() -> (m: RangeMap<i64, i64>)
    ensures
        stored(m).len() == 0,
{
    RangeMap::new()
}

/// `RangeMap::clone`: a map with the same entries.  Like every `RangeMap`,
/// the copy is well formed.
#[verifier::external_body]
pub(crate) fn clone_map(m: &RangeMap<i64, i64>) -> (c: RangeMap<i64, i64>)
    ensures
        stored(c) == stored(*m),
        well_formed(entries(c)),
{
    m.clone()
}

/// `RangeMap::insert`: every point of `range` now maps to `value`, every
/// other point maps to what it mapped to before, and the map is well formed
/// (so what was overlapped has been cut back or dropped, and ranges that
/// touch the new one and agree with it have been merged into it).
/// `rangemap` panics on an empty range.
#[verifier::external_body]
pub(crate) fn insert_range(m: &mut RangeMap<i64, i64>, range: Range<i64>, value: i64)
    requires
        range.start < range.end,
    ensures
        well_formed(entries(*final(m))),
        is_update(entries(*old(m)), entries(*final(m)), range.start as int, range.end as int, Some(value)),
{
    m.insert(range, value)
}

/// `RangeMap::remove`: no point of `range` is mapped any more, every other
/// point maps to what it mapped to before, and the map is well formed (so a
/// stored range that straddled an end of `range` has been cut back or
/// split).  `rangemap` panics on an empty range.
#[verifier::external_body]
pub(crate) fn remove_range(m: &mut RangeMap<i64, i64>, range: Range<i64>)
    requires
        range.start < range.end,
    ensures
        well_formed(entries(*final(m))),
        is_update(entries(*old(m)), entries(*final(m)), range.start as int, range.end as int, None),
{
    m.remove(range)
}

/// `RangeMap::get`: the value of the stored range that contains `key`, if
/// there is one.
#[verifier::external_body]
pub(crate) fn lookup(m: &RangeMap<i64, i64>, key: i64) -> (v: Option<i64>)
    ensures
        v == value_at(entries(*m), key as int),
{
    m.get(&key).copied()
}

/// `RangeMap::first_range_value`: the first entry, if the map has one.  A
/// stored range is never empty.
#[verifier::external_body]
pub(crate) fn first_entry(m: &RangeMap<i64, i64>) -> (r: Option<(Range<i64>, i64)>)
    ensures
        r is None <==> entries(*m).len() == 0,
        r is Some ==> as_span(r.unwrap()) == entries(*m)[0],
        r is Some ==> r.unwrap().0.start < r.unwrap().0.end,
{
    match m.first_range_value() {
        Some((r, v)) => Some((r.start..r.end, *v)),
        None => None,
    }
}

/// `RangeMap::overlapping(range).next()`: the first entry that overlaps
/// `range`, if any does.  A stored range is never empty.
#[verifier::external_body]
pub(crate) fn first_overlapping(m: &RangeMap<i64, i64>, range: &Range<i64>) -> (r: Option<(Range<i64>, i64)>)
    ensures
        r is None ==> forall|i: int|
            0 <= i < entries(*m).len() ==> !overlaps(#[trigger] entries(*m)[i], range.start as int, range.end as int),
        r is Some ==> exists|i: int|
            first_overlap(entries(*m), range.start as int, range.end as int, i) && entries(*m)[i] == as_span(
                r.unwrap(),
            ),
        r is Some ==> r.unwrap().0.start < r.unwrap().0.end,
{
    match m.overlapping(range).next() {
        Some((r, v)) => Some((r.start..r.end, *v)),
        None => None,
    }
}

/// `RangeMap::overlapping(range)`, collected: the entries that overlap
/// `range`, in order.  They stand next to each other in the map, from
/// some index on.
#[verifier::external_body]
pub(crate) fn all_overlapping(m: &RangeMap<i64, i64>, range: &Range<i64>) -> (v: Vec<(Range<i64>, i64)>)
    ensures
        exists|k: int| is_stretch(entries(*m), as_spans(v@), range.start as int, range.end as int, k),
{
    m.overlapping(range).map(|(r, v)| (r.start..r.end, *v)).collect()
}

/// `RangeMap::iter`, collected: all entries, in order.  Like those of every
/// `RangeMap`, they are well formed.
#[verifier::external_body]
pub(crate) fn all_entries(m: &RangeMap<i64, i64>) -> (v: Vec<(Range<i64>, i64)>)
    ensures
        as_spans(v@) == entries(*m),
        well_formed(as_spans(v@)),
{
    m.iter().map(|(r, v)| (r.start..r.end, *v)).collect()
}

} // verus!
