//! Half-open intervals of `i64`, written as `std::ops::Range<i64>`.

use std::ops::Range;
use vstd::prelude::*;

verus! {

/// The point `x` lies in the half-open interval `r`.
pub open spec fn contains(r: Range<i64>, x: int) -> bool {
    r.start <= x < r.end
}

/// The interval shifted by `offset`.
///
/// Both shifted ends have to fit into an `i64`.
pub fn offset_range(range: Range<i64>, offset: i64) -> (shifted: Range<i64>)
    requires
        i64::MIN <= range.start + offset <= i64::MAX,
        i64::MIN <= range.end + offset <= i64::MAX,
    ensures
        shifted.start == range.start + offset,
        shifted.end == range.end + offset,
        forall|x: int| contains(shifted, x) <==> contains(range, x - offset),
{
    (range.start + offset)..(range.end + offset)
}

/// The later of two starts.
pub open spec fn later(a: i64, b: i64) -> i64 {
    if a >= b {
        a
    } else {
        b
    }
}

/// The earlier of two ends.
pub open spec fn earlier(a: i64, b: i64) -> i64 {
    if a <= b {
        a
    } else {
        b
    }
}

/// The points that two intervals share, as an interval: from the later
/// start to the earlier end.  `None` where they share no point.
pub fn intersection(r1: &Range<i64>, r2: &Range<i64>) -> (common: Option<Range<i64>>)
    ensures
        common is Some <==> later(r1.start, r2.start) < earlier(r1.end, r2.end),
        common is Some ==> common.unwrap().start == later(r1.start, r2.start),
        common is Some ==> common.unwrap().end == earlier(r1.end, r2.end),
        common is Some ==> forall|x: int| contains(common.unwrap(), x) <==> contains(*r1, x) && contains(*r2, x),
        common is None ==> forall|x: int| !(contains(*r1, x) && contains(*r2, x)),
{
    let start = if r1.start >= r2.start {
        r1.start
    } else {
        r2.start
    };
    let end = if r1.end <= r2.end {
        r1.end
    } else {
        r2.end
    };
    if start < end {
        Some(start..end)
    } else {
        None
    }
}

} // verus!
