//! The mathematical model of an interval map: a sequence of spans.
//!
//! A span `(start, end, value)` stands for the half-open interval
//! `[start, end)` of integers, every point of which carries `value`.
//! A well-formed sequence of spans is the canonical way to write down a
//! function that is defined on finitely many intervals and constant on each.

use vstd::prelude::*;

verus! {

/// `(start, end, value)`: the points `start <= x < end` carry `value`.
pub type Span<V> = (int, int, V);

/// Span `i` of `s` exists and contains the point `x`.
pub open spec fn covers<V>(s: Seq<Span<V>>, i: int, x: int) -> bool {
    0 <= i < s.len() && s[i].0 <= x < s[i].1
}

/// Some span of `s` contains the point `x`.
pub open spec fn covered<V>(s: Seq<Span<V>>, x: int) -> bool {
    exists|i: int| covers(s, i, x)
}

/// The index of a span of `s` that contains `x`, where there is one.
pub open spec fn index_at<V>(s: Seq<Span<V>>, x: int) -> int {
    choose|i: int| covers(s, i, x)
}

/// The value that `s` gives to the point `x`, if any.
pub open spec fn value_at<V>(s: Seq<Span<V>>, x: int) -> Option<V> {
    if covered(s, x) {
        Some(s[index_at(s, x)].2)
    } else {
        None
    }
}

/// No span is empty.
pub open spec fn non_empty<V>(s: Seq<Span<V>>) -> bool {
    forall|i: int| 0 <= i < s.len() ==> (#[trigger] s[i]).0 < s[i].1
}

/// The spans ascend and no two of them share a point.
pub open spec fn ascending<V>(s: Seq<Span<V>>) -> bool {
    forall|i: int, j: int| 0 <= i < j < s.len() ==> (#[trigger] s[i]).1 <= (#[trigger] s[j]).0
}

/// Two neighbours that touch carry different values.
pub open spec fn coalesced<V>(s: Seq<Span<V>>) -> bool {
    forall|i: int, j: int|
        0 <= i && j == i + 1 && j < s.len() && (#[trigger] s[i]).1 == (#[trigger] s[j]).0
            ==> s[i].2 != s[j].2
}

/// The canonical form: non-empty, ascending, disjoint spans, merged wherever
/// two neighbours touch and agree.
pub open spec fn well_formed<V>(s: Seq<Span<V>>) -> bool {
    &&& non_empty(s)
    &&& ascending(s)
    &&& coalesced(s)
}

/// Both sequences give every point the same value.
pub open spec fn same_points<V>(s: Seq<Span<V>>, t: Seq<Span<V>>) -> bool {
    forall|x: int| #[trigger] value_at(s, x) == value_at(t, x)
}

/// `after` is `before` with the points of `[start, end)` set to `v`
/// (`None` uncovers them) and every other point left alone.
pub open spec fn is_update<V>(
    before: Seq<Span<V>>,
    after: Seq<Span<V>>,
    start: int,
    end: int,
    v: Option<V>,
) -> bool {
    forall|x: int|
        #[trigger] value_at(after, x) == if start <= x < end {
            v
        } else {
            value_at(before, x)
        }
}

/// In an ascending sequence at most one span contains a point, so the value
/// at a point is the value of whichever span contains it.
pub proof fn lemma_value_at<V>(s: Seq<Span<V>>, i: int, x: int)
    requires
        ascending(s),
        covers(s, i, x),
    ensures
        covered(s, x),
        index_at(s, x) == i,
        value_at(s, x) == Some(s[i].2),
{
    let j = index_at(s, x);
    assert(covers(s, j, x));
    if j < i {
        assert(s[j].1 <= s[i].0);
    } else if i < j {
        assert(s[i].1 <= s[j].0);
    }
}

/// A point that no span contains has no value.
pub proof fn lemma_value_absent<V>(s: Seq<Span<V>>, x: int)
    requires
        forall|i: int| !covers(s, i, x),
    ensures
        !covered(s, x),
        value_at(s, x) is None,
{
}

/// The spans of a well-formed sequence are maximal: the point just past a
/// span, and the point just before it, do not carry the span's value.
pub proof fn lemma_span_maximal<V>(s: Seq<Span<V>>, i: int)
    requires
        well_formed(s),
        0 <= i < s.len(),
    ensures
        value_at(s, s[i].1) != Some(s[i].2),
        value_at(s, s[i].0 - 1) != Some(s[i].2),
{
    let e = s[i].1;
    if covered(s, e) {
        let j = index_at(s, e);
        assert(covers(s, j, e));
        if j < i {
            assert(s[j].1 <= s[i].0);
        }
        assert(j > i);
        if j > i + 1 {
            assert(s[i].1 <= s[i + 1].0);
            assert(s[i + 1].1 <= s[j].0);
        }
        assert(j == i + 1);
        assert(s[i].1 <= s[j].0);
        assert(s[i].2 != s[j].2);
    }
    let b = s[i].0 - 1;
    if covered(s, b) {
        let j = index_at(s, b);
        assert(covers(s, j, b));
        if j > i {
            assert(s[i].1 <= s[j].0);
        }
        assert(j < i);
        if j < i - 1 {
            assert(s[j].1 <= s[i - 1].0);
            assert(s[i - 1].1 <= s[i].0);
        }
        assert(j == i - 1);
        assert(s[j].1 <= s[i].0);
        assert(s[j].2 != s[i].2);
    }
}

/// Dropping the first span of a well-formed sequence uncovers exactly its
/// points and leaves a well-formed sequence.
pub proof fn lemma_skip_first<V>(s: Seq<Span<V>>)
    requires
        well_formed(s),
        s.len() > 0,
    ensures
        well_formed(s.skip(1)),
        is_update(s, s.skip(1), s[0].0, s[0].1, None),
{
    let t = s.skip(1);
    assert forall|i: int| 0 <= i < t.len() implies (#[trigger] t[i]).0 < t[i].1 by {
        assert(t[i] == s[i + 1]);
    }
    assert forall|i: int, j: int| 0 <= i < j < t.len() implies (#[trigger] t[i]).1 <= (
    #[trigger] t[j]).0 by {
        assert(t[i] == s[i + 1]);
        assert(t[j] == s[j + 1]);
    }
    assert forall|i: int, j: int|
        0 <= i && j == i + 1 && j < t.len() && (#[trigger] t[i]).1 == (#[trigger] t[j]).0 implies t[i].2
        != t[j].2 by {
        assert(t[i] == s[i + 1]);
        assert(t[j] == s[j + 1]);
    }
    assert forall|x: int|
        #[trigger] value_at(t, x) == if s[0].0 <= x < s[0].1 {
            None
        } else {
            value_at(s, x)
        } by {
        if covered(t, x) {
            let i = index_at(t, x);
            assert(covers(t, i, x));
            assert(t[i] == s[i + 1]);
            assert(covers(s, i + 1, x));
            lemma_value_at(s, i + 1, x);
            lemma_value_at(t, i, x);
            assert(s[0].1 <= s[i + 1].0);
        } else if covered(s, x) {
            let i = index_at(s, x);
            assert(covers(s, i, x));
            if i > 0 {
                assert(t[i - 1] == s[i]);
                assert(covers(t, i - 1, x));
            }
        }
    }
}

/// Appending a non-empty span that lies behind all the others, and that
/// differs in value from the last one where it touches it, keeps the
/// sequence well formed and covers exactly the new span's points.
pub proof fn lemma_push<V>(s: Seq<Span<V>>, t: Span<V>)
    requires
        well_formed(s),
        t.0 < t.1,
        s.len() > 0 ==> s.last().1 <= t.0,
        s.len() > 0 && s.last().1 == t.0 ==> s.last().2 != t.2,
    ensures
        well_formed(s.push(t)),
        is_update(s, s.push(t), t.0, t.1, Some(t.2)),
{
    let r = s.push(t);
    let n = s.len() as int;
    assert(r[n] == t);
    assert forall|i: int| 0 <= i < r.len() implies (#[trigger] r[i]).0 < r[i].1 by {
        if i < n {
            assert(r[i] == s[i]);
        }
    }
    assert forall|i: int, j: int| 0 <= i < j < r.len() implies (#[trigger] r[i]).1 <= (
    #[trigger] r[j]).0 by {
        assert(r[i] == s[i]);
        if j < n {
            assert(r[j] == s[j]);
        } else {
            if i < n - 1 {
                assert(s[i].1 <= s[n - 1].0);
            }
        }
    }
    assert forall|i: int, j: int|
        0 <= i && j == i + 1 && j < r.len() && (#[trigger] r[i]).1 == (#[trigger] r[j]).0 implies r[i].2
        != r[j].2 by {
        assert(r[i] == s[i]);
        if j < n {
            assert(r[j] == s[j]);
        }
    }
    assert forall|x: int|
        #[trigger] value_at(r, x) == if t.0 <= x < t.1 {
            Some(t.2)
        } else {
            value_at(s, x)
        } by {
        if t.0 <= x < t.1 {
            assert(covers(r, n, x));
            lemma_value_at(r, n, x);
        } else if covered(s, x) {
            let i = index_at(s, x);
            assert(covers(s, i, x));
            assert(r[i] == s[i]);
            assert(covers(r, i, x));
            lemma_value_at(r, i, x);
            lemma_value_at(s, i, x);
        } else if covered(r, x) {
            let i = index_at(r, x);
            assert(covers(r, i, x));
            assert(r[i] == s[i]);
            assert(covers(s, i, x));
        }
    }
}

/// The first span of a well-formed sequence is determined by the points:
/// it starts at the least covered point and runs as far as the value holds.
proof fn lemma_first_span_agrees<V>(s: Seq<Span<V>>, t: Seq<Span<V>>)
    requires
        well_formed(s),
        well_formed(t),
        same_points(s, t),
        s.len() > 0,
    ensures
        t.len() > 0,
        s[0].0 <= t[0].0,
        s[0].1 <= t[0].1,
        s[0].2 == t[0].2,
{
    let a = s[0].0;
    assert(covers(s, 0, a));
    lemma_value_at(s, 0, a);
    assert(value_at(t, a) == value_at(s, a));
    let k = index_at(t, a);
    assert(covers(t, k, a));
    if k > 0 {
        assert(t[0].1 <= t[k].0);
    }
    assert(t[0].0 <= a);
    // the first span of `t` starts no earlier than that of `s`
    let b = t[0].0;
    assert(covers(t, 0, b));
    lemma_value_at(t, 0, b);
    assert(value_at(s, b) == value_at(t, b));
    let m = index_at(s, b);
    assert(covers(s, m, b));
    if m > 0 {
        assert(s[0].1 <= s[m].0);
    }
    assert(a <= b);
    assert(a == b);
    assert(k == 0) by {
        if k > 0 {
            assert(t[0].1 <= t[k].0);
        }
    }
    assert(s[0].2 == t[0].2);
    // the first span of `s` ends no later than that of `t`
    if s[0].1 > t[0].1 {
        let e = t[0].1;
        assert(covers(s, 0, e));
        lemma_value_at(s, 0, e);
        lemma_span_maximal(t, 0);
        assert(value_at(t, e) == value_at(s, e));
    }
}

/// A well-formed sequence is determined by the values it gives to the
/// points: two that agree on every point are the same sequence.
pub proof fn lemma_canonical<V>(s: Seq<Span<V>>, t: Seq<Span<V>>)
    requires
        well_formed(s),
        well_formed(t),
        same_points(s, t),
    ensures
        s == t,
    decreases s.len(),
{
    if s.len() == 0 {
        if t.len() > 0 {
            assert(covers(t, 0, t[0].0));
            lemma_value_at(t, 0, t[0].0);
            assert(value_at(s, t[0].0) == value_at(t, t[0].0));
            lemma_value_absent(s, t[0].0);
        }
        assert(s =~= t);
    } else {
        lemma_first_span_agrees(s, t);
        assert(same_points(t, s)) by {
            assert forall|x: int| #[trigger] value_at(t, x) == value_at(s, x) by {
                assert(value_at(s, x) == value_at(t, x));
            }
        }
        lemma_first_span_agrees(t, s);
        assert(s[0] == t[0]);
        lemma_skip_first(s);
        lemma_skip_first(t);
        assert(same_points(s.skip(1), t.skip(1))) by {
            assert forall|x: int| #[trigger] value_at(s.skip(1), x) == value_at(t.skip(1), x) by {
                assert(value_at(s, x) == value_at(t, x));
            }
        }
        lemma_canonical(s.skip(1), t.skip(1));
        assert(s =~= t) by {
            assert(s.len() == t.len());
            assert forall|i: int| 0 <= i < s.len() implies s[i] == t[i] by {
                if i > 0 {
                    assert(s.skip(1)[i - 1] == s[i]);
                    assert(t.skip(1)[i - 1] == t[i]);
                }
            }
        }
    }
}

/// No two spans of a well-formed sequence share a point, and none is empty.
pub proof fn lemma_disjoint<V>(s: Seq<Span<V>>, i: int, j: int)
    requires
        well_formed(s),
        0 <= i < s.len(),
        0 <= j < s.len(),
        i != j,
    ensures
        s[i].0 < s[i].1,
        s[j].0 < s[j].1,
        s[i].1 <= s[j].0 || s[j].1 <= s[i].0,
{
    if i < j {
        assert(s[i].1 <= s[j].0);
    } else {
        assert(s[j].1 <= s[i].0);
    }
}

} // verus!
