use rangemap::RangeMap;
use stagefold::compose::{compose_maps_new, insert, pop_first};
use std::cell::RefCell;
use std::ops::Range;

fn map_of(entries: Vec<(Range<i64>, i64)>) -> RangeMap<i64, i64> {
    let mut m = RangeMap::new();
    for (r, v) in entries {
        m.insert(r, v);
    }
    m
}

fn listed(m: &RangeMap<i64, i64>) -> Vec<(i64, i64, i64)> {
    m.iter().map(|(r, v)| (r.start, r.end, *v)).collect()
}

fn pass(r: Range<i64>, left: Option<i64>, right: Option<i64>) -> Option<(Range<i64>, i64)> {
    Some((r, left.unwrap_or(0) + right.unwrap_or(0)))
}

#[test]
fn pop_first_takes_the_lowest_entry() {
    let mut m = map_of(vec![(10..20, 1), (0..5, 2), (30..40, 3)]);
    assert_eq!(pop_first(&mut m), Some((0..5, 2)));
    assert_eq!(listed(&m), vec![(10, 20, 1), (30, 40, 3)]);
    assert_eq!(pop_first(&mut m), Some((10..20, 1)));
    assert_eq!(pop_first(&mut m), Some((30..40, 3)));
    assert_eq!(pop_first(&mut m), None);
    assert!(m.is_empty());
}

#[test]
fn insert_overwrites_what_it_overlaps() {
    let mut m = map_of(vec![(0..10, 1), (20..30, 2)]);
    insert(&mut m, Some((5..25, 7)));
    assert_eq!(listed(&m), vec![(0, 5, 1), (5, 25, 7), (25, 30, 2)]);
}

#[test]
fn insert_of_nothing_changes_nothing() {
    let mut m = map_of(vec![(0..10, 1)]);
    insert(&mut m, None);
    assert_eq!(listed(&m), vec![(0, 10, 1)]);
}

#[test]
fn insert_merges_with_a_touching_entry_of_the_same_value() {
    let mut m = map_of(vec![(0..10, 1)]);
    insert(&mut m, Some((10..12, 1)));
    assert_eq!(listed(&m), vec![(0, 12, 1)]);
}

#[test]
fn compose_calls_the_zipper_tile_by_tile() {
    let a = map_of(vec![(0..10, 1), (10..20, 2), (40..50, 3)]);
    let b = map_of(vec![(5..15, 10), (15..18, 20), (30..45, 30), (60..70, 40)]);
    let calls: RefCell<Vec<(i64, i64, Option<i64>, Option<i64>)>> = RefCell::new(Vec::new());
    let result = compose_maps_new(
        |r: Range<i64>, left: Option<i64>, right: Option<i64>| {
            calls.borrow_mut().push((r.start, r.end, left, right));
            pass(r, left, right)
        },
        &a,
        &b,
    );
    assert_eq!(
        calls.into_inner(),
        vec![
            (0, 5, Some(1), None),
            (5, 10, Some(1), Some(10)),
            (10, 15, Some(2), Some(10)),
            (15, 18, Some(2), Some(20)),
            (18, 20, Some(2), None),
            (40, 45, Some(3), Some(30)),
            (45, 50, Some(3), None),
            (30, 40, None, Some(30)),
            (60, 70, None, Some(40)),
        ]
    );
    assert_eq!(
        listed(&result),
        vec![
            (0, 5, 1),
            (5, 10, 11),
            (10, 15, 12),
            (15, 18, 22),
            (18, 20, 2),
            (30, 40, 30),
            (40, 45, 33),
            (45, 50, 3),
            (60, 70, 40),
        ]
    );
}

#[test]
fn compose_covers_what_either_map_covers() {
    let a = map_of(vec![(0..10, 1), (12..20, 2), (40..50, 3)]);
    let b = map_of(vec![(5..15, 10), (15..18, 20), (30..45, 30), (60..70, 40)]);
    let result = compose_maps_new(pass, &a, &b);
    for x in -5..80i64 {
        let left = a.get(&x).copied();
        let right = b.get(&x).copied();
        let both = if left.is_some() || right.is_some() {
            Some(left.unwrap_or(0) + right.unwrap_or(0))
        } else {
            None
        };
        assert_eq!(result.get(&x).copied(), both);
    }
}

#[test]
fn compose_leaves_its_arguments_alone() {
    let a = map_of(vec![(0..10, 1)]);
    let b = map_of(vec![(5..15, 10)]);
    let _ = compose_maps_new(pass, &a, &b);
    assert_eq!(listed(&a), vec![(0, 10, 1)]);
    assert_eq!(listed(&b), vec![(5, 15, 10)]);
}

#[test]
fn compose_drops_what_the_zipper_drops() {
    let a = map_of(vec![(0..10, 1)]);
    let b = map_of(vec![(5..15, 10)]);
    let result = compose_maps_new(
        |r: Range<i64>, left: Option<i64>, right: Option<i64>| {
            if left.is_some() && right.is_some() {
                Some((r, 0))
            } else {
                None
            }
        },
        &a,
        &b,
    );
    assert_eq!(listed(&result), vec![(5, 10, 0)]);
}

#[test]
fn compose_lets_later_pairs_overwrite_earlier_ones() {
    let a = map_of(vec![(0..10, 1)]);
    let b = map_of(vec![(20..30, 2)]);
    let result = compose_maps_new(|_r: Range<i64>, left: Option<i64>, right: Option<i64>| pass(0..4, left, right), &a, &b);
    assert_eq!(listed(&result), vec![(0, 4, 2)]);
}

#[test]
fn compose_of_empty_maps_is_empty() {
    let empty: RangeMap<i64, i64> = RangeMap::new();
    let a = map_of(vec![(0..10, 1)]);
    assert!(compose_maps_new(pass, &empty, &empty).is_empty());
    assert_eq!(listed(&compose_maps_new(pass, &a, &empty)), vec![(0, 10, 1)]);
    assert_eq!(listed(&compose_maps_new(pass, &empty, &a)), vec![(0, 10, 1)]);
}

#[test]
fn entries_stand_apart_after_insertions_and_removals() {
    let mut m: RangeMap<i64, i64> = RangeMap::new();
    let steps: Vec<(Range<i64>, i64)> =
        vec![(0..10, 1), (5..15, 2), (3..7, 1), (20..30, 3), (8..25, 2), (-5..1, 1), (12..13, 9), (30..31, 3)];
    for (i, (r, v)) in steps.into_iter().enumerate() {
        insert(&mut m, Some((r, v)));
        if i % 3 == 2 {
            let _ = pop_first(&mut m);
        }
        let all = listed(&m);
        for e in all.iter() {
            assert!(e.0 < e.1);
        }
        for w in all.windows(2) {
            assert!(w[0].1 <= w[1].0);
            assert!(w[0].1 < w[1].0 || w[0].2 != w[1].2);
        }
    }
}
