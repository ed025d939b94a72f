//! The library against plain point-by-point reckoning, on maps made up by a
//! small generator.

use rangemap::RangeMap;
use stagefold::combine::{can_combine, combine_stages};
use stagefold::compose::{compose_maps_new, insert, pop_first};
use stagefold::invert::invert_map;
use stagefold::locate::{lowest_location, seed_map};
use std::cell::RefCell;
use std::ops::Range;

const LOW: i64 = -10;
const HIGH: i64 = 70;

struct Dice(u64);

impl Dice {
    fn roll(&mut self, sides: u64) -> u64 {
        self.0 = self.0.wrapping_mul(6364136223846793005).wrapping_add(1442695040888963407);
        (self.0 >> 33) % sides
    }

    fn range(&mut self) -> Range<i64> {
        let start = LOW + self.roll((HIGH - LOW - 1) as u64) as i64;
        let len = 1 + self.roll(12) as i64;
        start..(start + len).min(HIGH)
    }

    fn map(&mut self, most: u64, values: u64) -> RangeMap<i64, i64> {
        let entries = self.roll(most + 1);
        let mut m = RangeMap::new();
        for _ in 0..entries {
            let r = self.range();
            m.insert(r, self.roll(values) as i64);
        }
        m
    }
}

fn listed(m: &RangeMap<i64, i64>) -> Vec<(i64, i64, i64)> {
    m.iter().map(|(r, v)| (r.start, r.end, *v)).collect()
}

fn assert_well_formed(m: &RangeMap<i64, i64>) {
    let all = listed(m);
    for e in all.iter() {
        assert!(e.0 < e.1);
    }
    for w in all.windows(2) {
        assert!(w[0].1 <= w[1].0);
        assert!(w[0].1 < w[1].0 || w[0].2 != w[1].2);
    }
}

#[test]
fn insert_and_pop_first_change_the_points_they_should() {
    let mut dice = Dice(1);
    let mut m: RangeMap<i64, i64> = RangeMap::new();
    let mut points: Vec<Option<i64>> = vec![None; (HIGH - LOW) as usize];
    for _ in 0..400 {
        match dice.roll(4) {
            0 => {
                let first = points.iter().position(|p| p.is_some());
                let popped = pop_first(&mut m);
                match first {
                    None => assert_eq!(popped, None),
                    Some(at) => {
                        let value = points[at];
                        let mut end = at;
                        while end < points.len() && points[end] == value {
                            points[end] = None;
                            end += 1;
                        }
                        assert_eq!(popped, Some((LOW + at as i64..LOW + end as i64, value.unwrap())));
                    }
                }
            }
            1 => insert(&mut m, None),
            _ => {
                let r = dice.range();
                let v = dice.roll(3) as i64;
                for x in r.clone() {
                    points[(x - LOW) as usize] = Some(v);
                }
                insert(&mut m, Some((r, v)));
            }
        }
        assert_well_formed(&m);
        for x in LOW..HIGH {
            assert_eq!(m.get(&x).copied(), points[(x - LOW) as usize]);
        }
    }
}

#[test]
fn compose_calls_the_zipper_on_the_tiles_in_order() {
    let mut dice = Dice(2);
    for _ in 0..200 {
        let a = dice.map(6, 3);
        let b = dice.map(6, 3);
        let calls: RefCell<Vec<(Range<i64>, Option<i64>, Option<i64>)>> = RefCell::new(Vec::new());
        let result = compose_maps_new(
            |r: Range<i64>, left: Option<i64>, right: Option<i64>| {
                calls.borrow_mut().push((r.clone(), left, right));
                Some((r, 100 * left.unwrap_or(9) + right.unwrap_or(9)))
            },
            &a,
            &b,
        );
        let calls = calls.into_inner();
        let pair = |x: i64| (a.get(&x).copied(), b.get(&x).copied());
        let mut seen: Vec<u32> = vec![0; (HIGH - LOW + 2) as usize];
        for (r, left, right) in calls.iter() {
            assert!(r.start < r.end);
            assert!(left.is_some() || right.is_some());
            for x in r.clone() {
                assert_eq!(pair(x), (*left, *right));
                seen[(x - LOW + 1) as usize] += 1;
            }
            assert_ne!(pair(r.start - 1), (*left, *right));
            assert_ne!(pair(r.end), (*left, *right));
        }
        for x in LOW - 1..HIGH + 1 {
            let covered = a.contains_key(&x) || b.contains_key(&x);
            assert_eq!(seen[(x - LOW + 1) as usize], if covered { 1 } else { 0 });
        }
        let split = calls.iter().position(|c| c.1.is_none()).unwrap_or(calls.len());
        assert!(calls[..split].iter().all(|c| c.1.is_some()));
        assert!(calls[split..].iter().all(|c| c.1.is_none()));
        assert!(calls[..split].windows(2).all(|w| w[0].0.end <= w[1].0.start));
        assert!(calls[split..].windows(2).all(|w| w[0].0.end <= w[1].0.start));
        assert_well_formed(&result);
        for x in LOW - 1..HIGH + 1 {
            let (left, right) = pair(x);
            let want = if left.is_some() || right.is_some() {
                Some(100 * left.unwrap_or(9) + right.unwrap_or(9))
            } else {
                None
            };
            assert_eq!(result.get(&x).copied(), want);
        }
    }
}

/// The offset that the inverse gives to `y`: the negated offset of the last
/// entry whose shifted interval holds `y`.
fn inverse_at(entries: &[(i64, i64, i64)], y: i64) -> Option<i64> {
    entries.iter().rev().find(|e| e.0 + e.2 <= y && y < e.1 + e.2).map(|e| -e.2)
}

#[test]
fn invert_map_lets_the_last_entry_that_lands_on_a_point_decide() {
    let mut dice = Dice(3);
    for _ in 0..200 {
        let mut m = dice.map(6, 9);
        for _ in 0..2 {
            let r = dice.range();
            m.insert(r, -(dice.roll(9) as i64));
        }
        let entries = listed(&m);
        let inverse = invert_map(&m);
        assert_well_formed(&inverse);
        for y in LOW - 20..HIGH + 20 {
            assert_eq!(inverse.get(&y).copied(), inverse_at(&entries, y));
        }
    }
}

#[test]
fn combine_stages_holds_what_the_combination_says_point_by_point() {
    let mut dice = Dice(4);
    for _ in 0..300 {
        let mut a = dice.map(4, 9);
        for _ in 0..2 {
            let r = dice.range();
            a.insert(r, -(dice.roll(9) as i64));
        }
        let b = dice.map(5, 9);
        assert!(can_combine(&a, &b));
        let first = listed(&a);
        let combined = combine_stages(a.clone(), b.clone());
        assert_well_formed(&combined);
        for x in LOW - 20..HIGH + 20 {
            let at_b = b.get(&x).copied();
            let want = if at_b.is_some() && inverse_at(&first, x).is_none() {
                at_b
            } else {
                match a.get(&x).copied() {
                    Some(d) if inverse_at(&first, x + d) == Some(-d) => {
                        Some(d + b.get(&(x + d)).copied().unwrap_or(0))
                    }
                    _ => None,
                }
            };
            assert_eq!(combined.get(&x).copied(), want);
        }
    }
}

#[test]
fn lowest_location_is_the_lowest_place_of_any_seed() {
    let mut dice = Dice(5);
    for _ in 0..300 {
        let mut stage = dice.map(5, 30);
        for _ in 0..2 {
            let r = dice.range();
            stage.insert(r, -(dice.roll(30) as i64));
        }
        let mut seeds: Vec<(u64, u64)> = Vec::new();
        for _ in 0..dice.roll(4) {
            seeds.push((dice.roll(60), 1 + dice.roll(9)));
        }
        let mut lowest: Option<i64> = None;
        for (start, count) in seeds.iter() {
            for x in *start..*start + *count {
                let place = x as i64 + stage.get(&(x as i64)).copied().unwrap_or(0);
                lowest = Some(lowest.map_or(place, |low| low.min(place)));
            }
        }
        assert_eq!(lowest_location(&seed_map(&seeds), &stage), lowest);
    }
}
