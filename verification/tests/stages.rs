use rangemap::RangeMap;
use stagefold::parse::StageMap;
use stagefold::combine::{can_combine, combine_stages, fold_stages};
use stagefold::invert::{can_invert, invert_map};
use stagefold::stages::{check_no_overlaps, collect_map, sources_apart, stage_fits};

fn stage(from: &str, to: &str, mappings: Vec<(u64, u64, u64)>) -> StageMap {
    StageMap { from: from.to_string(), to: to.to_string(), mappings }
}

fn listed(m: &RangeMap<i64, i64>) -> Vec<(i64, i64, i64)> {
    m.iter().map(|(r, v)| (r.start, r.end, *v)).collect()
}

#[test]
fn collect_map_turns_triples_into_offsets() {
    let m = collect_map(&stage("seed", "soil", vec![(50, 98, 2), (52, 50, 48)]));
    assert_eq!(listed(&m), vec![(50, 98, 2), (98, 100, -48)]);
}

#[test]
fn collect_map_merges_touching_triples_with_one_offset() {
    let m = collect_map(&stage("soil", "fertilizer", vec![(0, 15, 37), (37, 52, 2), (39, 0, 15)]));
    assert_eq!(listed(&m), vec![(0, 15, 39), (15, 54, -15)]);
}

#[test]
fn invert_map_shifts_and_negates() {
    let m = collect_map(&stage("seed", "soil", vec![(50, 98, 2), (52, 50, 48)]));
    let inv = invert_map(&m);
    assert_eq!(listed(&inv), vec![(50, 52, 48), (52, 100, -2)]);
}

#[test]
fn invert_map_twice_gives_the_stage_back() {
    let m = collect_map(&stage("seed", "soil", vec![(50, 98, 2), (52, 50, 48)]));
    assert_eq!(invert_map(&invert_map(&m)), m);
}

#[test]
fn combine_stages_two_stage_example() {
    let m1 = collect_map(&stage("seed", "soil", vec![(50, 98, 2), (52, 50, 48)]));
    let m2 = collect_map(&stage("soil", "fertilizer", vec![(0, 15, 37), (37, 52, 2), (39, 0, 15)]));
    let combined = combine_stages(m1.clone(), m2.clone());
    assert_eq!(
        listed(&combined),
        vec![(0, 15, 39), (15, 50, -15), (50, 52, -13), (52, 98, 2), (98, 100, -63)]
    );
    for x in 0..120i64 {
        let d1 = m1.get(&x).copied().unwrap_or(0);
        let d2 = m2.get(&(x + d1)).copied().unwrap_or(0);
        assert_eq!(combined.get(&x).copied().unwrap_or(0), d1 + d2);
    }
    assert_eq!(79 + combined.get(&79).copied().unwrap_or(0), 81);
}

#[test]
fn check_no_overlaps_accepts_a_map() {
    let m = collect_map(&stage("a", "b", vec![(0, 10, 5), (3, 12, 5)]));
    assert!(check_no_overlaps(&m));
}

#[test]
fn fold_stages_of_nothing_is_none() {
    assert!(fold_stages(&vec![]).is_none());
}

#[test]
fn fold_stages_of_one_stage_is_that_stage() {
    let m = collect_map(&stage("seed", "soil", vec![(50, 98, 2), (52, 50, 48)]));
    assert_eq!(fold_stages(&vec![m.clone()]), Some(m));
}

#[test]
fn fold_stages_combines_from_the_first_on() {
    let m1 = collect_map(&stage("seed", "soil", vec![(50, 98, 2), (52, 50, 48)]));
    let m2 = collect_map(&stage("soil", "fertilizer", vec![(0, 15, 37), (37, 52, 2), (39, 0, 15)]));
    let m3 = collect_map(&stage("fertilizer", "water", vec![(49, 53, 8), (0, 11, 42), (42, 0, 7), (57, 7, 4)]));
    let folded = fold_stages(&vec![m1.clone(), m2.clone(), m3.clone()]).unwrap();
    assert_eq!(folded, combine_stages(combine_stages(m1, m2), m3));
}

#[test]
fn combine_stages_lets_the_second_stage_decide_where_the_first_does_not_land() {
    // the first stage moves 0..5 onto 10..15 and lands nowhere else, so on
    // 0..10 and 15..20 the second stage's entry is all there is
    let m1 = collect_map(&stage("a", "b", vec![(10, 0, 5)]));
    let m2 = collect_map(&stage("b", "c", vec![(100, 0, 20)]));
    let combined = combine_stages(m1, m2);
    assert_eq!(listed(&combined), vec![(0, 10, 100), (15, 20, 100)]);
}

#[test]
fn combine_stages_with_a_first_stage_that_permutes_its_points() {
    let m1 = collect_map(&stage("a", "b", vec![(10, 0, 5), (0, 5, 10)]));
    let m2 = collect_map(&stage("b", "c", vec![(100, 0, 20)]));
    let combined = combine_stages(m1, m2);
    assert_eq!(listed(&combined), vec![(0, 5, 110), (5, 15, 95), (15, 20, 100)]);
}

fn map_of(entries: Vec<(std::ops::Range<i64>, i64)>) -> RangeMap<i64, i64> {
    let mut m = RangeMap::new();
    for (r, v) in entries {
        m.insert(r, v);
    }
    m
}

#[test]
fn stage_fits_wants_triples_within_i64() {
    let big = i64::MAX as u64;
    assert!(stage_fits(&stage("a", "b", vec![(big, big - 1, 1), (0, 0, big)])));
    assert!(stage_fits(&stage("a", "b", vec![])));
    assert!(!stage_fits(&stage("a", "b", vec![(0, 5, 0)])));
    assert!(!stage_fits(&stage("a", "b", vec![(big + 1, 0, 1)])));
    assert!(!stage_fits(&stage("a", "b", vec![(0, big, 1)])));
    assert!(!stage_fits(&stage("a", "b", vec![(0, u64::MAX, u64::MAX)])));
}

#[test]
fn sources_apart_finds_a_shared_source_point() {
    assert!(sources_apart(&stage("a", "b", vec![(50, 98, 2), (52, 50, 48)])));
    assert!(sources_apart(&stage("a", "b", vec![])));
    assert!(!sources_apart(&stage("a", "b", vec![(0, 10, 5), (3, 12, 5)])));
    assert!(!sources_apart(&stage("a", "b", vec![(0, 10, 5), (100, 20, 5), (3, 14, 1)])));
}

#[test]
fn collect_map_lets_the_later_triple_decide() {
    let m = collect_map(&stage("a", "b", vec![(0, 10, 5), (3, 12, 5)]));
    assert_eq!(listed(&m), vec![(10, 12, -10), (12, 17, -9)]);
}

#[test]
fn invert_map_lets_the_later_entry_decide() {
    // both entries land on 20..25
    let m = map_of(vec![(0..5, 20), (10..15, 10)]);
    assert_eq!(listed(&invert_map(&m)), vec![(20, 25, -10)]);
}

#[test]
fn can_invert_wants_shifted_entries_within_i64() {
    assert!(can_invert(&map_of(vec![(0..5, 20), (10..15, -10)])));
    assert!(can_invert(&map_of(vec![(0..5, i64::MAX - 5)])));
    assert!(!can_invert(&map_of(vec![(0..5, i64::MAX - 4)])));
    assert!(can_invert(&map_of(vec![(i64::MIN + 7..0, -7)])));
    assert!(!can_invert(&map_of(vec![(i64::MIN + 7..0, -8)])));
    assert!(!can_invert(&map_of(vec![(0..5, i64::MIN)])));
}

#[test]
fn can_combine_wants_the_sum_of_offsets_within_i64() {
    let far = i64::MAX / 2 + 1;
    let a = map_of(vec![(0..5, far)]);
    assert!(can_combine(&a, &map_of(vec![(far + 5..far + 9, far)])));
    assert!(!can_combine(&a, &map_of(vec![(far + 4..far + 9, far)])));
    assert!(can_combine(&a, &map_of(vec![(far + 4..far + 9, far - 2)])));
    assert!(!can_combine(&map_of(vec![(0..5, i64::MIN)]), &RangeMap::new()));
}

#[test]
fn fold_stages_gives_up_on_overflow() {
    let far = i64::MAX / 2 + 1;
    let a = map_of(vec![(0..5, far)]);
    let b = map_of(vec![(far..far + 5, far)]);
    assert!(fold_stages(&vec![a.clone(), b]).is_none());
    assert!(fold_stages(&vec![a.clone(), map_of(vec![(0..5, far)])]).is_some());
}
