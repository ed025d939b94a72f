use rangemap::RangeMap;
use stagefold::combine::combine_stages;
use stagefold::locate::{can_locate, lowest_location, seed_map, seeds_fit};
use stagefold::parse::StageMap;
use stagefold::stages::{apply_stage, apply_stages, collect_map, offset_at};

fn stage(mappings: Vec<(u64, u64, u64)>) -> RangeMap<i64, i64> {
    collect_map(&StageMap { from: String::new(), to: String::new(), mappings })
}

fn almanac() -> Vec<RangeMap<i64, i64>> {
    vec![
        stage(vec![(50, 98, 2), (52, 50, 48)]),
        stage(vec![(0, 15, 37), (37, 52, 2), (39, 0, 15)]),
        stage(vec![(49, 53, 8), (0, 11, 42), (42, 0, 7), (57, 7, 4)]),
        stage(vec![(88, 18, 7), (18, 25, 70)]),
        stage(vec![(45, 77, 23), (81, 45, 19), (68, 64, 13)]),
        stage(vec![(0, 69, 1), (1, 0, 69)]),
        stage(vec![(60, 56, 37), (56, 93, 4)]),
    ]
}

fn listed(m: &RangeMap<i64, i64>) -> Vec<(i64, i64, i64)> {
    m.iter().map(|(r, v)| (r.start, r.end, *v)).collect()
}

#[test]
fn seed_map_covers_the_seed_ranges() {
    let m = seed_map(&vec![(79, 14), (55, 13)]);
    assert_eq!(listed(&m), vec![(55, 68, 0), (79, 93, 0)]);
}

#[test]
fn apply_stage_moves_covered_points_only() {
    let s = stage(vec![(50, 98, 2), (52, 50, 48)]);
    assert_eq!(apply_stage(&s, 79), 81);
    assert_eq!(apply_stage(&s, 98), 50);
    assert_eq!(apply_stage(&s, 10), 10);
}

#[test]
fn apply_stages_goes_through_all_stages() {
    let stages = almanac();
    assert_eq!(apply_stages(&stages, 79), 82);
    assert_eq!(apply_stages(&stages, 14), 43);
    assert_eq!(apply_stages(&stages, 55), 86);
    assert_eq!(apply_stages(&stages, 13), 35);
    assert_eq!(apply_stages(&vec![], 13), 13);
}

#[test]
fn combined_stages_agree_with_going_through_them() {
    let stages = almanac();
    let combined = stages.clone().into_iter().reduce(combine_stages).unwrap();
    for x in 0..130i64 {
        assert_eq!(apply_stage(&combined, x), apply_stages(&stages, x));
    }
}

#[test]
fn lowest_location_agrees_with_trying_every_seed() {
    let stages = almanac();
    let combined = stages.clone().into_iter().reduce(combine_stages).unwrap();
    let seeds = vec![(79, 14), (55, 13)];
    let lowest = lowest_location(&seed_map(&seeds), &combined);
    assert_eq!(lowest, Some(46));
    let mut tried = i64::MAX;
    for (start, count) in seeds {
        for x in start..start + count {
            tried = tried.min(apply_stages(&stages, x as i64));
        }
    }
    assert_eq!(lowest, Some(tried));
}

#[test]
fn lowest_location_without_seeds_is_none() {
    let s = stage(vec![(50, 98, 2)]);
    assert_eq!(lowest_location(&seed_map(&vec![]), &s), None);
}

#[test]
fn lowest_location_without_stage_is_the_first_seed() {
    let lowest = lowest_location(&seed_map(&vec![(7, 3), (4, 2)]), &RangeMap::new());
    assert_eq!(lowest, Some(4));
}

#[test]
fn offset_at_is_zero_off_the_stage() {
    let s = stage(vec![(50, 98, 2), (52, 50, 48)]);
    assert_eq!(offset_at(&s, 98), -48);
    assert_eq!(offset_at(&s, 50), 2);
    assert_eq!(offset_at(&s, 100), 0);
}

#[test]
fn seeds_fit_wants_ranges_within_i64() {
    let big = i64::MAX as u64;
    assert!(seeds_fit(&vec![(79, 14), (big - 1, 1)]));
    assert!(seeds_fit(&vec![]));
    assert!(!seeds_fit(&vec![(79, 0)]));
    assert!(!seeds_fit(&vec![(big, 1)]));
    assert!(!seeds_fit(&vec![(u64::MAX, u64::MAX)]));
}

#[test]
fn seed_map_merges_overlapping_ranges() {
    let m = seed_map(&vec![(10, 5), (12, 10), (22, 1)]);
    assert_eq!(listed(&m), vec![(10, 23, 0)]);
}

#[test]
fn lowest_location_looks_at_the_start_of_every_tile() {
    let mut s = RangeMap::new();
    s.insert(0..10, 100);
    s.insert(10..20, -5);
    s.insert(20..30, 50);
    assert_eq!(lowest_location(&seed_map(&vec![(5, 20)]), &s), Some(5));
    assert_eq!(lowest_location(&seed_map(&vec![(5, 3), (25, 3)]), &s), Some(75));
    assert_eq!(lowest_location(&seed_map(&vec![(40, 3), (35, 3)]), &s), Some(35));
}

#[test]
fn can_locate_wants_tile_starts_sent_within_i64() {
    let mut s = RangeMap::new();
    s.insert(10..20, i64::MAX - 12);
    assert!(can_locate(&seed_map(&vec![(0, 13)]), &s));
    assert!(can_locate(&seed_map(&vec![(12, 5)]), &s));
    assert!(!can_locate(&seed_map(&vec![(13, 5)]), &s));
    assert!(can_locate(&seed_map(&vec![(20, 5)]), &s));
    assert!(can_locate(&seed_map(&vec![]), &s));
}
