use stagefold::interval::{intersection, offset_range};

#[test]
fn offset_range_shifts_both_ends() {
    let r = offset_range(10..20, -3);
    assert_eq!(r, 7..17);
}

#[test]
fn intersection_of_overlapping_ranges() {
    assert_eq!(intersection(&(0..10), &(5..15)), Some(5..10));
    assert_eq!(intersection(&(0..5), &(5..15)), None);
}
