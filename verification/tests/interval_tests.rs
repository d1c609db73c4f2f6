use era_days::interval::{in_between, in_between_checked};

#[test]
fn counts_multiples_in_ordered_interval() {
    assert_eq!(in_between(0, 100, 10), 10);
    assert_eq!(in_between(1, 100, 10), 9);
}

#[test]
fn reversed_interval_negates_the_count() {
    assert_eq!(in_between(100, 0, 10), -10);
    assert_eq!(in_between(7, 3, 2), -in_between(3, 7, 2));
}

#[test]
fn unit_divisor_gives_interval_length() {
    assert_eq!(in_between(-5, 7, 1), 12);
    assert_eq!(in_between(7, -5, 1), -12);
}

#[test]
fn empty_interval_has_no_multiples() {
    assert_eq!(in_between(42, 42, 7), 0);
    assert_eq!(in_between(-3, -3, 5), 0);
}

#[test]
fn negative_ranges_use_euclidean_semantics() {
    // multiples of 3 in [-10, 10): -9, -6, -3, 0, 3, 6, 9
    assert_eq!(in_between(-10, 10, 3), 7);
}

#[test]
fn splitting_an_interval_splits_the_count() {
    assert_eq!(
        in_between(-20, 17, 5),
        in_between(-20, 4, 5) + in_between(4, 17, 5)
    );
}

#[test]
fn aligned_endpoints_count_exactly_n() {
    // from 3 * 7 up to (3 + 4) * 7, with divisor 7
    assert_eq!(in_between(21, 49, 7), 4);
}

#[test]
fn interval_is_half_open() {
    // 0 is inside [0, 10) and counted; 10 is the excluded endpoint
    assert_eq!(in_between(0, 10, 10), 1);
    assert_eq!(in_between(0, 11, 10), 2);
}

#[test]
fn nonpositive_divisor_is_rejected() {
    assert_eq!(in_between_checked(0, 10, 0), None);
    assert_eq!(in_between_checked(0, 10, -1), None);
}

#[test]
fn checked_variant_agrees_on_accepted_inputs() {
    assert_eq!(in_between_checked(0, 100, 10), Some(10));
    assert_eq!(in_between_checked(-10, 10, 3), Some(7));
    assert_eq!(in_between_checked(100, 0, 10), Some(-10));
}

#[test]
fn unrepresentable_count_is_rejected() {
    assert_eq!(in_between_checked(i32::MIN, i32::MAX, 1), None);
}
