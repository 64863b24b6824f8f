use pbr::maths::{clamp, find_interval, is_power_of_2, max, min, round_up_pow_2};
use pbr::vector::{max_dimension, permute_v, Vector3};

#[test]
fn clamp_keeps_values_in_range() {
    assert_eq!(clamp(5, 0, 10), 5);
    assert_eq!(clamp(-3, 0, 10), 0);
    assert_eq!(clamp(12, 0, 10), 10);
    assert_eq!(clamp(0, 0, 10), 0);
    assert_eq!(clamp(10, 0, 10), 10);
}

#[test]
fn clamp_with_inverted_range_prefers_low() {
    // `low` is tested first, so a value below it gets `low` even when
    // `high < low`.
    assert_eq!(clamp(-5, 0, -10), 0);
    assert_eq!(clamp(3, 0, -10), -10);
}

#[test]
fn clamp_on_floats() {
    assert_eq!(clamp(1.5f32, -1.0, 1.0), 1.0);
    assert_eq!(clamp(-0.25f32, -1.0, 1.0), -0.25);
}

#[test]
fn min_max_pick_the_extremes() {
    assert_eq!(min(3u32, 7), 3);
    assert_eq!(min(7u32, 3), 3);
    assert_eq!(max(3u32, 7), 7);
    assert_eq!(max(-2i64, -9), -2);
    assert_eq!(min(2.5f32, 1.5), 1.5);
    assert_eq!(max(2.5f32, 1.5), 2.5);
}

#[test]
fn power_of_two_detection() {
    assert!(is_power_of_2(1));
    assert!(is_power_of_2(2));
    assert!(is_power_of_2(1024));
    assert!(is_power_of_2(1 << 30));
    assert!(!is_power_of_2(0));
    assert!(!is_power_of_2(3));
    assert!(!is_power_of_2(1000));
    assert!(!is_power_of_2(-4));
    assert!(!is_power_of_2(i32::MAX));
}

#[test]
fn round_up_to_power_of_two() {
    assert_eq!(round_up_pow_2(1), 1);
    assert_eq!(round_up_pow_2(2), 2);
    assert_eq!(round_up_pow_2(3), 4);
    assert_eq!(round_up_pow_2(5), 8);
    assert_eq!(round_up_pow_2(1000), 1024);
    assert_eq!(round_up_pow_2(1024), 1024);
    assert_eq!(round_up_pow_2(1 << 30), 1 << 30);
    assert_eq!(round_up_pow_2((1 << 29) + 1), 1 << 30);
}

#[test]
fn round_up_of_non_positive_is_zero() {
    assert_eq!(round_up_pow_2(0), 0);
    assert_eq!(round_up_pow_2(-1), 0);
    assert_eq!(round_up_pow_2(-1000), 0);
}

#[test]
fn find_interval_locates_bracketing_knots() {
    let knots = [0, 10, 20, 30, 40];
    // Last knot <= 25 is knot 2.
    assert_eq!(find_interval(knots.len(), |i| knots[i] <= 25), 2);
    // Values below the first knot clamp to the first interval.
    assert_eq!(find_interval(knots.len(), |i| knots[i] <= -5), 0);
    // Values past the last knot clamp to the last interval.
    assert_eq!(find_interval(knots.len(), |i| knots[i] <= 100), 3);
    assert_eq!(find_interval(knots.len(), |i| knots[i] <= 40), 3);
    assert_eq!(find_interval(knots.len(), |i| knots[i] <= 10), 1);
}

#[test]
fn find_interval_on_tiny_ranges() {
    assert_eq!(find_interval(0, |_| true), 0);
    assert_eq!(find_interval(1, |_| false), 0);
    assert_eq!(find_interval(1, |_| true), usize::MAX);
    assert_eq!(find_interval(2, |_| true), 0);
}

#[test]
fn max_dimension_picks_the_largest_component() {
    assert_eq!(max_dimension(&Vector3::new(3, 1, 2)), 0);
    assert_eq!(max_dimension(&Vector3::new(1, 3, 2)), 1);
    assert_eq!(max_dimension(&Vector3::new(1, 2, 3)), 2);
    assert_eq!(max_dimension(&Vector3::new(2, 2, 2)), 2);
    assert_eq!(max_dimension(&Vector3::new(0.5f32, -1.0, 0.25)), 0);
}

#[test]
fn permute_reorders_components() {
    let v = Vector3::new(1, 2, 3);
    assert_eq!(permute_v(&v, 2, 0, 1), Vector3::new(3, 1, 2));
    assert_eq!(permute_v(&v, 0, 0, 0), Vector3::new(1, 1, 1));
}

#[test]
fn integer_vector_products() {
    let a = Vector3::new(1, 2, 3);
    let b = Vector3::new(4, -5, 6);
    assert_eq!(a.dot(&b), 12);
    assert_eq!(Vector3::<i32>::x().dot(&a), 1);
    assert_eq!(Vector3::<i32>::y().dot(&a), 2);
    assert_eq!(Vector3::<i32>::z().dot(&a), 3);
    assert_eq!(a.get(1), 2);
}
