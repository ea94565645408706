use tbsort::myclamp;

#[test]
fn value_within_the_bounds_is_kept() {
    assert_eq!(myclamp(5, 0, 10), 5);
    assert_eq!(myclamp(1usize, 0, 2), 1);
    assert_eq!(myclamp(-3i128, -5, -1), -3);
}

#[test]
fn value_at_or_below_the_lower_bound_gives_it() {
    assert_eq!(myclamp(0, 0, 10), 0);
    assert_eq!(myclamp(-7, 0, 10), 0);
    assert_eq!(myclamp(i128::MIN, 0, 10), 0);
}

#[test]
fn value_at_or_above_the_upper_bound_gives_it() {
    assert_eq!(myclamp(10, 0, 10), 10);
    assert_eq!(myclamp(11, 0, 10), 10);
    assert_eq!(myclamp(u64::MAX, 0, 10), 10);
}

#[test]
fn with_crossed_bounds_the_lower_bound_is_tested_first() {
    assert_eq!(myclamp(2, 7, 3), 7);
    assert_eq!(myclamp(7, 7, 3), 7);
    assert_eq!(myclamp(8, 7, 3), 3);
}

#[test]
fn floating_point_values_are_clamped_too() {
    assert_eq!(myclamp(0.5f64, 0.0, 1.0), 0.5);
    assert_eq!(myclamp(-0.5f64, 0.0, 1.0), 0.0);
    assert_eq!(myclamp(1.5f64, 0.0, 1.0), 1.0);
}
