use intervalues::{BaseInterval, Interval};

#[test]
fn interval_test_create_int_interval() {
    let a = Interval::new(1, 2, 1);
    assert_eq!(a.len(), 1);
    assert_eq!(a.get_value(), 1)
}

#[test]
fn interval_test_bounds() {
    let a = Interval::new(3, 7, 2);
    assert_eq!(a.to_tuple(), (3, 7, 2));
    assert_eq!(a.get_bounds(), (3, 7));
    assert_eq!(a.get_lb(), 3);
    assert_eq!(a.get_ub(), 7);
    assert_eq!(a.get_width(), 4);
}

#[test]
fn interval_test_total_value() {
    let a = Interval::new(3, 7, 2);
    assert_eq!(a.get_total_value(), 8);
    assert_eq!(a.get_value(), 2);
}

#[test]
fn interval_test_contains() {
    let a = Interval::new(3, 7, 2);
    assert!(a.contains(4));
    assert!(a.contains(3));
    assert!(a.contains(7));
    assert!(!a.contains(0));
}

#[test]
fn interval_test_superset_subset() {
    let a = Interval::new(3, 7, 2);
    let b = Interval::new(4, 6, 1);

    assert!(a.superset(b));
    assert!(b.subset(a));
    assert!(!a.subset(b));
    assert!(!b.superset(a));
}

#[test]
fn interval_test_overlaps() {
    let a = Interval::new(3, 6, 1);
    let b = Interval::new(4, 7, 2);

    assert!(a.left_overlaps(&b));
    assert!(b.right_overlaps(&a));
    assert!(!a.right_overlaps(&b));
    assert!(!b.left_overlaps(&a));
}

#[test]
fn interval_test_join() {
    let a = Interval::new(0, 2, 1);
    let b = Interval::new(2, 4, 2);
    let c = Interval::new(4, 6, 2);

    assert!(!a.can_join(&b));
    assert!(c.can_join(&b));
    assert!(b.can_join(&c));
    assert!(!a.can_join(&c));

    let d = Interval::new(0, 2, 2);
    let e = Interval::new(2, 6, 2);

    assert_eq!(a.join(a), d);
    assert_eq!(c.join(b), e);
}

#[test]
fn test_join_ign_value() {
    let a = Interval::new(0, 2, 2);
    let b = Interval::new(1, 4, 3);
    let c = Interval::new(3, 6, 6);

    assert!(a.can_join_as_set(&b));
    assert!(c.can_join_as_set(&b));
    assert!(b.can_join_as_set(&c));
    assert!(!a.can_join_as_set(&c));

    let d = BaseInterval::new(0, 4);
    let e = BaseInterval::new(1, 6);
    let d2 = Interval::new(0, 4, 1);
    let e2 = Interval::new(1, 6, 1);

    assert_eq!(a.join_as_set(b), d);
    assert_eq!(c.join_as_set(b), e);

    assert_eq!(a.join_ign_value(b), d2);
    assert_eq!(c.join_ign_value(b), e2);
}

#[test]
fn interval_val_to_count_keeps_counts_and_zeroes_the_rest() {
    assert_eq!(Interval::new(0, 2, 3).val_to_count(), Interval::new(0, 2, 3));
    assert_eq!(Interval::new(0, 2, 1).val_to_count(), Interval::new(0, 2, 1));
    assert_eq!(Interval::new(0, 2, 0).val_to_count(), Interval::new(0, 2, 0));
    assert_eq!(Interval::new(0, 2, -3).val_to_count(), Interval::new(0, 2, 0));
}

#[test]
fn interval_to_base_drops_the_weight() {
    assert_eq!(Interval::new(0, 2, 7).to_base(), BaseInterval::new(0, 2));
}

#[test]
fn interval_reversed_bounds_are_swapped() {
    assert_eq!(Interval::new(5, 1, 4), Interval::new(1, 5, 4));
}

#[test]
fn interval_default_is_unit_weight_one() {
    assert_eq!(Interval::default(), Interval::new(0, 1, 1));
}

#[test]
fn interval_join_on_same_range_adds_weights() {
    let a = Interval::new(1, 3, 4);
    let b = Interval::new(1, 3, -6);
    assert!(a.can_join(&b));
    assert_eq!(a.join(b), Interval::new(1, 3, -2));
}

#[test]
fn interval_touching_unequal_weights_do_not_join() {
    let a = Interval::new(0, 1, 1);
    let b = Interval::new(1, 2, 2);
    assert!(!a.can_join(&b));
    assert!(a.can_join_as_set(&b));
}

#[test]
fn interval_total_value_of_widest_range() {
    let a = Interval::new(i64::MIN, i64::MAX, i64::MAX);
    assert_eq!(a.get_total_value(), (u64::MAX as i128) * (i64::MAX as i128));
    let b = Interval::new(-2, 3, -4);
    assert_eq!(b.get_total_value(), -20);
}
