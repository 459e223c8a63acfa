use intervalues::{BaseInterval, Interval};

#[test]
fn base_interval_test_create_int_interval() {
    let a = BaseInterval::new(1, 2);
    assert_eq!(a.len(), 1);
    assert_eq!(a.get_value(), 1)
}

#[test]
fn base_interval_test_bounds() {
    let a = BaseInterval::new(3, 7);
    assert_eq!(a.to_tuple(), (3, 7));
    assert_eq!(a.get_bounds(), (3, 7));
    assert_eq!(a.get_lb(), 3);
    assert_eq!(a.get_ub(), 7);
    assert_eq!(a.get_width(), 4);
}

#[test]
fn base_interval_test_total_value() {
    let a = BaseInterval::new(3, 7);
    assert_eq!(a.get_total_value(), 4);
    assert_eq!(a.get_value(), 1);
}

#[test]
fn base_interval_test_contains() {
    let a = BaseInterval::new(3, 7);
    assert!(a.contains(4));
    assert!(a.contains(3));
    assert!(a.contains(7));
    assert!(!a.contains(0));
}

#[test]
fn base_interval_test_superset_subset() {
    let a = BaseInterval::new(3, 7);
    let b = BaseInterval::new(4, 6);

    assert!(a.superset(b));
    assert!(b.subset(a));
    assert!(!a.subset(b));
    assert!(!b.superset(a));
}

#[test]
fn base_interval_test_overlaps() {
    let a = BaseInterval::new(3, 6);
    let b = BaseInterval::new(4, 7);

    assert!(a.left_overlaps(&b));
    assert!(b.right_overlaps(&a));
    assert!(!a.right_overlaps(&b));
    assert!(!b.left_overlaps(&a));
}

#[test]
fn base_interval_test_join() {
    let a = BaseInterval::new(0, 2);
    let b = BaseInterval::new(1, 4);
    let c = BaseInterval::new(3, 6);

    assert!(a.can_join(b));
    assert!(c.can_join(b));
    assert!(b.can_join(c));
    assert!(!a.can_join(c));

    let d = BaseInterval::new(0, 4);
    let e = BaseInterval::new(1, 6);

    assert_eq!(a.join(b), d);
    assert_eq!(c.join(b), e);
}

#[test]
fn base_interval_reversed_bounds_are_swapped() {
    let a = BaseInterval::new(7, 3);
    assert_eq!(a, BaseInterval::new(3, 7));
    assert_eq!(a.get_lb(), 3);
    assert_eq!(a.get_ub(), 7);
}

#[test]
fn base_interval_default_is_unit() {
    assert_eq!(BaseInterval::default(), BaseInterval::new(0, 1));
}

#[test]
fn base_interval_contained_range_overlaps() {
    // one range inside the other shares points with it
    let outer = BaseInterval::new(0, 10);
    let inner = BaseInterval::new(2, 3);
    assert!(outer.overlaps(inner));
    assert!(inner.overlaps(outer));
    assert_eq!(outer.join(inner), outer);
    assert!(!BaseInterval::new(0, 1).overlaps(BaseInterval::new(2, 3)));
}

#[test]
fn base_interval_widest_range_width() {
    let a = BaseInterval::new(i64::MIN, i64::MAX);
    assert_eq!(a.get_width(), u64::MAX);
}

#[test]
fn base_interval_matches_weighted_base() {
    let x = BaseInterval::new(0, 1);
    let y = Interval::new(0, 1, 2);
    assert_eq!(x, y.to_base());
}
