use intervalues::{
    combine_intervals, BaseInterval, CollectionError, Interval, IntervalCollection,
};

fn get_input() -> Vec<Interval> {
    let input: Vec<[i64; 3]> = vec![[0, 2, 1], [1, 3, 2]];
    let input = input.iter().map(|x| Interval::new(x[0], x[1], x[2])).collect();
    input
}

#[test]
fn interval_collection_test_bounds() {
    let this = IntervalCollection::from_vec(get_input());
    assert_eq!(this.get_lb(), Ok(0));
    assert_eq!(this.get_ub(), Ok(3));
    assert_eq!(this.get_bounds(), Ok((0, 3)));
}

#[test]
fn interval_collection_test_contains() {
    let this = combine_intervals(get_input());
    assert!(this.contains_num(1));
    assert!(this.contains_num(2));
    assert!(this.contains_num(3));
    assert!(!this.contains_num(4));
    assert!(!this.contains_num(-1));
}

#[test]
fn test_value() {
    let this = combine_intervals(get_input());
    assert_eq!(this.get_value(1), 1);
    assert_eq!(this.get_value(2), 3);
    assert_eq!(this.get_value(3), 2);
    assert_eq!(this.get_value(4), 0);
}

#[test]
fn test_contains_interval() {
    let this = combine_intervals(get_input());
    assert!(this.contains_interval(Interval::new(1, 2, 1)));
    assert!(this.contains_interval(Interval::new(0, 2, 1)));
    assert!(this.contains_interval(Interval::new(0, 3, 1)));
    assert!(this.contains_interval(Interval::new(1, 2, 6)));
    assert!(!this.contains_interval(Interval::new(-1, 2, 1)));
}

#[test]
fn interval_collection_test_total_value() {
    let this = combine_intervals(get_input());
    assert_eq!(this.total_value(), 6);
}

#[test]
fn test_len() {
    let this = IntervalCollection::from_vec(get_input());
    assert_eq!(this.len(), 2);
    let this = combine_intervals(get_input());
    assert_eq!(this.len(), 3);
}

#[test]
fn collection_bounds_of_empty_collection_fail() {
    let empty = IntervalCollection::new();
    assert_eq!(empty.get_lb(), Err(CollectionError::EmptyCollection));
    assert_eq!(empty.get_ub(), Err(CollectionError::EmptyCollection));
    assert_eq!(empty.get_bounds(), Err(CollectionError::EmptyCollection));
}

#[test]
fn collection_checked_construction() {
    assert_eq!(
        IntervalCollection::from_vec_checked(get_input()),
        Err(CollectionError::InvariantViolation)
    );
    let touching_equal = vec![Interval::new(0, 1, 2), Interval::new(1, 2, 2)];
    assert_eq!(
        IntervalCollection::from_vec_checked(touching_equal),
        Err(CollectionError::InvariantViolation)
    );
    let zero_width = vec![Interval::new(1, 1, 2)];
    assert_eq!(
        IntervalCollection::from_vec_checked(zero_width),
        Err(CollectionError::InvariantViolation)
    );
    let combined = combine_intervals(get_input());
    assert_eq!(IntervalCollection::from_vec_checked(combined.to_vec()), Ok(combined));
}

#[test]
fn collection_contains_interval_across_a_gap_fails() {
    let this = IntervalCollection::from_vec(vec![Interval::new(0, 1, 1), Interval::new(2, 3, 1)]);
    assert!(this.contains_interval(Interval::new(0, 1, 1)));
    assert!(!this.contains_interval(Interval::new(0, 3, 1)));
    assert!(!this.contains_interval(Interval::new(2, 4, 1)));
    assert!(this.contains_interval(Interval::new(2, 2, 1)));
}

#[test]
fn collection_overlap_queries() {
    let this = combine_intervals(get_input());
    assert!(this.get_partially_overlaps_interval(&Interval::new(3, 8, 1)));
    assert!(!this.get_partially_overlaps_interval(&Interval::new(4, 8, 1)));
    let far = IntervalCollection::from_vec(vec![Interval::new(10, 12, 1)]);
    let near = IntervalCollection::from_vec(vec![Interval::new(10, 12, 1), Interval::new(-5, 0, 1)]);
    assert!(!this.get_partially_overlaps(far));
    assert!(this.get_partially_overlaps(near));
}

#[test]
fn collection_counter_view() {
    let this = combine_intervals(get_input());
    assert_eq!(this.to_vec_as_counter()[0], Interval::default());
    assert_eq!(this.to_vec()[1], Interval::new(1, 2, 3));
    let mixed = combine_intervals(vec![
        Interval::new(0, 1, -2),
        Interval::new(1, 2, 3),
        Interval::new(2, 3, -1),
        Interval::new(3, 4, 1),
    ]);
    assert_eq!(
        mixed.to_vec_as_counter(),
        vec![Interval::new(1, 2, 3), Interval::new(3, 4, 1)]
    );
}

#[test]
fn collection_set_view() {
    let this = combine_intervals(get_input());
    assert_eq!(this.to_vec_as_set(), vec![BaseInterval::new(0, 3)]);
    let mixed = combine_intervals(vec![Interval::new(0, 3, 1), Interval::new(1, 2, -2)]);
    assert_eq!(
        mixed.to_vec_as_set(),
        vec![BaseInterval::new(0, 1), BaseInterval::new(2, 3)]
    );
}

#[test]
fn collection_value_by_parts() {
    let this = combine_intervals(get_input());
    let part = this.get_value_of_interval_by_parts(Interval::new(1, 2, 1));
    assert_eq!(part.to_vec(), vec![Interval::new(1, 2, 3)]);
    let part = this.get_value_of_interval_by_parts(Interval::new(0, 3, -2));
    assert_eq!(part.to_vec(), vec![Interval::new(2, 3, -1)]);
    let part = this.get_value_of_interval_by_parts(Interval::new(-1, 4, 2));
    assert_eq!(part.len(), 0);
}

#[test]
fn collection_owned_vec_round_trip() {
    let this = combine_intervals(get_input());
    let copy = this.to_vec();
    assert_eq!(this.to_vec_owned(), copy);
}
