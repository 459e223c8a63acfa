use intervalues::{combine_as_set, combine_intervals, BaseInterval, Interval, IntervalCollection};

fn weighted(rows: &[[i64; 3]]) -> Vec<Interval> {
    rows.iter().map(|x| Interval::new(x[0], x[1], x[2])).collect()
}

fn plain(rows: &[[i64; 2]]) -> Vec<BaseInterval> {
    rows.iter().map(|x| BaseInterval::new(x[0], x[1])).collect()
}

#[test]
fn test_with_overlap() {
    let this: Vec<[i64; 3]> = vec![[0, 2, 1], [1, 3, 2]];
    let this = this
        .iter()
        .map(|x| Interval::new(x[0], x[1], x[2]))
        .collect();
    let this = combine_intervals(this);
    let that: Vec<[i64; 3]> = vec![[0, 1, 1], [1, 2, 3], [2, 3, 2]];
    let that = that
        .iter()
        .map(|x| Interval::new(x[0], x[1], x[2]))
        .collect();
    let that = IntervalCollection::from_vec(that);
    assert_eq!(this, that);
}

#[test]
fn test_without_overlap() {
    let this: Vec<[i64; 3]> = vec![[0, 1, 1], [2, 3, 2]];
    let this = this
        .iter()
        .map(|x| Interval::new(x[0], x[1], x[2]))
        .collect();
    let this = IntervalCollection::from_vec(this);
    let that: Vec<[i64; 3]> = vec![[0, 1, 1], [2, 3, 2]];
    let that = that
        .iter()
        .map(|x| Interval::new(x[0], x[1], x[2]))
        .collect();
    let that = combine_intervals(that);
    assert_eq!(this, that);
}

#[test]
fn test_created_overlap() {
    let this: Vec<[i64; 3]> = vec![[0, 1, 2], [2, 3, -2]];
    let this = this
        .iter()
        .map(|x| Interval::new(x[0], x[1], x[2]))
        .collect();
    let this = IntervalCollection::from_vec(this);
    let that: Vec<[i64; 3]> = vec![[0, 2, 2], [1, 3, -2]];
    let that = that
        .iter()
        .map(|x| Interval::new(x[0], x[1], x[2]))
        .collect();
    let that = combine_intervals(that);
    assert_eq!(this, that);
}

#[test]
fn test_merge() {
    let this: Vec<[i64; 3]> = vec![[0, 1, 2], [1, 2, 2]];
    let this = this
        .iter()
        .map(|x| Interval::new(x[0], x[1], x[2]))
        .collect();
    let this = combine_intervals(this);
    let that: Vec<[i64; 3]> = vec![[0, 2, 2]];
    let that = that
        .iter()
        .map(|x| Interval::new(x[0], x[1], x[2]))
        .collect();
    let that = IntervalCollection::from_vec(that);
    assert_eq!(this, that);
}

#[test]
fn test_set_with_overlap() {
    let this: Vec<[i64; 3]> = vec![[0, 2, 1], [1, 3, 2]];
    let this = this
        .iter()
        .map(|x| Interval::new(x[0], x[1], x[2]))
        .collect();
    let this = combine_as_set(this);
    let that: Vec<[i64; 2]> = vec![[0, 3]];
    let that: Vec<BaseInterval> = that.iter().map(|x| BaseInterval::new(x[0], x[1])).collect();
    assert_eq!(this, that);
}

#[test]
fn test_set_without_overlap() {
    let this: Vec<[i64; 2]> = vec![[0, 1], [2, 3]];
    let this: Vec<BaseInterval> = this
        .iter()
        .map(|x| BaseInterval::new(x[0], x[1]))
        .collect();
    let that: Vec<[i64; 3]> = vec![[0, 1, 1], [2, 3, 2]];
    let that = that
        .iter()
        .map(|x| Interval::new(x[0], x[1], x[2]))
        .collect();
    let that = combine_as_set(that);
    assert_eq!(this, that);
}

#[test]
fn test_as_set_both_impls() {
    let that: Vec<[i64; 3]> = vec![[0, 2, 1], [1, 3, 2]];
    let that = that
        .iter()
        .map(|x| Interval::new(x[0], x[1], x[2]))
        .collect();
    let this = combine_as_set(that);
    let that: Vec<[i64; 3]> = vec![[0, 2, 1], [1, 3, 2]];
    let that = that
        .iter()
        .map(|x| Interval::new(x[0], x[1], x[2]))
        .collect();
    let that = combine_intervals(that).to_vec_as_set();
    assert_eq!(this, that);
}

#[test]
fn combine_empty_input_gives_empty_collection() {
    let out = combine_intervals(Vec::new());
    assert_eq!(out.len(), 0);
    assert_eq!(out, IntervalCollection::new());
    assert!(combine_as_set(Vec::new()).is_empty());
}

#[test]
fn combine_sorts_unsorted_input() {
    let out = combine_intervals(weighted(&[[5, 6, 1], [0, 1, 4], [2, 3, -1]]));
    assert_eq!(out.to_vec(), weighted(&[[0, 1, 4], [2, 3, -1], [5, 6, 1]]));
}

#[test]
fn combine_adds_up_duplicates() {
    let out = combine_intervals(weighted(&[[1, 4, 2], [1, 4, 2], [1, 4, 3]]));
    assert_eq!(out.to_vec(), weighted(&[[1, 4, 7]]));
}

#[test]
fn combine_drops_cancelled_and_zero_width_input() {
    assert_eq!(combine_intervals(weighted(&[[0, 5, 3], [0, 5, -3]])).len(), 0);
    assert_eq!(combine_intervals(weighted(&[[2, 2, 9]])).len(), 0);
}

#[test]
fn combine_splits_where_opposite_weights_meet() {
    // the breakpoint at 1 comes from neither input alone
    let out = combine_intervals(weighted(&[[0, 2, 2], [1, 3, -2]]));
    assert_eq!(out.to_vec(), weighted(&[[0, 1, 2], [2, 3, -2]]));
}

#[test]
fn combine_again_changes_nothing() {
    let once = combine_intervals(weighted(&[[0, 4, 1], [2, 6, 2], [3, 5, -1], [8, 9, 5]]));
    let twice = combine_intervals(once.to_vec());
    assert_eq!(once, twice);
}

#[test]
fn combine_conserves_the_total() {
    let input = weighted(&[[0, 4, 1], [2, 6, 2], [3, 5, -1], [8, 9, 5]]);
    let expected: i128 = input.iter().map(|iv| iv.get_total_value()).sum();
    assert_eq!(expected, 4 + 8 - 2 + 5);
    assert_eq!(combine_intervals(input).total_value(), expected);
}

#[test]
fn combine_output_is_disjoint() {
    let out = combine_intervals(weighted(&[[0, 4, 1], [2, 6, 2], [3, 5, -1], [1, 9, 5]])).to_vec();
    for pair in out.windows(2) {
        assert!(pair[0].get_ub() <= pair[1].get_lb());
        assert!(pair[0].get_lb() < pair[0].get_ub());
    }
    assert_eq!(
        out,
        weighted(&[[0, 1, 1], [1, 2, 6], [2, 3, 8], [3, 4, 7], [4, 5, 6], [5, 6, 7], [6, 9, 5]])
    );
}

#[test]
fn combine_ignores_input_order() {
    let a = weighted(&[[0, 4, 1], [2, 6, 2], [3, 5, -1], [8, 9, 5]]);
    let b = weighted(&[[8, 9, 5], [3, 5, -1], [0, 4, 1], [2, 6, 2]]);
    assert_eq!(combine_intervals(a), combine_intervals(b));
}

#[test]
fn combine_as_set_skips_negative_pieces() {
    let out = combine_as_set(weighted(&[[0, 3, 1], [1, 2, -2]]));
    assert_eq!(out, plain(&[[0, 1], [2, 3]]));
}

#[test]
fn combine_as_set_merges_touching_runs() {
    let out = combine_as_set(weighted(&[[0, 1, 1], [1, 2, 5], [2, 3, 1], [4, 5, 1]]));
    assert_eq!(out, plain(&[[0, 3], [4, 5]]));
}

#[test]
fn combine_handles_extreme_bounds() {
    let out = combine_intervals(weighted(&[[i64::MIN, i64::MAX, 3], [0, i64::MAX, 4]]));
    assert_eq!(out.to_vec(), weighted(&[[i64::MIN, 0, 3], [0, i64::MAX, 7]]));
}

#[test]
fn combine_same_net_coverage_same_result() {
    let a = combine_intervals(weighted(&[[0, 1, 2], [2, 3, -2]]));
    let b = combine_intervals(weighted(&[[0, 2, 2], [1, 3, -2]]));
    assert_eq!(a, b);
    assert_eq!(a.to_vec(), weighted(&[[0, 1, 2], [2, 3, -2]]));
}
