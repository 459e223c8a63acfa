//! The sweep over the bounds that combines weighted intervals.
use crate::base_interval::{spans, BaseInterval};
use crate::interval::{views, Interval, WeightedSpan};
use crate::interval_collection::set_runs;
use crate::interval_collection::IntervalCollection;
use crate::weights::{
    combined, delta_at, endpoints, lemma_bounded_by_total_abs, lemma_breakpoints_are_endpoints,
    lemma_combined_shape, lemma_endpoints, lemma_points, lemma_ascending_unique,
    lemma_total_abs_prefix, lemma_weight_at_points, ascending, disjoint_sorted, nonzero, pieces,
    points, total_abs, weight_at,
};
use defaultmap::DefaultHashMap;
use vstd::prelude::*;
use vstd::seq_lib::*;

verus! {

#[verifier::external_type_specification]
#[verifier::external_body]
#[verifier::reject_recursive_types(K)]
#[verifier::reject_recursive_types(V)]
pub struct ExDefaultHashMap<K: Eq + std::hash::Hash, V>(DefaultHashMap<K, V>);

/// The entries that a map of deltas holds: each key that was touched, with its value.
pub uninterp spec fn delta_entries(m: DefaultHashMap<i64, i64>) -> Map<i64, i64>;

/// The value that a missing key of a map of deltas reads as: the map's default.
pub uninterp spec fn delta_default(m: DefaultHashMap<i64, i64>) -> i64;

/// The value of `k`, where a missing key reads as zero.
pub open spec fn value_or_zero(m: Map<i64, i64>, k: i64) -> int {
    if m.contains_key(k) {
        m[k] as int
    } else {
        0
    }
}

/// Relies on `DefaultHashMap::new` of defaultmap: an empty map whose default, the
/// value of missing keys, is `i64::default()`, zero.
#[verifier::external_body]
fn new_delta_map() -> (r: DefaultHashMap<i64, i64>)
    ensures
        delta_entries(r).dom() == Set::<i64>::empty(),
        delta_default(r) == 0,
{
    DefaultHashMap::new()
}

/// Relies on `Index` of `DefaultHashMap` (its `get`): the stored value of `k`, or the
/// map's default where `k` is missing.
#[verifier::external_body]
fn delta_get(m: &DefaultHashMap<i64, i64>, k: i64) -> (r: i64)
    ensures
        r == (if delta_entries(*m).contains_key(k) {
            delta_entries(*m)[k]
        } else {
            delta_default(*m)
        }),
{
    m[k]
}

/// Relies on `DefaultHashMap::insert`, which stores `v` for `k` in the inner
/// `HashMap` and leaves the default as it was.
#[verifier::external_body]
fn delta_set(m: &mut DefaultHashMap<i64, i64>, k: i64, v: i64)
    ensures
        delta_entries(*final(m)) == delta_entries(*old(m)).insert(k, v),
        delta_default(*final(m)) == delta_default(*old(m)),
{
    m.insert(k, v);
}

/// Relies on `DefaultHashMap::iter`, which walks the entries of the inner `HashMap`:
/// each entry once, in no particular order.
#[verifier::external_body]
fn delta_list(m: &DefaultHashMap<i64, i64>) -> (r: Vec<(i64, i64)>)
    ensures
        forall|i: int|
            0 <= i < r.len() ==> delta_entries(*m).contains_key(#[trigger] r[i].0)
                && delta_entries(*m)[r[i].0] == r[i].1,
        forall|k: i64| #[trigger]
            delta_entries(*m).contains_key(k) ==> exists|i: int| 0 <= i < r.len() && r[i].0 == k,
        forall|i: int, j: int| #![trigger r[i], r[j]] 0 <= i < j < r.len() ==> r[i].0 != r[j].0,
{
    m.iter().map(|(k, v)| (*k, *v)).collect()
}

/// Relies on `slice::sort_unstable_by_key`: the same entries, in ascending order of
/// their first component.
#[verifier::external_body]
fn sort_by_coordinate(v: &mut Vec<(i64, i64)>)
    ensures
        final(v)@.to_multiset() == old(v)@.to_multiset(),
        forall|i: int, j: int| 0 <= i < j < final(v).len() ==> final(v)[i].0 <= final(v)[j].0,
{
    v.sort_unstable_by_key(|e| e.0);
}

/// The coordinates of a list of (coordinate, value) pairs.
pub open spec fn keys_of(v: Seq<(i64, i64)>) -> Seq<int> {
    v.map_values(|e: (i64, i64)| e.0 as int)
}

/// A permutation of a list with distinct keys, sorted by key, is strictly ascending
/// in its keys and holds the same entries.
proof fn lemma_sorted_distinct(a: Seq<(i64, i64)>, b: Seq<(i64, i64)>)
    requires
        a.to_multiset() == b.to_multiset(),
        forall|i: int, j: int| 0 <= i < j < a.len() ==> a[i].0 != a[j].0,
        forall|i: int, j: int| 0 <= i < j < b.len() ==> b[i].0 <= b[j].0,
    ensures
        ascending(keys_of(b)),
        forall|e: (i64, i64)| a.contains(e) <==> b.contains(e),
{
    broadcast use group_to_multiset_ensures;

    assert(a.no_duplicates()) by {
        assert forall|i: int, j: int| 0 <= i < a.len() && 0 <= j < a.len() && i != j implies a[i]
            != a[j] by {
            if i < j {
                assert(a[i].0 != a[j].0);
            } else {
                assert(a[j].0 != a[i].0);
            }
        }
    }
    a.lemma_multiset_has_no_duplicates();
    b.lemma_multiset_has_no_duplicates_conv();
    assert forall|e: (i64, i64)| a.contains(e) <==> b.contains(e) by {
        to_multiset_contains(a, e);
        to_multiset_contains(b, e);
    }
    assert forall|i: int, j: int| 0 <= i < j < keys_of(b).len() implies keys_of(b)[i] < keys_of(
        b,
    )[j] by {
        if b[i].0 == b[j].0 {
            assert(b[i] != b[j]);
            assert(a.contains(b[i]));
            assert(a.contains(b[j]));
            let x = choose|x: int| 0 <= x < a.len() && a[x] == b[i];
            let y = choose|y: int| 0 <= y < a.len() && a[y] == b[j];
            if x < y {
                assert(a[x].0 != a[y].0);
            } else {
                assert(a[y].0 != a[x].0);
            }
        }
    }
}

/// A bound of the intervals is a machine integer.
proof fn lemma_endpoint_fits(input: Seq<Interval>, c: int)
    requires
        endpoints(views(input)).contains(c),
    ensures
        i64::MIN <= c <= i64::MAX,
{
    let s = views(input);
    lemma_endpoints(s);
    let i = choose|i: int| 0 <= i < s.len() && (s[i].lb == c || s[i].ub == c);
    input[i].lemma_fits();
}

/// The breakpoints of the input in ascending order, each with the net change of the
/// weight there.
fn intervals_to_points(input: &Vec<Interval>) -> (r: Vec<(i64, i64)>)
    requires
        total_abs(views(input@)) <= i64::MAX,
    ensures
        keys_of(r@) == points(views(input@)),
        forall|i: int| 0 <= i < r.len() ==> #[trigger] r[i].1 == delta_at(views(input@), r[i].0 as int),
{
    let ghost s = views(input@);
    let mut m = new_delta_map();
    let mut i: usize = 0;
    while i < input.len()
        invariant
            0 <= i <= input.len(),
            s == views(input@),
            total_abs(s) <= i64::MAX,
            delta_default(m) == 0,
            forall|k: i64| #[trigger]
                delta_entries(m).contains_key(k) ==> delta_entries(m)[k] == delta_at(
                    s.take(i as int),
                    k as int,
                ),
            forall|k: i64| #[trigger]
                delta_entries(m).contains_key(k) <==> endpoints(s.take(i as int)).contains(
                    k as int,
                ),
        decreases input.len() - i,
    {
        let (lb, ub, val) = input[i].to_tuple();
        let ghost pre = s.take(i as int);
        let ghost nxt = s.take(i + 1);
        let ghost m0 = delta_entries(m);
        proof {
            assert(nxt.drop_last() == pre);
            assert(nxt.last() == input@[i as int]@);
            lemma_total_abs_prefix(s, i + 1);
            lemma_bounded_by_total_abs(pre, lb as int);
            lemma_bounded_by_total_abs(nxt, ub as int);
            lemma_bounded_by_total_abs(nxt, lb as int);
            if !m0.contains_key(lb) {
                if delta_at(pre, lb as int) != 0 {
                    lemma_breakpoints_are_endpoints(pre, lb as int);
                }
            }
            if !m0.contains_key(ub) {
                if delta_at(pre, ub as int) != 0 {
                    lemma_breakpoints_are_endpoints(pre, ub as int);
                }
            }
            assert(value_or_zero(m0, lb) == delta_at(pre, lb as int));
            assert(value_or_zero(m0, ub) == delta_at(pre, ub as int));
        }
        let at_lb = delta_get(&m, lb);
        delta_set(&mut m, lb, at_lb + val);
        proof {
            let m1 = delta_entries(m);
            if ub == lb {
                assert(value_or_zero(m1, ub) == delta_at(pre, ub as int) + val);
            } else {
                assert(value_or_zero(m1, ub) == delta_at(pre, ub as int));
            }
        }
        let at_ub = delta_get(&m, ub);
        proof {
            let m1 = delta_entries(m);
            assert(at_ub as int == value_or_zero(m1, ub));
        }
        delta_set(&mut m, ub, at_ub - val);
        proof {
            let m2 = delta_entries(m);
            assert forall|k: i64| #[trigger]
                m2.contains_key(k) implies m2[k] == delta_at(nxt, k as int) by {
                if k != lb && k != ub {
                    assert(m0.contains_key(k));
                }
            }
            assert forall|k: i64| #[trigger]
                m2.contains_key(k) <==> endpoints(nxt).contains(k as int) by {
                assert(endpoints(nxt) == endpoints(pre).insert(lb as int).insert(ub as int));
            }
        }
        i += 1;
    }
    proof {
        assert(s.take(i as int) == s);
    }
    let entries = delta_list(&m);
    // drop the coordinates at which the changes cancel out
    let mut out: Vec<(i64, i64)> = Vec::new();
    let mut j: usize = 0;
    while j < entries.len()
        invariant
            0 <= j <= entries.len(),
            s == views(input@),
            forall|k: i64| #[trigger]
                delta_entries(m).contains_key(k) ==> delta_entries(m)[k] == delta_at(s, k as int),
            forall|t: int|
                0 <= t < out.len() ==> #[trigger] out[t].1 != 0 && out[t].1 == delta_at(
                    s,
                    out[t].0 as int,
                ),
            forall|t: int|
                0 <= t < out.len() ==> exists|a: int| 0 <= a < j && entries[a] == #[trigger] out[t],
            forall|a: int| 0 <= a < j && entries[a].1 != 0 ==> out@.contains(#[trigger] entries[a]),
            forall|t: int, u: int| 0 <= t < u < out.len() ==> out[t].0 != out[u].0,
            forall|a: int, b: int|
                #![trigger entries[a], entries[b]]
                0 <= a < b < entries.len() ==> entries[a].0 != entries[b].0,
            forall|a: int|
                0 <= a < entries.len() ==> delta_entries(m).contains_key(#[trigger] entries[a].0)
                    && delta_entries(m)[entries[a].0] == entries[a].1,
            forall|k: i64| #[trigger]
                delta_entries(m).contains_key(k) ==> exists|a: int|
                    0 <= a < entries.len() && entries[a].0 == k,
            forall|k: i64| #[trigger]
                delta_entries(m).contains_key(k) <==> endpoints(s).contains(k as int),
        decreases entries.len() - j,
    {
        let e = entries[j];
        if e.1 != 0 {
            proof {
                assert forall|t: int| 0 <= t < out.len() implies out[t].0 != e.0 by {
                    let a = choose|a: int| 0 <= a < j && entries[a] == out[t];
                    assert(entries[a].0 != entries[j as int].0);
                }
            }
            let ghost old_out = out@;
            out.push(e);
            proof {
                assert forall|a: int| 0 <= a < j + 1 && entries[a].1 != 0 implies out@.contains(
                    #[trigger] entries[a],
                ) by {
                    if a < j {
                        assert(old_out.contains(entries[a]));
                        let t = choose|t: int| 0 <= t < old_out.len() && old_out[t] == entries[a];
                        assert(out[t] == entries[a]);
                    } else {
                        assert(out[out.len() - 1] == entries[a]);
                    }
                }
                assert forall|t: int| 0 <= t < out.len() implies exists|a: int|
                    0 <= a < j + 1 && entries[a] == #[trigger] out[t] by {
                    if t < out.len() - 1 {
                        let a = choose|a: int| 0 <= a < j && entries[a] == out[t];
                    } else {
                        assert(entries[j as int] == out[t]);
                    }
                }
            }
        }
        j += 1;
    }
    let ghost unsorted = out@;
    sort_by_coordinate(&mut out);
    proof {
        lemma_sorted_distinct(unsorted, out@);
        lemma_points(s);
        let q = points(s);
        let kq = keys_of(out@);
        assert forall|c: int| #[trigger] kq.contains(c) <==> q.contains(c) by {
            if kq.contains(c) {
                let t = choose|t: int| 0 <= t < kq.len() && kq[t] == c;
                assert(out@.contains(out[t]));
                let u = choose|u: int| 0 <= u < unsorted.len() && unsorted[u] == out[t];
            }
            if q.contains(c) {
                lemma_breakpoints_are_endpoints(s, c);
                lemma_endpoint_fits(input@, c);
                let k = c as i64;
                assert(delta_entries(m).contains_key(k));
                let a = choose|a: int| 0 <= a < entries.len() && entries[a].0 == k;
                assert(unsorted.contains(entries[a]));
                assert(out@.contains(entries[a]));
                let t = choose|t: int| 0 <= t < out.len() && out[t] == entries[a];
                assert(kq[t] == c);
            }
        }
        lemma_ascending_unique(kq, q);
        assert forall|i: int| 0 <= i < out.len() implies #[trigger] out[i].1 == delta_at(
            s,
            out[i].0 as int,
        ) by {
            assert(out@.contains(out[i]));
            let u = choose|u: int| 0 <= u < unsorted.len() && unsorted[u] == out[i];
        }
    }
    out
}

/// Each breakpoint with the weight from it up to the next one: the running sum of
/// the changes.
fn cumulative(pts: &Vec<(i64, i64)>, Ghost(s): Ghost<Seq<WeightedSpan>>) -> (r: Vec<(i64, i64)>)
    requires
        total_abs(s) <= i64::MAX,
        keys_of(pts@) == points(s),
        forall|i: int| 0 <= i < pts.len() ==> #[trigger] pts[i].1 == delta_at(s, pts[i].0 as int),
    ensures
        keys_of(r@) == points(s),
        forall|i: int| 0 <= i < r.len() ==> #[trigger] r[i].1 == weight_at(s, r[i].0 as int),
{
    let mut curr: i64 = 0;
    let mut out: Vec<(i64, i64)> = Vec::new();
    let mut i: usize = 0;
    while i < pts.len()
        invariant
            0 <= i <= pts.len(),
            out.len() == i,
            total_abs(s) <= i64::MAX,
            keys_of(pts@) == points(s),
            forall|t: int| 0 <= t < pts.len() ==> #[trigger] pts[t].1 == delta_at(s, pts[t].0 as int),
            forall|t: int|
                0 <= t < i ==> #[trigger] out[t].0 == pts[t].0 && out[t].1 == weight_at(
                    s,
                    pts[t].0 as int,
                ),
            i > 0 ==> curr == weight_at(s, pts[i - 1].0 as int),
            i == 0 ==> curr == 0,
        decreases pts.len() - i,
    {
        let (pt, d) = pts[i];
        proof {
            assert(d == delta_at(s, pts[i as int].0 as int));
            assert(keys_of(pts@)[i as int] == pt as int);
            if i > 0 {
                assert(keys_of(pts@)[i - 1] == pts[i - 1].0 as int);
            }
            lemma_weight_at_points(s, i as int);
            lemma_bounded_by_total_abs(s, pt as int);
        }
        curr = curr + d;
        out.push((pt, curr));
        i += 1;
    }
    proof {
        assert(keys_of(out@) =~= keys_of(pts@));
    }
    out
}

/// Combines weighted intervals into the sorted, disjoint pieces on which the weight
/// (the sum of the weights of the intervals covering a point) is constant and not
/// zero, each piece with that weight. Neighbouring pieces that touch differ in weight.
///
/// The weights are summed as `i64`: their absolute values must sum to at most
/// `i64::MAX`, so that no partial sum overflows.
pub fn combine_intervals(raw_ivs: Vec<Interval>) -> (r: IntervalCollection)
    requires
        total_abs(views(raw_ivs@)) <= i64::MAX,
    ensures
        r@ == combined(views(raw_ivs@)),
        disjoint_sorted(r@),
        nonzero(r@),
{
    let ghost s = views(raw_ivs@);
    let endpoints = intervals_to_points(&raw_ivs);
    let new_map = cumulative(&endpoints, Ghost(s));
    let ghost q = points(s);
    proof {
        lemma_points(s);
    }
    let n = new_map.len();
    let mut out: Vec<Interval> = Vec::new();
    let mut k: usize = 0;
    // each two neighbouring breakpoints bound a piece
    while k + 1 < n
        invariant
            n == new_map.len(),
            n == 0 ==> k == 0,
            n > 0 ==> k < n,
            q == points(s),
            ascending(q),
            keys_of(new_map@) == q,
            forall|i: int| 0 <= i < n ==> #[trigger] new_map[i].1 == weight_at(s, new_map[i].0 as int),
            views(out@) == pieces(s, q, k as int),
        decreases n - k,
    {
        let (lb, w) = new_map[k];
        let (ub, _) = new_map[k + 1];
        proof {
            assert(keys_of(new_map@)[k as int] == lb as int);
            assert(keys_of(new_map@)[k + 1] == ub as int);
            assert(q[k as int] < q[k + 1]);
        }
        if w != 0 {
            let iv = Interval::new(lb, ub, w);
            out.push(iv);
            proof {
                assert(views(out@) =~= pieces(s, q, k as int).push(iv@));
            }
        }
        k += 1;
    }
    proof {
        lemma_combined_shape(s);
        if n == 0 {
            assert(pieces(s, q, q.len() - 1) == pieces(s, q, 0));
        }
    }
    IntervalCollection::from_vec(out)
}

/// The coverage of the combined intervals: the pieces of positive weight, without
/// their weights, where pieces that touch are merged into one run. The weights are
/// bounded as for `combine_intervals`.
pub fn combine_as_set(raw_ivs: Vec<Interval>) -> (r: Vec<BaseInterval>)
    requires
        total_abs(views(raw_ivs@)) <= i64::MAX,
    ensures
        spans(r@) == set_runs(combined(views(raw_ivs@))),
{
    let ghost s = views(raw_ivs@);
    let endpoints = intervals_to_points(&raw_ivs);
    let new_map = cumulative(&endpoints, Ghost(s));
    let ghost q = points(s);
    proof {
        lemma_points(s);
    }
    let n = new_map.len();
    let mut out: Vec<BaseInterval> = Vec::new();
    let mut k: usize = 0;
    while k + 1 < n
        invariant
            n == new_map.len(),
            n == 0 ==> k == 0,
            n > 0 ==> k < n,
            q == points(s),
            ascending(q),
            keys_of(new_map@) == q,
            forall|i: int| 0 <= i < n ==> #[trigger] new_map[i].1 == weight_at(s, new_map[i].0 as int),
            spans(out@) == set_runs(pieces(s, q, k as int)),
            out.len() > 0 ==> spans(out@).last().lb < spans(out@).last().ub <= q[k as int],
        decreases n - k,
    {
        let (lb, w) = new_map[k];
        let (ub, _) = new_map[k + 1];
        let ghost prev = spans(out@);
        let ghost iv = WeightedSpan { lb: lb as int, ub: ub as int, val: w as int };
        proof {
            assert(keys_of(new_map@)[k as int] == lb as int);
            assert(keys_of(new_map@)[k + 1] == ub as int);
            assert(q[k as int] < q[k + 1]);
            if w != 0 {
                assert(pieces(s, q, k + 1) == pieces(s, q, k as int).push(iv));
                assert(pieces(s, q, k + 1).drop_last() == pieces(s, q, k as int));
            }
        }
        if w > 0 {
            let len = out.len();
            if len > 0 && out[len - 1].get_ub() == lb {
                let new_lb = out[len - 1].get_lb();
                proof {
                    assert(prev.last() == out@[len - 1]@);
                }
                out.pop();
                out.push(BaseInterval::new(new_lb, ub));
                proof {
                    assert(spans(out@) =~= prev.update(len - 1, prev.last().hull(iv.span())));
                }
            } else {
                proof {
                    if len > 0 {
                        assert(prev.last() == out@[len - 1]@);
                    }
                }
                out.push(BaseInterval::new(lb, ub));
                proof {
                    assert(spans(out@) =~= prev.push(iv.span()));
                }
            }
        }
        k += 1;
    }
    proof {
        if n == 0 {
            assert(pieces(s, q, q.len() - 1) == pieces(s, q, 0));
        }
    }
    out
}

} // verus!
