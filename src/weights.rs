//! The weight function of a sequence of weighted intervals, and the decomposition
//! of it into disjoint pieces that combining intervals computes.
use crate::interval::WeightedSpan;
use vstd::prelude::*;
use vstd::seq_lib::*;

verus! {

/// What `iv` adds to the weight at `c`: its weight where `lb <= c < ub`
/// (an interval given with reversed bounds subtracts it on `ub <= c < lb`).
pub open spec fn step(iv: WeightedSpan, c: int) -> int {
    (if iv.lb <= c {
        iv.val
    } else {
        0
    })
        - (if iv.ub <= c {
        iv.val
    } else {
        0
    })
}

/// The weight at `c`: the sum of the weights of the intervals whose half-open
/// range `[lb, ub)` holds `c`.
pub open spec fn weight_at(s: Seq<WeightedSpan>, c: int) -> int
    decreases s.len(),
{
    if s.len() == 0 {
        0
    } else {
        weight_at(s.drop_last(), c) + step(s.last(), c)
    }
}

/// The change that `iv` brings to the weight at `c`: plus its weight at `lb`,
/// minus its weight at `ub`.
pub open spec fn jump(iv: WeightedSpan, c: int) -> int {
    (if iv.lb == c {
        iv.val
    } else {
        0
    })
        - (if iv.ub == c {
        iv.val
    } else {
        0
    })
}

/// The net change of the weight at `c`.
pub open spec fn delta_at(s: Seq<WeightedSpan>, c: int) -> int
    decreases s.len(),
{
    if s.len() == 0 {
        0
    } else {
        delta_at(s.drop_last(), c) + jump(s.last(), c)
    }
}

/// The sum of the absolute values of the weights.
pub open spec fn total_abs(s: Seq<WeightedSpan>) -> int
    decreases s.len(),
{
    if s.len() == 0 {
        0
    } else {
        total_abs(s.drop_last()) + if s.last().val >= 0 {
            s.last().val
        } else {
            -s.last().val
        }
    }
}

/// The sum of width times weight.
pub open spec fn total_of(s: Seq<WeightedSpan>) -> int
    decreases s.len(),
{
    if s.len() == 0 {
        0
    } else {
        total_of(s.drop_last()) + s.last().total()
    }
}

/// All the bounds that occur in `s`.
pub open spec fn endpoints(s: Seq<WeightedSpan>) -> Set<int>
    decreases s.len(),
{
    if s.len() == 0 {
        Set::empty()
    } else {
        endpoints(s.drop_last()).insert(s.last().lb).insert(s.last().ub)
    }
}

/// The coordinates at which the weight changes.
pub open spec fn breakpoints(s: Seq<WeightedSpan>) -> Set<int> {
    Set::new(|c: int| delta_at(s, c) != 0)
}

/// The breakpoints in ascending order.
pub open spec fn points(s: Seq<WeightedSpan>) -> Seq<int> {
    breakpoints(s).to_seq().sort()
}

/// The pieces between the first `k + 1` coordinates of `q` on which `s` weighs
/// something, each with that weight.
pub open spec fn pieces(s: Seq<WeightedSpan>, q: Seq<int>, k: int) -> Seq<WeightedSpan>
    decreases k,
{
    if k <= 0 {
        Seq::empty()
    } else {
        let prev = pieces(s, q, k - 1);
        let w = weight_at(s, q[k - 1]);
        if w != 0 {
            prev.push(WeightedSpan { lb: q[k - 1], ub: q[k], val: w })
        } else {
            prev
        }
    }
}

/// The combination of `s`: between each two neighbouring breakpoints, the piece
/// that carries the weight there, where that weight is not zero.
pub open spec fn combined(s: Seq<WeightedSpan>) -> Seq<WeightedSpan> {
    let q = points(s);
    pieces(s, q, q.len() - 1)
}

/// Strictly ascending.
pub open spec fn ascending(q: Seq<int>) -> bool {
    forall|i: int, j: int| 0 <= i < j < q.len() ==> q[i] < q[j]
}

/// Sorted, pairwise disjoint, of positive width, and maximal: neighbours that touch
/// carry different weights.
pub open spec fn disjoint_sorted(s: Seq<WeightedSpan>) -> bool {
    &&& forall|i: int| 0 <= i < s.len() ==> #[trigger] s[i].lb < s[i].ub
    &&& forall|i: int|
        #![trigger s[i], s[i + 1]]
        0 <= i < s.len() - 1 ==> s[i].ub <= s[i + 1].lb
    &&& forall|i: int|
        #![trigger s[i], s[i + 1]]
        0 <= i < s.len() - 1 && s[i].ub == s[i + 1].lb ==> s[i].val != s[i + 1].val
}

/// No piece weighs zero.
pub open spec fn nonzero(s: Seq<WeightedSpan>) -> bool {
    forall|i: int| 0 <= i < s.len() ==> #[trigger] s[i].val != 0
}

pub proof fn lemma_delta_is_difference(s: Seq<WeightedSpan>, c: int)
    ensures
        delta_at(s, c) == weight_at(s, c) - weight_at(s, c - 1),
    decreases s.len(),
{
    if s.len() > 0 {
        lemma_delta_is_difference(s.drop_last(), c);
    }
}

/// Where the weight does not change on `(a, b]`, it is the same at `a` and `b`.
pub proof fn lemma_weight_flat(s: Seq<WeightedSpan>, a: int, b: int)
    requires
        a <= b,
        forall|d: int| a < d <= b ==> #[trigger] delta_at(s, d) == 0,
    ensures
        weight_at(s, a) == weight_at(s, b),
    decreases b - a,
{
    if a < b {
        lemma_weight_flat(s, a, b - 1);
        lemma_delta_is_difference(s, b);
    }
}

/// Below every bound the weight is zero.
pub proof fn lemma_weight_zero_below(s: Seq<WeightedSpan>, c: int)
    requires
        forall|i: int| 0 <= i < s.len() ==> c < (#[trigger] s[i]).lb && c < s[i].ub,
    ensures
        weight_at(s, c) == 0,
    decreases s.len(),
{
    if s.len() > 0 {
        lemma_weight_zero_below(s.drop_last(), c);
    }
}

/// At or above every bound the weight is zero.
pub proof fn lemma_weight_zero_above(s: Seq<WeightedSpan>, c: int)
    requires
        forall|i: int| 0 <= i < s.len() ==> (#[trigger] s[i]).lb <= c && s[i].ub <= c,
    ensures
        weight_at(s, c) == 0,
    decreases s.len(),
{
    if s.len() > 0 {
        lemma_weight_zero_above(s.drop_last(), c);
    }
}

pub proof fn lemma_endpoints(s: Seq<WeightedSpan>)
    ensures
        endpoints(s).finite(),
        forall|i: int|
            0 <= i < s.len() ==> endpoints(s).contains(#[trigger] s[i].lb) && endpoints(
                s,
            ).contains(s[i].ub),
        forall|c: int|
            #[trigger] endpoints(s).contains(c) ==> exists|i: int|
                0 <= i < s.len() && (s[i].lb == c || s[i].ub == c),
    decreases s.len(),
{
    if s.len() > 0 {
        let t = s.drop_last();
        lemma_endpoints(t);
        assert forall|c: int| #[trigger] endpoints(s).contains(c) implies exists|i: int|
            0 <= i < s.len() && (s[i].lb == c || s[i].ub == c) by {
            if endpoints(t).contains(c) {
                let i = choose|i: int| 0 <= i < t.len() && (t[i].lb == c || t[i].ub == c);
                assert(s[i] == t[i]);
            } else {
                assert(s[s.len() - 1] == s.last());
            }
        }
        assert forall|i: int| 0 <= i < s.len() implies endpoints(s).contains(
            #[trigger] s[i].lb,
        ) && endpoints(s).contains(s[i].ub) by {
            if i < s.len() - 1 {
                assert(s[i] == t[i]);
            }
        }
    }
}

/// The weight changes only at bounds.
pub proof fn lemma_breakpoints_are_endpoints(s: Seq<WeightedSpan>, c: int)
    requires
        delta_at(s, c) != 0,
    ensures
        endpoints(s).contains(c),
    decreases s.len(),
{
    if s.len() > 0 {
        if delta_at(s.drop_last(), c) != 0 {
            lemma_breakpoints_are_endpoints(s.drop_last(), c);
        }
    }
}

pub proof fn lemma_breakpoints_finite(s: Seq<WeightedSpan>)
    ensures
        breakpoints(s).finite(),
        breakpoints(s).subset_of(endpoints(s)),
{
    lemma_endpoints(s);
    assert forall|c: int| breakpoints(s).contains(c) implies endpoints(s).contains(c) by {
        lemma_breakpoints_are_endpoints(s, c);
    }
    vstd::set_lib::lemma_set_subset_finite(endpoints(s), breakpoints(s));
}

proof fn lemma_to_seq_no_duplicates(s: Set<int>)
    requires
        s.finite(),
    ensures
        s.to_seq().no_duplicates(),
    decreases s.len(),
{
    if s.len() > 0 {
        let x = s.choose();
        let rest = s.remove(x);
        lemma_to_seq_no_duplicates(rest);
        rest.lemma_to_seq_to_set_id();
        assert(!rest.to_seq().contains(x)) by {
            if rest.to_seq().contains(x) {
                assert(rest.to_seq().to_set().contains(x));
            }
        }
        let t = Seq::<int>::empty().push(x) + rest.to_seq();
        assert(s.to_seq() == t);
        assert forall|i: int, j: int| 0 <= i < t.len() && 0 <= j < t.len() && i != j implies t[i]
            != t[j] by {
            if i == 0 {
                assert(rest.to_seq()[j - 1] == t[j]);
            } else if j == 0 {
                assert(rest.to_seq()[i - 1] == t[i]);
            } else {
                assert(rest.to_seq()[i - 1] == t[i]);
                assert(rest.to_seq()[j - 1] == t[j]);
            }
        }
    }
}

/// The breakpoints in ascending order, each once.
pub proof fn lemma_points(s: Seq<WeightedSpan>)
    ensures
        ascending(points(s)),
        forall|c: int| #[trigger] points(s).contains(c) <==> delta_at(s, c) != 0,
{
    broadcast use group_to_multiset_ensures;

    lemma_breakpoints_finite(s);
    let b = breakpoints(s);
    let t = b.to_seq();
    let q = points(s);
    b.lemma_to_seq_to_set_id();
    lemma_to_seq_no_duplicates(b);
    t.lemma_sort_ensures();
    t.lemma_multiset_has_no_duplicates();
    q.lemma_multiset_has_no_duplicates_conv();
    assert forall|c: int| #[trigger] q.contains(c) <==> delta_at(s, c) != 0 by {
        assert(q.to_multiset().count(c) == t.to_multiset().count(c));
        assert(t.contains(c) <==> t.to_set().contains(c));
    }
    assert forall|i: int, j: int| 0 <= i < j < q.len() implies q[i] < q[j] by {
        assert((|x: int, y: int| x <= y)(q[i], q[j]));
    }
}

/// Two ascending sequences with the same elements are equal.
pub proof fn lemma_ascending_unique(a: Seq<int>, b: Seq<int>)
    requires
        ascending(a),
        ascending(b),
        forall|c: int| a.contains(c) <==> b.contains(c),
    ensures
        a == b,
    decreases a.len(),
{
    if a.len() == 0 {
        if b.len() > 0 {
            assert(b.contains(b[0]));
        }
    } else if b.len() == 0 {
        assert(a.contains(a[0]));
    } else {
        assert(a.contains(a[0]));
        assert(b.contains(b[0]));
        let i = choose|i: int| 0 <= i < a.len() && a[i] == b[0];
        let j = choose|j: int| 0 <= j < b.len() && b[j] == a[0];
        assert(a[0] == b[0]) by {
            if i > 0 {
                assert(a[0] < a[i]);
            }
            if j > 0 {
                assert(b[0] < b[j]);
            }
        }
        let a1 = a.drop_first();
        let b1 = b.drop_first();
        assert forall|c: int| a1.contains(c) <==> b1.contains(c) by {
            if a1.contains(c) {
                let k = choose|k: int| 0 <= k < a1.len() && a1[k] == c;
                assert(a[k + 1] == c);
                assert(a[0] < a[k + 1]);
                assert(b.contains(c));
                let l = choose|l: int| 0 <= l < b.len() && b[l] == c;
                assert(l != 0);
                assert(b1[l - 1] == c);
            }
            if b1.contains(c) {
                let k = choose|k: int| 0 <= k < b1.len() && b1[k] == c;
                assert(b[k + 1] == c);
                assert(b[0] < b[k + 1]);
                assert(a.contains(c));
                let l = choose|l: int| 0 <= l < a.len() && a[l] == c;
                assert(l != 0);
                assert(a1[l - 1] == c);
            }
        }
        lemma_ascending_unique(a1, b1);
        assert(a == Seq::<int>::empty().push(a[0]) + a1);
        assert(b == Seq::<int>::empty().push(b[0]) + b1);
    }
}

/// Between two neighbouring breakpoints the weight stays what it is at the first.
pub proof fn lemma_weight_on_piece(s: Seq<WeightedSpan>, k: int, c: int)
    requires
        0 <= k < points(s).len() - 1,
        points(s)[k] <= c < points(s)[k + 1],
    ensures
        weight_at(s, c) == weight_at(s, points(s)[k]),
{
    let q = points(s);
    lemma_points(s);
    assert forall|d: int| q[k] < d <= c implies #[trigger] delta_at(s, d) == 0 by {
        if delta_at(s, d) != 0 {
            assert(q.contains(d));
            let j = choose|j: int| 0 <= j < q.len() && q[j] == d;
            if j <= k {
                if j < k {
                    assert(q[j] < q[k]);
                }
            } else {
                if j > k + 1 {
                    assert(q[k + 1] < q[j]);
                }
            }
        }
    }
    lemma_weight_flat(s, q[k], c);
}

/// The smallest bound in `s`.
pub open spec fn lowest(s: Seq<WeightedSpan>) -> int
    decreases s.len(),
{
    if s.len() == 0 {
        0
    } else {
        let m = lowest(s.drop_last());
        let l = if s.last().lb <= s.last().ub {
            s.last().lb
        } else {
            s.last().ub
        };
        if s.len() == 1 || l < m {
            l
        } else {
            m
        }
    }
}

/// The largest bound in `s`.
pub open spec fn highest(s: Seq<WeightedSpan>) -> int
    decreases s.len(),
{
    if s.len() == 0 {
        0
    } else {
        let m = highest(s.drop_last());
        let h = if s.last().lb >= s.last().ub {
            s.last().lb
        } else {
            s.last().ub
        };
        if s.len() == 1 || h > m {
            h
        } else {
            m
        }
    }
}

pub proof fn lemma_lowest_highest(s: Seq<WeightedSpan>)
    ensures
        forall|i: int|
            0 <= i < s.len() ==> lowest(s) <= (#[trigger] s[i]).lb && lowest(s) <= s[i].ub
                && s[i].lb <= highest(s) && s[i].ub <= highest(s),
    decreases s.len(),
{
    if s.len() > 0 {
        lemma_lowest_highest(s.drop_last());
        assert forall|i: int| 0 <= i < s.len() implies lowest(s) <= (#[trigger] s[i]).lb
            && lowest(s) <= s[i].ub && s[i].lb <= highest(s) && s[i].ub <= highest(s) by {
            if i < s.len() - 1 {
                assert(s[i] == s.drop_last()[i]);
            }
        }
    }
}

/// Below the first breakpoint, and from the last one on, the weight is zero; without
/// breakpoints it is zero everywhere.
pub proof fn lemma_weight_outside(s: Seq<WeightedSpan>, c: int)
    requires
        points(s).len() == 0 || c < points(s)[0] || points(s)[points(s).len() - 1] <= c,
    ensures
        weight_at(s, c) == 0,
{
    let q = points(s);
    lemma_points(s);
    lemma_lowest_highest(s);
    let lo = lowest(s) - 1;
    let hi = highest(s);
    if q.len() == 0 || c < q[0] {
        if c <= lo {
            lemma_weight_zero_below(s, c);
        } else {
            lemma_weight_zero_below(s, lo);
            assert forall|d: int| lo < d <= c implies #[trigger] delta_at(s, d) == 0 by {
                if delta_at(s, d) != 0 {
                    assert(q.contains(d));
                    let j = choose|j: int| 0 <= j < q.len() && q[j] == d;
                    if j > 0 {
                        assert(q[0] < q[j]);
                    }
                }
            }
            lemma_weight_flat(s, lo, c);
        }
    } else {
        if c >= hi {
            lemma_weight_zero_above(s, c);
        } else {
            lemma_weight_zero_above(s, hi);
            assert forall|d: int| c < d <= hi implies #[trigger] delta_at(s, d) == 0 by {
                if delta_at(s, d) != 0 {
                    assert(q.contains(d));
                    let j = choose|j: int| 0 <= j < q.len() && q[j] == d;
                    if j < q.len() - 1 {
                        assert(q[j] < q[q.len() - 1]);
                    }
                }
            }
            lemma_weight_flat(s, c, hi);
        }
    }
}

/// Walking the breakpoints in order, the weight changes by the delta at each.
pub proof fn lemma_weight_at_points(s: Seq<WeightedSpan>, k: int)
    requires
        0 <= k < points(s).len(),
    ensures
        k == 0 ==> weight_at(s, points(s)[k]) == delta_at(s, points(s)[k]),
        k > 0 ==> weight_at(s, points(s)[k]) == weight_at(s, points(s)[k - 1]) + delta_at(
            s,
            points(s)[k],
        ),
{
    let q = points(s);
    lemma_points(s);
    lemma_delta_is_difference(s, q[k]);
    if k == 0 {
        lemma_weight_outside(s, q[0] - 1);
    } else {
        assert(q[k - 1] < q[k]);
        lemma_weight_on_piece(s, k - 1, q[k] - 1);
    }
}

/// The shape of the pieces: sorted, disjoint, maximal, none weighing zero, all
/// within the coordinates walked so far.
pub proof fn lemma_pieces_shape(s: Seq<WeightedSpan>, k: int)
    requires
        0 <= k < points(s).len(),
    ensures
        disjoint_sorted(pieces(s, points(s), k)),
        nonzero(pieces(s, points(s), k)),
        forall|i: int|
            0 <= i < pieces(s, points(s), k).len() ==> points(s)[0] <= (#[trigger] pieces(
                s,
                points(s),
                k,
            )[i]).lb && pieces(s, points(s), k)[i].ub <= points(s)[k],
        pieces(s, points(s), k).len() > 0 && pieces(s, points(s), k).last().ub == points(s)[k]
            ==> k > 0 && pieces(s, points(s), k).last().val == weight_at(s, points(s)[k - 1]),
    decreases k,
{
    let q = points(s);
    lemma_points(s);
    if k > 0 {
        lemma_pieces_shape(s, k - 1);
        let prev = pieces(s, q, k - 1);
        let cur = pieces(s, q, k);
        assert(q[k - 1] < q[k]);
        if weight_at(s, q[k - 1]) != 0 {
            let iv = WeightedSpan { lb: q[k - 1], ub: q[k], val: weight_at(s, q[k - 1]) };
            assert(cur == prev.push(iv));
            if prev.len() > 0 {
                let last = prev.last();
                assert(last == prev[prev.len() - 1]);
                assert(last.ub <= q[k - 1]);
                if last.ub == q[k - 1] {
                    lemma_weight_at_points(s, k - 1);
                    assert(q.contains(q[k - 1]));
                }
            }
            assert forall|i: int| 0 <= i < cur.len() - 1 implies cur[i].ub <= cur[i + 1].lb by {
                if i < cur.len() - 2 {
                    assert(cur[i] == prev[i] && cur[i + 1] == prev[i + 1]);
                }
            }
            assert forall|i: int|
                0 <= i < cur.len() - 1 && cur[i].ub == cur[i + 1].lb implies cur[i].val != cur[i
                + 1].val by {
                if i < cur.len() - 2 {
                    assert(cur[i] == prev[i] && cur[i + 1] == prev[i + 1]);
                }
            }
            assert forall|i: int| 0 <= i < cur.len() implies q[0] <= (#[trigger] cur[i]).lb
                && cur[i].ub <= q[k] by {
                if i < cur.len() - 1 {
                    assert(cur[i] == prev[i]);
                    if k > 1 {
                        assert(q[k - 1] < q[k]);
                    }
                } else if k > 1 {
                    assert(q[0] < q[k - 1]);
                }
            }
        } else {
            assert(cur == prev);
        }
    }
}

/// The pieces over the first `k + 1` coordinates carry the weight of `s` between the
/// first and the last of them, and nothing elsewhere.
pub proof fn lemma_pieces_weight(s: Seq<WeightedSpan>, k: int, c: int)
    requires
        0 <= k < points(s).len(),
    ensures
        weight_at(pieces(s, points(s), k), c) == if points(s)[0] <= c < points(s)[k] {
            weight_at(s, c)
        } else {
            0
        },
    decreases k,
{
    let q = points(s);
    lemma_points(s);
    if k > 0 {
        lemma_pieces_weight(s, k - 1, c);
        let prev = pieces(s, q, k - 1);
        assert(q[k - 1] < q[k]);
        if k > 1 {
            assert(q[0] < q[k - 1]);
        }
        if q[k - 1] <= c < q[k] {
            lemma_weight_on_piece(s, k - 1, c);
        }
        if weight_at(s, q[k - 1]) != 0 {
            let iv = WeightedSpan { lb: q[k - 1], ub: q[k], val: weight_at(s, q[k - 1]) };
            assert(pieces(s, q, k).drop_last() == prev);
        }
    }
}

/// Combining keeps the weight at every coordinate.
pub proof fn lemma_combined_weight(s: Seq<WeightedSpan>, c: int)
    ensures
        weight_at(combined(s), c) == weight_at(s, c),
{
    let q = points(s);
    lemma_points(s);
    if q.len() == 0 {
        lemma_weight_outside(s, c);
    } else {
        lemma_pieces_weight(s, q.len() - 1, c);
        if !(q[0] <= c < q[q.len() - 1]) {
            lemma_weight_outside(s, c);
        }
    }
}

/// The result of combining is sorted, disjoint, maximal, and weighs something on every
/// piece.
pub proof fn lemma_combined_shape(s: Seq<WeightedSpan>)
    ensures
        disjoint_sorted(combined(s)),
        nonzero(combined(s)),
{
    let q = points(s);
    if q.len() > 0 {
        lemma_pieces_shape(s, q.len() - 1);
    }
}

/// Combining depends on nothing but the weight function.
pub proof fn lemma_combined_by_weight(x: Seq<WeightedSpan>, y: Seq<WeightedSpan>)
    requires
        forall|c: int| weight_at(x, c) == weight_at(y, c),
    ensures
        combined(x) == combined(y),
{
    assert forall|c: int| delta_at(x, c) == delta_at(y, c) by {
        lemma_delta_is_difference(x, c);
        lemma_delta_is_difference(y, c);
        assert(weight_at(x, c - 1) == weight_at(y, c - 1));
    }
    assert(breakpoints(x) =~= breakpoints(y));
    let q = points(x);
    assert(q == points(y));
    lemma_pieces_by_weight(x, y, q, q.len() - 1);
}

proof fn lemma_pieces_by_weight(x: Seq<WeightedSpan>, y: Seq<WeightedSpan>, q: Seq<int>, k: int)
    requires
        forall|c: int| weight_at(x, c) == weight_at(y, c),
    ensures
        pieces(x, q, k) == pieces(y, q, k),
    decreases k,
{
    if k > 0 {
        lemma_pieces_by_weight(x, y, q, k - 1);
        assert(weight_at(x, q[k - 1]) == weight_at(y, q[k - 1]));
    }
}

/// Every weight and every delta is bounded by the sum of the absolute weights.
pub proof fn lemma_bounded_by_total_abs(s: Seq<WeightedSpan>, c: int)
    ensures
        total_abs(s) >= 0,
        -total_abs(s) <= weight_at(s, c) <= total_abs(s),
        -total_abs(s) <= delta_at(s, c) <= total_abs(s),
    decreases s.len(),
{
    if s.len() > 0 {
        lemma_bounded_by_total_abs(s.drop_last(), c);
    }
}

/// A prefix weighs no more in absolute terms than the whole.
pub proof fn lemma_total_abs_prefix(s: Seq<WeightedSpan>, i: int)
    requires
        0 <= i <= s.len(),
    ensures
        0 <= total_abs(s.take(i)) <= total_abs(s),
    decreases s.len() - i,
{
    lemma_bounded_by_total_abs(s.take(i), 0);
    if i < s.len() {
        lemma_total_abs_prefix(s, i + 1);
        assert(s.take(i + 1).drop_last() == s.take(i));
    } else {
        assert(s.take(i) == s);
    }
}

} // verus!
