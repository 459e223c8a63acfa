//! Laws of combining: it is idempotent, conserves the total, and ignores the order of
//! its input.
use crate::interval::WeightedSpan;
use crate::weights::{
    combined, highest, lemma_combined_by_weight, lemma_combined_shape, lemma_combined_weight,
    lemma_lowest_highest,
    lowest, step, total_of, weight_at,
};
use vstd::prelude::*;
use vstd::seq_lib::*;

verus! {

/// Combining what combining gave changes nothing.
pub proof fn lemma_combine_idempotent(x: Seq<WeightedSpan>)
    ensures
        combined(combined(x)) == combined(x),
{
    assert forall|c: int| weight_at(combined(x), c) == weight_at(x, c) by {
        lemma_combined_weight(x, c);
    }
    lemma_combined_by_weight(combined(x), x);
}

/// Combining conserves the total: the sum of width times weight is the same before
/// and after.
pub proof fn lemma_combine_conserves_total(x: Seq<WeightedSpan>)
    ensures
        total_of(combined(x)) == total_of(x),
{
    let y = combined(x);
    lemma_lowest_highest(x);
    lemma_lowest_highest(y);
    let a = if lowest(x) <= lowest(y) {
        lowest(x)
    } else {
        lowest(y)
    };
    let b = if highest(x) >= highest(y) {
        highest(x)
    } else {
        highest(y)
    };
    let n = if b >= a {
        (b - a) as nat
    } else {
        0
    };
    lemma_area_total(x, a, n);
    lemma_area_total(y, a, n);
    assert forall|c: int| weight_at(y, c) == weight_at(x, c) by {
        lemma_combined_weight(x, c);
    }
    lemma_area_same_weight(y, x, a, n);
}

/// What combining gives is disjoint: each piece has positive width and ends no later
/// than the next one starts, so the pieces ascend strictly by lower bound.
pub proof fn lemma_combine_disjoint(x: Seq<WeightedSpan>)
    ensures
        forall|k: int| 0 <= k < combined(x).len() ==> #[trigger] combined(x)[k].lb < combined(x)[k].ub,
        forall|k: int|
            #![trigger combined(x)[k], combined(x)[k + 1]]
            0 <= k < combined(x).len() - 1 ==> combined(x)[k].ub <= combined(x)[k + 1].lb,
{
    lemma_combined_shape(x);
}

/// Combining ignores the order of its input: two inputs that hold the same intervals
/// the same number of times combine alike.
pub proof fn lemma_combine_order_independent(x: Seq<WeightedSpan>, y: Seq<WeightedSpan>)
    requires
        x.to_multiset() == y.to_multiset(),
    ensures
        combined(x) == combined(y),
{
    assert forall|c: int| weight_at(x, c) == weight_at(y, c) by {
        lemma_weight_permutation(x, y, c);
    }
    lemma_combined_by_weight(x, y);
}

/// The sum of the weight over the integer points `a, a + 1, ..., a + n - 1`.
pub open spec fn area(s: Seq<WeightedSpan>, a: int, n: nat) -> int
    decreases n,
{
    if n == 0 {
        0
    } else {
        area(s, a, (n - 1) as nat) + weight_at(s, a + n - 1)
    }
}

/// How many of the points `a, ..., a + n - 1` are at least `v`.
pub open spec fn count_from(v: int, a: int, n: nat) -> int
    decreases n,
{
    if n == 0 {
        0
    } else {
        count_from(v, a, (n - 1) as nat) + if v <= a + n - 1 {
            1int
        } else {
            0
        }
    }
}

proof fn lemma_count_from(v: int, a: int, n: nat)
    ensures
        a + n <= v ==> count_from(v, a, n) == 0,
        a <= v <= a + n ==> count_from(v, a, n) == a + n - v,
    decreases n,
{
    if n > 0 {
        lemma_count_from(v, a, (n - 1) as nat);
    }
}

/// Removing the last interval takes its share off the area.
proof fn lemma_area_split(s: Seq<WeightedSpan>, a: int, n: nat)
    requires
        s.len() > 0,
    ensures
        area(s, a, n) == area(s.drop_last(), a, n) + s.last().val * (count_from(
            s.last().lb,
            a,
            n,
        ) - count_from(s.last().ub, a, n)),
    decreases n,
{
    if n > 0 {
        let m = (n - 1) as nat;
        lemma_area_split(s, a, m);
        let iv = s.last();
        let c = a + n - 1;
        let p = count_from(iv.lb, a, m);
        let q = count_from(iv.ub, a, m);
        let x: int = if iv.lb <= c {
            1
        } else {
            0
        };
        let y: int = if iv.ub <= c {
            1
        } else {
            0
        };
        assert(step(iv, c) == iv.val * x - iv.val * y);
        assert(count_from(iv.lb, a, n) == p + x);
        assert(count_from(iv.ub, a, n) == q + y);
        assert(weight_at(s, c) == weight_at(s.drop_last(), c) + step(iv, c));
        assert(iv.val * ((p + x) - (q + y)) == iv.val * (p - q) + (iv.val * x - iv.val * y))
            by (nonlinear_arith);
    } else {
        assert(s.last().val * (0int - 0int) == 0) by (nonlinear_arith);
    }
}

/// Over a range of points that holds every bound, the area is the total.
proof fn lemma_area_total(s: Seq<WeightedSpan>, a: int, n: nat)
    requires
        forall|i: int|
            0 <= i < s.len() ==> a <= (#[trigger] s[i]).lb <= a + n && a <= s[i].ub <= a + n,
    ensures
        area(s, a, n) == total_of(s),
    decreases s.len(),
{
    if s.len() > 0 {
        let t = s.drop_last();
        assert forall|i: int| 0 <= i < t.len() implies a <= (#[trigger] t[i]).lb <= a + n && a
            <= t[i].ub <= a + n by {
            assert(t[i] == s[i]);
        }
        lemma_area_total(t, a, n);
        lemma_area_split(s, a, n);
        let iv = s.last();
        assert(iv == s[s.len() - 1]);
        lemma_count_from(iv.lb, a, n);
        lemma_count_from(iv.ub, a, n);
        assert(iv.val * ((a + n - iv.lb) - (a + n - iv.ub)) == (iv.ub - iv.lb) * iv.val)
            by (nonlinear_arith);
        assert(total_of(s) == total_of(t) + iv.total());
    } else {
        lemma_area_empty(s, a, n);
    }
}

proof fn lemma_area_empty(s: Seq<WeightedSpan>, a: int, n: nat)
    requires
        s.len() == 0,
    ensures
        area(s, a, n) == 0,
    decreases n,
{
    if n > 0 {
        lemma_area_empty(s, a, (n - 1) as nat);
    }
}

proof fn lemma_area_same_weight(x: Seq<WeightedSpan>, y: Seq<WeightedSpan>, a: int, n: nat)
    requires
        forall|c: int| weight_at(x, c) == weight_at(y, c),
    ensures
        area(x, a, n) == area(y, a, n),
    decreases n,
{
    if n > 0 {
        lemma_area_same_weight(x, y, a, (n - 1) as nat);
        assert(weight_at(x, a + n - 1) == weight_at(y, a + n - 1));
    }
}

proof fn lemma_weight_remove(t: Seq<WeightedSpan>, j: int, c: int)
    requires
        0 <= j < t.len(),
    ensures
        weight_at(t, c) == weight_at(t.remove(j), c) + step(t[j], c),
    decreases t.len(),
{
    if j == t.len() - 1 {
        assert(t.remove(j) == t.drop_last());
    } else {
        lemma_weight_remove(t.drop_last(), j, c);
        assert(t.remove(j).drop_last() == t.drop_last().remove(j));
        assert(t.remove(j).last() == t.last());
    }
}

/// The weight does not depend on the order of the intervals.
proof fn lemma_weight_permutation(x: Seq<WeightedSpan>, y: Seq<WeightedSpan>, c: int)
    requires
        x.to_multiset() == y.to_multiset(),
    ensures
        weight_at(x, c) == weight_at(y, c),
    decreases x.len(),
{
    broadcast use group_to_multiset_ensures;

    if x.len() == 0 {
        assert(y.to_multiset().len() == 0);
    } else {
        let v = x.last();
        assert(x.contains(v)) by {
            assert(x[x.len() - 1] == v);
        }
        assert(x.to_multiset().count(v) > 0);
        assert(y.contains(v));
        let j = choose|j: int| 0 <= j < y.len() && y[j] == v;
        let x1 = x.drop_last();
        let y1 = y.remove(j);
        to_multiset_remove(x, x.len() - 1);
        to_multiset_remove(y, j);
        assert(x.remove(x.len() - 1) == x1);
        lemma_weight_permutation(x1, y1, c);
        lemma_weight_remove(y, j, c);
    }
}

} // verus!
