use crate::base_interval::{spans, BaseInterval, Span};
use crate::interval::{views, Interval, WeightedSpan};
use crate::weights::{disjoint_sorted, total_of};
use vstd::prelude::*;

verus! {

/// Why a question about a collection has no answer.
#[derive(Clone, Copy, Debug, PartialEq, Eq, Hash)]
pub enum CollectionError {
    /// The collection holds no interval, so it has no bounds.
    EmptyCollection,
    /// The intervals are not sorted, disjoint and maximal.
    InvariantViolation,
}

/// The weight at `x`: that of the first interval whose closed range holds `x`, or
/// zero where none does.
pub open spec fn value_at(s: Seq<WeightedSpan>, x: int) -> int
    decreases s.len(),
{
    if s.len() == 0 {
        0
    } else if s[0].span().contains(x) {
        s[0].val
    } else {
        value_at(s.drop_first(), x)
    }
}

/// The coverage of `s`: its intervals of positive weight, without their weights,
/// where each that shares a point with the run before it extends that run.
pub open spec fn set_runs(s: Seq<WeightedSpan>) -> Seq<Span>
    decreases s.len(),
{
    if s.len() == 0 {
        Seq::empty()
    } else {
        let prev = set_runs(s.drop_last());
        let iv = s.last();
        if iv.val <= 0 {
            prev
        } else if prev.len() > 0 && prev.last().overlaps(iv.span()) {
            prev.update(prev.len() - 1, prev.last().hull(iv.span()))
        } else {
            prev.push(iv.span())
        }
    }
}

/// The intervals whose weight is at least one.
pub open spec fn counted(s: Seq<WeightedSpan>) -> Seq<WeightedSpan>
    decreases s.len(),
{
    if s.len() == 0 {
        Seq::empty()
    } else if s.last().val >= 1 {
        counted(s.drop_last()).push(s.last())
    } else {
        counted(s.drop_last())
    }
}

/// The walk that checks whether the intervals cover `[a, b]`: skipping the intervals
/// that end before `a`, then clipping the covered start off the query, interval by
/// interval. It ends with the interval that covers what is left and where that part
/// starts, or with nothing where a gap comes first or the intervals run out.
pub open spec fn walk(s: Seq<WeightedSpan>, a: int, b: int) -> Option<(WeightedSpan, int)>
    decreases s.len(),
{
    if s.len() == 0 {
        None
    } else if s[0].lb <= a && b <= s[0].ub {
        Some((s[0], a))
    } else if a < s[0].lb {
        None
    } else if a > s[0].ub {
        walk(s.drop_first(), a, b)
    } else {
        walk(s.drop_first(), s[0].ub, b)
    }
}

/// The intervals `i` to `j` follow one another without a gap.
pub open spec fn chained(s: Seq<WeightedSpan>, i: int, j: int) -> bool {
    forall|k: int| i <= k < j ==> #[trigger] s[k].ub == s[k + 1].lb
}

/// `[a, b]` lies within a run of intervals that follow one another without a gap.
pub open spec fn covered(s: Seq<WeightedSpan>, a: int, b: int) -> bool {
    exists|i: int, j: int|
        0 <= i <= j < s.len() && s[i].lb <= a <= s[i].ub && b <= s[j].ub && chained(s, i, j)
}

/// In a sorted, disjoint sequence every interval ends before the later ones start.
pub proof fn lemma_sorted_apart(s: Seq<WeightedSpan>, i: int, j: int)
    requires
        disjoint_sorted(s),
        0 <= i < j < s.len(),
    ensures
        s[i].ub <= s[j].lb,
    decreases j - i,
{
    if j > i + 1 {
        lemma_sorted_apart(s, i, j - 1);
        assert(s[j - 1].lb < s[j - 1].ub);
        assert(s[j - 1].ub <= s[(j - 1) + 1].lb);
    } else {
        assert(s[i].ub <= s[i + 1].lb);
    }
}

/// On a sorted, disjoint collection the walk finds a covering run exactly when there
/// is one.
pub proof fn lemma_walk_covered(s: Seq<WeightedSpan>, a: int, b: int)
    requires
        disjoint_sorted(s),
        a <= b,
    ensures
        walk(s, a, b) is Some <==> covered(s, a, b),
    decreases s.len(),
{
    if s.len() == 0 {
        return ;
    }
    let s0 = s[0];
    let t = s.drop_first();
    assert(disjoint_sorted(t)) by {
        assert forall|i: int| 0 <= i < t.len() implies #[trigger] t[i].lb < t[i].ub by {
            assert(t[i] == s[i + 1]);
        }
        assert forall|i: int| #![trigger t[i], t[i + 1]] 0 <= i < t.len() - 1 implies t[i].ub
            <= t[i + 1].lb && (t[i].ub == t[i + 1].lb ==> t[i].val != t[i + 1].val) by {
            assert(t[i] == s[i + 1] && t[i + 1] == s[(i + 1) + 1]);
        }
    }
    if s0.lb <= a && b <= s0.ub {
        assert(chained(s, 0, 0));
    } else if a < s0.lb {
        if covered(s, a, b) {
            let (i, j) = choose|i: int, j: int|
                0 <= i <= j < s.len() && s[i].lb <= a <= s[i].ub && b <= s[j].ub && chained(s, i, j);
            if i > 0 {
                lemma_sorted_apart(s, 0, i);
            }
        }
    } else if a > s0.ub {
        lemma_walk_covered(t, a, b);
        if covered(s, a, b) {
            let (i, j) = choose|i: int, j: int|
                0 <= i <= j < s.len() && s[i].lb <= a <= s[i].ub && b <= s[j].ub && chained(s, i, j);
            assert(i >= 1);
            assert(chained(t, i - 1, j - 1)) by {
                assert forall|k: int| i - 1 <= k < j - 1 implies #[trigger] t[k].ub == t[k + 1].lb by {
                    assert(s[k + 1].ub == s[(k + 1) + 1].lb);
                }
            }
            assert(t[i - 1] == s[i] && t[j - 1] == s[j]);
        }
        if covered(t, a, b) {
            let (i, j) = choose|i: int, j: int|
                0 <= i <= j < t.len() && t[i].lb <= a <= t[i].ub && b <= t[j].ub && chained(t, i, j);
            assert(chained(s, i + 1, j + 1)) by {
                assert forall|k: int| i + 1 <= k < j + 1 implies #[trigger] s[k].ub == s[k + 1].lb by {
                    assert(t[k - 1].ub == t[(k - 1) + 1].lb);
                }
            }
            assert(t[i] == s[i + 1] && t[j] == s[j + 1]);
        }
    } else {
        lemma_walk_covered(t, s0.ub, b);
        if covered(s, a, b) {
            let (i, j) = choose|i: int, j: int|
                0 <= i <= j < s.len() && s[i].lb <= a <= s[i].ub && b <= s[j].ub && chained(s, i, j);
            if i > 0 {
                lemma_sorted_apart(s, 0, i);
                if i > 1 {
                    lemma_sorted_apart(s, 1, i);
                    assert(s[1].lb < s[1].ub);
                }
            }
            assert(j >= 1);
            if i == 0 {
                assert(s[0].ub == s[0int + 1].lb);
            }
            assert(chained(t, 0, j - 1)) by {
                assert forall|k: int| 0 <= k < j - 1 implies #[trigger] t[k].ub == t[k + 1].lb by {
                    assert(s[k + 1].ub == s[(k + 1) + 1].lb);
                }
            }
            assert(t[0] == s[1] && t[j - 1] == s[j]);
            assert(t[0].lb < t[0].ub);
        }
        if covered(t, s0.ub, b) {
            let (i, j) = choose|i: int, j: int|
                0 <= i <= j < t.len() && t[i].lb <= s0.ub <= t[i].ub && b <= t[j].ub && chained(
                    t,
                    i,
                    j,
                );
            assert(t[i] == s[i + 1] && t[j] == s[j + 1]);
            lemma_sorted_apart(s, 0, i + 1);
            if i > 0 {
                lemma_sorted_apart(s, 1, i + 1);
                assert(s[1].lb < s[1].ub);
                lemma_sorted_apart(s, 0, 1);
            }
            assert(chained(s, 0, j + 1)) by {
                assert forall|k: int| 0 <= k < j + 1 implies #[trigger] s[k].ub == s[k + 1].lb by {
                    if k > 0 {
                        assert(t[k - 1].ub == t[(k - 1) + 1].lb);
                    }
                }
            }
        }
    }
}

/// Division that rounds toward zero.
pub open spec fn quotient(a: int, b: int) -> int {
    let m = (if a >= 0 {
        a
    } else {
        -a
    }) / (if b >= 0 {
        b
    } else {
        -b
    });
    if (a >= 0) == (b > 0) || a == 0 {
        m
    } else {
        -m
    }
}

/// Divides, rounding toward zero.
fn truncating_div(a: i64, b: i64) -> (r: i64)
    requires
        b != 0,
        !(a == i64::MIN && b == -1),
    ensures
        r == quotient(a as int, b as int),
{
    let ua: u64 = if a >= 0 {
        a as u64
    } else {
        (-(a as i128)) as u64
    };
    let ub: u64 = if b >= 0 {
        b as u64
    } else {
        (-(b as i128)) as u64
    };
    let q = ua / ub;
    proof {
        let x = ua as int;
        let y = ub as int;
        assert(q as int <= x) by (nonlinear_arith)
            requires
                y >= 1,
                q as int == x / y,
                x >= 0,
        ;
        if y >= 2 {
            assert(q as int <= x / 2) by (nonlinear_arith)
                requires
                    y >= 2,
                    q as int == x / y,
                    x >= 0,
            ;
        }
    }
    if (a >= 0) == (b > 0) || a == 0 {
        q as i64
    } else {
        (-(q as i128)) as i64
    }
}

/// A sequence of weighted intervals; as produced by combining, sorted and disjoint.
#[derive(Clone, Debug, PartialEq, Eq, Hash)]
pub struct IntervalCollection {
    intervals: Vec<Interval>,
}

impl View for IntervalCollection {
    type V = Seq<WeightedSpan>;

    closed spec fn view(&self) -> Seq<WeightedSpan> {
        views(self.intervals@)
    }
}

impl IntervalCollection {
    /// The empty collection.
    pub fn new() -> (r: IntervalCollection)
        ensures
            r@ == Seq::<WeightedSpan>::empty(),
    {
        IntervalCollection { intervals: Vec::new() }
    }

    /// Takes the intervals as they are, in their order, without checking them.
    pub fn from_vec(vec: Vec<Interval>) -> (r: IntervalCollection)
        ensures
            r@ == views(vec@),
    {
        IntervalCollection { intervals: vec }
    }

    /// Takes the intervals where they are sorted, disjoint and maximal.
    pub fn from_vec_checked(vec: Vec<Interval>) -> (r: Result<IntervalCollection, CollectionError>)
        ensures
            r is Ok <==> disjoint_sorted(views(vec@)),
            r is Ok ==> r->Ok_0@ == views(vec@),
            r is Err ==> r->Err_0 == CollectionError::InvariantViolation,
    {
        let ghost s = views(vec@);
        let mut i: usize = 0;
        while i < vec.len()
            invariant
                0 <= i <= vec.len(),
                s == views(vec@),
                forall|t: int| 0 <= t < i ==> #[trigger] s[t].lb < s[t].ub,
                forall|t: int|
                    #![trigger s[t], s[t + 1]]
                    0 <= t < i - 1 ==> s[t].ub <= s[t + 1].lb,
                forall|t: int|
                    #![trigger s[t], s[t + 1]]
                    0 <= t < i - 1 && s[t].ub == s[t + 1].lb ==> s[t].val != s[t + 1].val,
            decreases vec.len() - i,
        {
            let cur = vec[i];
            proof {
                assert(s[i as int] == cur@);
            }
            if cur.get_lb() >= cur.get_ub() {
                return Err(CollectionError::InvariantViolation);
            }
            if i > 0 {
                let prev = vec[i - 1];
                proof {
                    assert(s[i - 1] == prev@);
                    assert(s[(i - 1) + 1] == cur@);
                }
                if prev.get_ub() > cur.get_lb() {
                    return Err(CollectionError::InvariantViolation);
                }
                if prev.get_ub() == cur.get_lb() && prev.get_value() == cur.get_value() {
                    return Err(CollectionError::InvariantViolation);
                }
            }
            i += 1;
        }
        Ok(IntervalCollection { intervals: vec })
    }

    /// The lower bound of the first interval.
    pub fn get_lb(&self) -> (r: Result<i64, CollectionError>)
        ensures
            self@.len() == 0 ==> r == Err::<i64, CollectionError>(CollectionError::EmptyCollection),
            self@.len() > 0 ==> r is Ok && r->Ok_0 == self@[0].lb,
    {
        if self.intervals.len() == 0 {
            return Err(CollectionError::EmptyCollection);
        }
        Ok(self.intervals[0].get_lb())
    }

    /// The upper bound of the last interval.
    pub fn get_ub(&self) -> (r: Result<i64, CollectionError>)
        ensures
            self@.len() == 0 ==> r == Err::<i64, CollectionError>(CollectionError::EmptyCollection),
            self@.len() > 0 ==> r is Ok && r->Ok_0 == self@[self@.len() - 1].ub,
    {
        let n = self.intervals.len();
        if n == 0 {
            return Err(CollectionError::EmptyCollection);
        }
        Ok(self.intervals[n - 1].get_ub())
    }

    /// How many intervals the collection holds.
    pub fn len(&self) -> (r: usize)
        ensures
            r == self@.len(),
    {
        self.intervals.len()
    }

    /// The lower bound of the first interval and the upper bound of the last.
    pub fn get_bounds(&self) -> (r: Result<(i64, i64), CollectionError>)
        ensures
            self@.len() == 0 ==> r == Err::<(i64, i64), CollectionError>(
                CollectionError::EmptyCollection,
            ),
            self@.len() > 0 ==> r is Ok && r->Ok_0.0 == self@[0].lb && r->Ok_0.1 == self@[self@.len()
                - 1].ub,
    {
        let n = self.intervals.len();
        if n == 0 {
            return Err(CollectionError::EmptyCollection);
        }
        Ok((self.intervals[0].get_lb(), self.intervals[n - 1].get_ub()))
    }

    /// Whether some interval holds `num`.
    pub fn contains_num(&self, num: i64) -> (r: bool)
        ensures
            r == exists|i: int| 0 <= i < self@.len() && (#[trigger] self@[i]).span().contains(num as int),
    {
        let ghost s = self@;
        let mut i: usize = 0;
        while i < self.intervals.len()
            invariant
                0 <= i <= self.intervals.len(),
                s == self@,
                s == views(self.intervals@),
                forall|t: int| 0 <= t < i ==> !(#[trigger] s[t]).span().contains(num as int),
            decreases self.intervals.len() - i,
        {
            proof {
                assert(s[i as int] == self.intervals@[i as int]@);
            }
            if self.intervals[i].contains(num) {
                return true;
            }
            i += 1;
        }
        false
    }

    /// The weight at `num`: that of the first interval that holds it, else zero.
    pub fn get_value(&self, num: i64) -> (r: i64)
        ensures
            r == value_at(self@, num as int),
    {
        let ghost s = self@;
        let mut i: usize = 0;
        proof {
            assert(s.subrange(0, s.len() as int) == s);
        }
        while i < self.intervals.len()
            invariant
                0 <= i <= self.intervals.len(),
                s == views(self.intervals@),
                s == self@,
                value_at(s, num as int) == value_at(s.subrange(i as int, s.len() as int), num as int),
            decreases self.intervals.len() - i,
        {
            let ghost rest = s.subrange(i as int, s.len() as int);
            proof {
                assert(rest[0] == self.intervals@[i as int]@);
                assert(rest.drop_first() == s.subrange(i + 1, s.len() as int));
            }
            if self.intervals[i].contains(num) {
                return self.intervals[i].get_value();
            }
            i += 1;
        }
        proof {
            assert(s.subrange(i as int, s.len() as int).len() == 0);
        }
        0
    }

    /// Whether some interval shares a point with `other`.
    pub fn get_partially_overlaps_interval(&self, other: &Interval) -> (r: bool)
        ensures
            r == exists|i: int|
                0 <= i < self@.len() && (#[trigger] self@[i]).span().overlaps(other@.span()),
    {
        let ghost s = self@;
        let mut i: usize = 0;
        while i < self.intervals.len()
            invariant
                0 <= i <= self.intervals.len(),
                s == self@,
                s == views(self.intervals@),
                forall|t: int| 0 <= t < i ==> !(#[trigger] s[t]).span().overlaps(other@.span()),
            decreases self.intervals.len() - i,
        {
            proof {
                assert(s[i as int] == self.intervals@[i as int]@);
            }
            if self.intervals[i].overlaps(other) {
                return true;
            }
            i += 1;
        }
        false
    }

    /// Whether some interval of `other` shares a point with some interval of this one.
    pub fn get_partially_overlaps(&self, other: IntervalCollection) -> (r: bool)
        ensures
            r == exists|i: int, j: int|
                0 <= i < self@.len() && 0 <= j < other@.len() && (#[trigger] self@[i]).span().overlaps(
                    (#[trigger] other@[j]).span(),
                ),
    {
        let ghost o = other@;
        let mut j: usize = 0;
        while j < other.intervals.len()
            invariant
                0 <= j <= other.intervals.len(),
                o == other@,
                o == views(other.intervals@),
                forall|i: int, t: int|
                    0 <= i < self@.len() && 0 <= t < j ==> !(#[trigger] self@[i]).span().overlaps(
                        (#[trigger] o[t]).span(),
                    ),
            decreases other.intervals.len() - j,
        {
            proof {
                assert(o[j as int] == other.intervals@[j as int]@);
            }
            if self.get_partially_overlaps_interval(&other.intervals[j]) {
                return true;
            }
            j += 1;
        }
        false
    }

    /// Whether the intervals cover `interval` without a gap: found by the walk that
    /// clips the covered start off the query, interval by interval.
    pub fn contains_interval(&self, interval: Interval) -> (r: bool)
        ensures
            r == walk(self@, interval@.lb, interval@.ub) is Some,
            disjoint_sorted(self@) ==> (r <==> covered(self@, interval@.lb, interval@.ub)),
    {
        let ghost s = self@;
        // learns that the bounds of the query are in order
        let _ = interval.get_lb();
        proof {
            if disjoint_sorted(s) {
                lemma_walk_covered(s, interval@.lb, interval@.ub);
            }
        }
        let mut to_check = interval;
        let mut i: usize = 0;
        proof {
            assert(s.subrange(0, s.len() as int) == s);
        }
        while i < self.intervals.len()
            invariant
                0 <= i <= self.intervals.len(),
                s == views(self.intervals@),
                s == self@,
                to_check@.ub == interval@.ub,
                disjoint_sorted(s) ==> (walk(s, interval@.lb, interval@.ub) is Some <==> covered(
                    s,
                    interval@.lb,
                    interval@.ub,
                )),
                walk(s, interval@.lb, interval@.ub) == walk(
                    s.subrange(i as int, s.len() as int),
                    to_check@.lb,
                    to_check@.ub,
                ),
            decreases self.intervals.len() - i,
        {
            let iv = self.intervals[i];
            let ghost rest = s.subrange(i as int, s.len() as int);
            proof {
                assert(rest[0] == iv@);
                assert(rest.drop_first() == s.subrange(i + 1, s.len() as int));
            }
            if iv.superset(to_check) {
                return true;
            } else if to_check.get_lb() < iv.get_lb() {
                return false;
            } else if to_check.get_lb() > iv.get_ub() {
                i += 1;
                continue ;
            } else {
                to_check = Interval::new(iv.get_ub(), to_check.get_ub(), to_check.get_value());
            }
            i += 1;
        }
        proof {
            assert(s.subrange(i as int, s.len() as int).len() == 0);
        }
        false
    }

    /// Walks as `contains_interval` does; where the walk ends on a covering interval,
    /// the part of the query left at that point, with the weight of that interval
    /// divided by the weight of the query (rounded toward zero); else nothing.
    pub fn get_value_of_interval_by_parts(&self, interval: Interval) -> (r: IntervalCollection)
        requires
            interval@.val != 0,
            interval@.val == -1 ==> forall|i: int|
                0 <= i < self@.len() ==> (#[trigger] self@[i]).val != i64::MIN,
        ensures
            r@ == match walk(self@, interval@.lb, interval@.ub) {
                Some((iv, a)) => seq![
                    WeightedSpan { lb: a, ub: interval@.ub, val: quotient(iv.val, interval@.val) },
                ],
                None => Seq::<WeightedSpan>::empty(),
            },
    {
        let ghost s = self@;
        let mut values: Vec<Interval> = Vec::new();
        let mut to_check = interval;
        let mut i: usize = 0;
        proof {
            assert(s.subrange(0, s.len() as int) == s);
        }
        while i < self.intervals.len()
            invariant
                0 <= i <= self.intervals.len(),
                s == views(self.intervals@),
                s == self@,
                values@.len() == 0,
                to_check@.ub == interval@.ub,
                to_check@.val == interval@.val,
                interval@.val != 0,
                interval@.val == -1 ==> forall|t: int|
                    0 <= t < s.len() ==> (#[trigger] s[t]).val != i64::MIN,
                walk(s, interval@.lb, interval@.ub) == walk(
                    s.subrange(i as int, s.len() as int),
                    to_check@.lb,
                    to_check@.ub,
                ),
            decreases self.intervals.len() - i,
        {
            let iv = self.intervals[i];
            let ghost rest = s.subrange(i as int, s.len() as int);
            proof {
                assert(rest[0] == iv@);
                assert(s[i as int] == iv@);
                assert(rest.drop_first() == s.subrange(i + 1, s.len() as int));
            }
            if iv.superset(to_check) {
                let v = truncating_div(iv.get_value(), to_check.get_value());
                let new = Interval::new(to_check.get_lb(), to_check.get_ub(), v);
                values.push(new);
                proof {
                    assert(views(values@) =~= seq![new@]);
                }
                return IntervalCollection::from_vec(values);
            } else if to_check.get_lb() < iv.get_lb() {
                proof {
                    assert(views(values@) =~= Seq::<WeightedSpan>::empty());
                }
                return IntervalCollection::from_vec(values);
            } else if to_check.get_lb() > iv.get_ub() {
                i += 1;
                continue ;
            } else {
                to_check = Interval::new(iv.get_ub(), to_check.get_ub(), to_check.get_value());
            }
            i += 1;
        }
        proof {
            assert(s.subrange(i as int, s.len() as int).len() == 0);
            assert(views(values@) =~= Seq::<WeightedSpan>::empty());
        }
        IntervalCollection::from_vec(values)
    }

    /// The sum over the intervals of width times weight: the integral of the weight.
    /// On a sorted, disjoint collection it always fits.
    pub fn total_value(&self) -> (r: i128)
        requires
            disjoint_sorted(self@),
        ensures
            r == total_of(self@),
    {
        let ghost s = self@;
        let n = self.intervals.len();
        let mut acc: i128 = 0;
        let mut i: usize = 0;
        while i < n
            invariant
                0 <= i <= n,
                n == self.intervals.len(),
                s == views(self.intervals@),
                s == self@,
                disjoint_sorted(s),
                acc == total_of(s.take(i as int)),
                i > 0 ==> -0x8000_0000_0000_0000 * (s[i - 1].ub - s[0].lb) <= acc
                    <= 0x8000_0000_0000_0000 * (s[i - 1].ub - s[0].lb),
                i > 0 ==> s[0].lb <= s[i - 1].ub,
                i == 0 ==> acc == 0,
            decreases n - i,
        {
            let iv = self.intervals[i];
            let w = iv.get_width();
            let v = iv.get_value();
            proof {
                assert(s[i as int] == iv@);
                iv.lemma_fits();
                self.intervals@[0].lemma_fits();
                assert(s[0] == self.intervals@[0]@);
                assert(s[i as int].lb < s[i as int].ub);
                if i > 0 {
                    assert(s[i - 1].ub <= s[(i - 1) + 1].lb);
                }
                let x = w as int;
                let y = v as int;
                assert(-0x8000_0000_0000_0000 * x <= x * y <= 0x8000_0000_0000_0000 * x)
                    by (nonlinear_arith)
                    requires
                        0 <= x,
                        -0x8000_0000_0000_0000 <= y < 0x8000_0000_0000_0000,
                ;
                assert(s.take(i + 1).drop_last() == s.take(i as int));
                assert(s.take(i + 1).last() == iv@);
                assert(iv@.total() == x * y);
            }
            acc = acc + (w as i128) * (v as i128);
            i += 1;
        }
        proof {
            assert(s.take(n as int) == s);
        }
        acc
    }

    /// The coverage: the intervals of positive weight without their weights, where
    /// neighbours that share a point are merged.
    pub fn to_vec_as_set(&self) -> (r: Vec<BaseInterval>)
        ensures
            spans(r@) == set_runs(self@),
    {
        let ghost s = self@;
        let mut new: Vec<BaseInterval> = Vec::new();
        let mut i: usize = 0;
        while i < self.intervals.len()
            invariant
                0 <= i <= self.intervals.len(),
                s == views(self.intervals@),
                s == self@,
                spans(new@) == set_runs(s.take(i as int)),
            decreases self.intervals.len() - i,
        {
            let iv = self.intervals[i];
            proof {
                assert(s.take(i + 1).drop_last() == s.take(i as int));
                assert(s.take(i + 1).last() == iv@);
            }
            if iv.get_value() > 0 {
                let b = iv.to_base();
                let k = new.len();
                if k > 0 && new[k - 1].can_join(b) {
                    let joined = new[k - 1].join(b);
                    proof {
                        assert(spans(new@)[k - 1] == new@[k - 1]@);
                    }
                    new.set(k - 1, joined);
                    proof {
                        assert(spans(new@) =~= set_runs(s.take(i + 1)));
                    }
                } else {
                    proof {
                        if k > 0 {
                            assert(spans(new@)[k - 1] == new@[k - 1]@);
                        }
                    }
                    new.push(b);
                    proof {
                        assert(spans(new@) =~= set_runs(s.take(i + 1)));
                    }
                }
            }
            i += 1;
        }
        proof {
            assert(s.take(s.len() as int) == s);
        }
        new
    }

    /// The counter view: each weight projected to a count (itself where it is at least
    /// one, else zero), touching intervals of equal count joined, and the intervals
    /// that count nothing dropped. On a sorted, disjoint, maximal collection these
    /// are its intervals of weight at least one.
    pub fn to_vec_as_counter(&self) -> (r: Vec<Interval>)
        requires
            disjoint_sorted(self@),
        ensures
            views(r@) == counted(self@),
    {
        let ghost s = self@;
        let n = self.intervals.len();
        let mut new: Vec<Interval> = Vec::new();
        if n == 0 {
            proof {
                assert(views(new@) =~= counted(s));
            }
            return new;
        }
        let mut this_interval = self.intervals[0].val_to_count();
        let mut i: usize = 1;
        proof {
            assert(s[0] == self.intervals@[0]@);
            assert(views(new@) =~= counted(s.take(0)));
        }
        while i < n
            invariant
                1 <= i <= n,
                n == self.intervals.len(),
                s == views(self.intervals@),
                s == self@,
                disjoint_sorted(s),
                views(new@) == counted(s.take(i - 1)),
                this_interval@.ub == s[i - 1].ub,
                this_interval@.lb <= s[i - 1].lb,
                this_interval@.val == s[i - 1].count(),
                this_interval@.val >= 1 ==> this_interval@.lb == s[i - 1].lb,
            decreases n - i,
        {
            let next_count = self.intervals[i].val_to_count();
            proof {
                assert(s[i as int] == self.intervals@[i as int]@);
                assert(s[i - 1].ub <= s[(i - 1) + 1].lb);
                assert(s[i - 1].lb < s[i - 1].ub);
                assert(s[i as int].lb < s[i as int].ub);
                assert(s.take(i as int).drop_last() == s.take(i - 1));
                assert(s.take(i as int).last() == s[i - 1]);
            }
            if this_interval.can_join(&next_count) {
                proof {
                    if this_interval@.val >= 1 {
                        assert(s[i - 1].ub == s[(i - 1) + 1].lb);
                        assert(s[i - 1].val != s[(i - 1) + 1].val);
                    }
                }
                this_interval = this_interval.join(next_count);
            } else {
                if this_interval.get_value() >= 1 {
                    new.push(this_interval);
                    proof {
                        assert(this_interval@ == s[i - 1]);
                        assert(views(new@) =~= counted(s.take(i as int)));
                    }
                }
                this_interval = next_count;
            }
            i += 1;
        }
        proof {
            assert(s.take(n as int) == s);
            assert(s.take(n as int).drop_last() == s.take(n - 1));
            assert(s.take(n as int).last() == s[n - 1]);
        }
        if this_interval.get_value() >= 1 {
            new.push(this_interval);
            proof {
                assert(this_interval@ == s[n - 1]);
                assert(views(new@) =~= counted(s));
            }
        }
        new
    }

    /// Hands out the intervals.
    pub fn to_vec_owned(self) -> (r: Vec<Interval>)
        ensures
            views(r@) == self@,
    {
        self.intervals
    }

    /// A copy of the intervals.
    pub fn to_vec(&self) -> (r: Vec<Interval>)
        ensures
            views(r@) == self@,
    {
        let mut out: Vec<Interval> = Vec::new();
        let mut i: usize = 0;
        while i < self.intervals.len()
            invariant
                0 <= i <= self.intervals.len(),
                views(out@) == views(self.intervals@).take(i as int),
            decreases self.intervals.len() - i,
        {
            let ghost old_out = out@;
            let iv = self.intervals[i];
            out.push(iv);
            proof {
                assert(out@ == old_out.push(iv));
                assert(views(out@) =~= views(old_out).push(iv@));
                assert(views(self.intervals@).take(i + 1) =~= views(self.intervals@).take(
                    i as int,
                ).push(iv@));
            }
            i += 1;
        }
        proof {
            assert(views(self.intervals@).take(i as int) == views(self.intervals@));
        }
        out
    }
}

} // verus!
