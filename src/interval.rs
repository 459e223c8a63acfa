use crate::base_interval::{BaseInterval, Span};
use vstd::prelude::*;

verus! {

/// Mathematical model of a weighted interval: the closed range `[lb, ub]` carrying `val`.
pub struct WeightedSpan {
    pub lb: int,
    pub ub: int,
    pub val: int,
}

impl WeightedSpan {
    pub open spec fn span(self) -> Span {
        Span { lb: self.lb, ub: self.ub }
    }

    pub open spec fn width(self) -> int {
        self.ub - self.lb
    }

    /// The integral of the weight over the range.
    pub open spec fn total(self) -> int {
        (self.ub - self.lb) * self.val
    }

    pub open spec fn same_bounds(self, o: WeightedSpan) -> bool {
        self.lb == o.lb && self.ub == o.ub
    }

    /// The ranges touch end to start, in either order.
    pub open spec fn adjacent(self, o: WeightedSpan) -> bool {
        self.ub == o.lb || o.ub == self.lb
    }

    /// Same range (weights add up), or touching ranges of equal weight.
    pub open spec fn can_join(self, o: WeightedSpan) -> bool {
        (self.adjacent(o) && self.val == o.val) || self.same_bounds(o)
    }

    /// What joining two joinable intervals gives.
    pub open spec fn joined(self, o: WeightedSpan) -> WeightedSpan {
        if self.same_bounds(o) {
            WeightedSpan { lb: self.lb, ub: self.ub, val: self.val + o.val }
        } else {
            let h = self.span().hull(o.span());
            WeightedSpan { lb: h.lb, ub: h.ub, val: self.val }
        }
    }

    /// The weight as a count: the weight itself when it is at least one, else zero.
    pub open spec fn count(self) -> int {
        if self.val >= 1 {
            self.val
        } else {
            0
        }
    }
}

/// The models of a sequence of intervals.
pub open spec fn views(s: Seq<Interval>) -> Seq<WeightedSpan> {
    s.map_values(|iv: Interval| iv@)
}

/// An interval carrying a weight: the closed range `[lb, ub]` with `lb <= ub`.
#[derive(Clone, Copy, Debug, PartialEq, Eq, Hash)]
pub struct Interval {
    lb: i64,
    ub: i64,
    val: i64,
}

impl View for Interval {
    type V = WeightedSpan;

    closed spec fn view(&self) -> WeightedSpan {
        WeightedSpan { lb: self.lb as int, ub: self.ub as int, val: self.val as int }
    }
}

impl Default for Interval {
    /// The range `[0, 1]` with weight one.
    fn default() -> (r: Interval)
        ensures
            r@ == (WeightedSpan { lb: 0, ub: 1, val: 1 }),
    {
        Interval { lb: 0, ub: 1, val: 1 }
    }
}

impl Interval {
    #[verifier::type_invariant]
    spec fn ordered(self) -> bool {
        self.lb <= self.ub
    }

    /// The bounds and the weight are machine integers.
    pub proof fn lemma_fits(self)
        ensures
            i64::MIN <= self@.lb <= i64::MAX,
            i64::MIN <= self@.ub <= i64::MAX,
            i64::MIN <= self@.val <= i64::MAX,
    {
    }

    /// The interval between `lb` and `ub`, taken in either order, with weight `val`.
    pub fn new(lb: i64, ub: i64, val: i64) -> (r: Interval)
        ensures
            r@ == (if ub > lb {
                WeightedSpan { lb: lb as int, ub: ub as int, val: val as int }
            } else {
                WeightedSpan { lb: ub as int, ub: lb as int, val: val as int }
            }),
    {
        if ub > lb {
            Interval { lb, ub, val }
        } else {
            Interval { lb: ub, ub: lb, val }
        }
    }

    pub fn to_tuple(self) -> (r: (i64, i64, i64))
        ensures
            r.0 == self@.lb,
            r.1 == self@.ub,
            r.2 == self@.val,
    {
        (self.lb, self.ub, self.val)
    }

    pub fn get_bounds(self) -> (r: (i64, i64))
        ensures
            r.0 == self@.lb,
            r.1 == self@.ub,
    {
        (self.lb, self.ub)
    }

    pub fn get_lb(self) -> (r: i64)
        ensures
            r == self@.lb,
            self@.lb <= self@.ub,
    {
        proof {
            use_type_invariant(&self);
        }
        self.lb
    }

    pub fn get_ub(self) -> (r: i64)
        ensures
            r == self@.ub,
            self@.lb <= self@.ub,
    {
        proof {
            use_type_invariant(&self);
        }
        self.ub
    }

    /// The distance between the bounds.
    pub fn get_width(self) -> (r: u64)
        ensures
            r == self@.width(),
    {
        proof {
            use_type_invariant(&self);
        }
        (self.ub as i128 - self.lb as i128) as u64
    }

    pub fn get_value(self) -> (r: i64)
        ensures
            r == self@.val,
    {
        self.val
    }

    pub fn len(self) -> (r: u64)
        ensures
            r == self@.width(),
    {
        self.get_width()
    }

    /// Whether `num` lies in the closed range.
    pub fn contains(self, num: i64) -> (r: bool)
        ensures
            r == self@.span().contains(num as int),
    {
        num >= self.lb && num <= self.ub
    }

    pub fn superset(self, other: Interval) -> (r: bool)
        ensures
            r == self@.span().superset(other@.span()),
    {
        other.ub <= self.ub && other.lb >= self.lb
    }

    pub fn subset(self, other: Interval) -> (r: bool)
        ensures
            r == other@.span().superset(self@.span()),
    {
        other.superset(self)
    }

    /// `self` starts no later and ends no later than `other`, and reaches it.
    pub fn left_overlaps(&self, other: &Interval) -> (r: bool)
        ensures
            r == self@.span().left_overlaps(other@.span()),
    {
        self.lb <= other.lb && self.ub <= other.ub && other.lb <= self.ub
    }

    pub fn right_overlaps(self, other: &Interval) -> (r: bool)
        ensures
            r == other@.span().left_overlaps(self@.span()),
    {
        other.left_overlaps(&self)
    }

    /// Whether the closed ranges share a point.
    pub fn overlaps(self, other: &Interval) -> (r: bool)
        ensures
            r == self@.span().overlaps(other@.span()),
    {
        self.lb <= other.ub && other.lb <= self.ub
    }

    /// Same bounds, or touching bounds and equal weights.
    pub fn can_join(self, other: &Interval) -> (r: bool)
        ensures
            r == self@.can_join(other@),
    {
        if (self.ub == other.lb || other.ub == self.lb) && self.val == other.val {
            true
        } else {
            self.ub == other.ub && self.lb == other.lb
        }
    }

    /// Joins two joinable intervals: on the same range the weights add up; touching
    /// intervals of equal weight become the one range that spans both.
    pub fn join(self, other: Interval) -> (r: Interval)
        requires
            self@.can_join(other@),
            self@.same_bounds(other@) ==> i64::MIN <= self@.val + other@.val <= i64::MAX,
        ensures
            r@ == self@.joined(other@),
    {
        proof {
            use_type_invariant(&self);
            use_type_invariant(&other);
        }
        if self.ub == other.ub && self.lb == other.lb {
            return Interval { lb: self.lb, ub: self.ub, val: self.val + other.val };
        }
        let lb = if self.lb <= other.lb {
            self.lb
        } else {
            other.lb
        };
        let ub = if self.ub >= other.ub {
            self.ub
        } else {
            other.ub
        };
        Interval { lb, ub, val: self.val }
    }

    /// Whether the two can be joined when weights are ignored: they share a point.
    pub fn can_join_as_set(self, other: &Interval) -> (r: bool)
        ensures
            r == self@.span().overlaps(other@.span()),
    {
        self.overlaps(other)
    }

    /// The range that spans both, with weight one.
    pub fn join_ign_value(self, other: Interval) -> (r: Interval)
        ensures
            r@.span() == self@.span().hull(other@.span()),
            r@.val == 1,
    {
        proof {
            use_type_invariant(&self);
            use_type_invariant(&other);
        }
        let lb = if self.lb <= other.lb {
            self.lb
        } else {
            other.lb
        };
        let ub = if self.ub >= other.ub {
            self.ub
        } else {
            other.ub
        };
        Interval { lb, ub, val: 1 }
    }

    /// The range that spans both, as a plain interval.
    pub fn join_as_set(self, other: Interval) -> (r: BaseInterval)
        ensures
            r@ == self@.span().hull(other@.span()),
    {
        proof {
            use_type_invariant(&self);
            use_type_invariant(&other);
        }
        let lb = if self.lb <= other.lb {
            self.lb
        } else {
            other.lb
        };
        let ub = if self.ub >= other.ub {
            self.ub
        } else {
            other.ub
        };
        BaseInterval::new(lb, ub)
    }

    /// The same range without its weight.
    pub fn to_base(self) -> (r: BaseInterval)
        ensures
            r@ == self@.span(),
    {
        proof {
            use_type_invariant(&self);
        }
        BaseInterval::new(self.lb, self.ub)
    }

    /// Width times weight.
    pub fn get_total_value(self) -> (r: i128)
        ensures
            r == self@.total(),
    {
        proof {
            use_type_invariant(&self);
            let w = self.ub as int - self.lb as int;
            let v = self.val as int;
            assert(-0x8000_0000_0000_0000_0000_0000_0000_0000 < w * v
                < 0x8000_0000_0000_0000_0000_0000_0000_0000) by (nonlinear_arith)
                requires
                    0 <= w < 0x1_0000_0000_0000_0000,
                    -0x8000_0000_0000_0000 <= v < 0x8000_0000_0000_0000,
            ;
        }
        (self.ub as i128 - self.lb as i128) * (self.val as i128)
    }

    /// The weight projected to a count: kept when it is at least one, else zero.
    pub fn val_to_count(self) -> (r: Interval)
        ensures
            r@ == (WeightedSpan { lb: self@.lb, ub: self@.ub, val: self@.count() }),
    {
        proof {
            use_type_invariant(&self);
        }
        if self.val >= 1 {
            Interval { lb: self.lb, ub: self.ub, val: self.val }
        } else {
            Interval { lb: self.lb, ub: self.ub, val: 0 }
        }
    }
}

} // verus!
