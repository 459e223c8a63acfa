use vstd::prelude::*;

verus! {

/// Mathematical model of a plain interval: the closed range `[lb, ub]`.
pub struct Span {
    pub lb: int,
    pub ub: int,
}

impl Span {
    pub open spec fn width(self) -> int {
        self.ub - self.lb
    }

    pub open spec fn contains(self, x: int) -> bool {
        self.lb <= x <= self.ub
    }

    pub open spec fn superset(self, o: Span) -> bool {
        self.lb <= o.lb && o.ub <= self.ub
    }

    pub open spec fn left_overlaps(self, o: Span) -> bool {
        self.lb <= o.lb && self.ub <= o.ub && o.lb <= self.ub
    }

    /// The two closed ranges share at least one point.
    pub open spec fn overlaps(self, o: Span) -> bool {
        self.lb <= o.ub && o.lb <= self.ub
    }

    /// The smallest range that holds both.
    pub open spec fn hull(self, o: Span) -> Span {
        Span {
            lb: if self.lb <= o.lb { self.lb } else { o.lb },
            ub: if self.ub >= o.ub { self.ub } else { o.ub },
        }
    }
}

/// The models of a sequence of plain intervals.
pub open spec fn spans(s: Seq<BaseInterval>) -> Seq<Span> {
    s.map_values(|b: BaseInterval| b@)
}

/// An interval without a weight (its weight is one): the closed range `[lb, ub]`
/// with `lb <= ub`.
#[derive(Clone, Copy, Debug, PartialEq, Eq, Hash)]
pub struct BaseInterval {
    lb: i64,
    ub: i64,
}

impl View for BaseInterval {
    type V = Span;

    closed spec fn view(&self) -> Span {
        Span { lb: self.lb as int, ub: self.ub as int }
    }
}

impl Default for BaseInterval {
    /// The range `[0, 1]`.
    fn default() -> (r: BaseInterval)
        ensures
            r@ == (Span { lb: 0, ub: 1 }),
    {
        BaseInterval { lb: 0, ub: 1 }
    }
}

impl BaseInterval {
    #[verifier::type_invariant]
    spec fn ordered(self) -> bool {
        self.lb <= self.ub
    }

    /// The interval between `lb` and `ub`, taken in either order.
    pub fn new(lb: i64, ub: i64) -> (r: BaseInterval)
        ensures
            r@ == (if ub > lb {
                Span { lb: lb as int, ub: ub as int }
            } else {
                Span { lb: ub as int, ub: lb as int }
            }),
    {
        if ub > lb {
            BaseInterval { lb, ub }
        } else {
            BaseInterval { lb: ub, ub: lb }
        }
    }

    pub fn to_tuple(self) -> (r: (i64, i64))
        ensures
            r.0 == self@.lb,
            r.1 == self@.ub,
    {
        (self.lb, self.ub)
    }

    pub fn get_bounds(self) -> (r: (i64, i64))
        ensures
            r.0 == self@.lb,
            r.1 == self@.ub,
    {
        (self.lb, self.ub)
    }

    pub fn get_lb(self) -> (r: i64)
        ensures
            r == self@.lb,
            self@.lb <= self@.ub,
    {
        proof {
            use_type_invariant(&self);
        }
        self.lb
    }

    pub fn get_ub(self) -> (r: i64)
        ensures
            r == self@.ub,
            self@.lb <= self@.ub,
    {
        proof {
            use_type_invariant(&self);
        }
        self.ub
    }

    /// The distance between the bounds.
    pub fn get_width(self) -> (r: u64)
        ensures
            r == self@.width(),
    {
        proof {
            use_type_invariant(&self);
        }
        (self.ub as i128 - self.lb as i128) as u64
    }

    /// A plain interval weighs one.
    pub fn get_value(self) -> (r: i64)
        ensures
            r == 1,
    {
        1
    }

    pub fn len(self) -> (r: u64)
        ensures
            r == self@.width(),
    {
        self.get_width()
    }

    /// Whether `num` lies in the closed range.
    pub fn contains(self, num: i64) -> (r: bool)
        ensures
            r == self@.contains(num as int),
    {
        num >= self.lb && num <= self.ub
    }

    pub fn superset(self, other: BaseInterval) -> (r: bool)
        ensures
            r == self@.superset(other@),
    {
        other.ub <= self.ub && other.lb >= self.lb
    }

    pub fn subset(self, other: BaseInterval) -> (r: bool)
        ensures
            r == other@.superset(self@),
    {
        other.superset(self)
    }

    /// `self` starts no later and ends no later than `other`, and reaches it.
    pub fn left_overlaps(&self, other: &BaseInterval) -> (r: bool)
        ensures
            r == self@.left_overlaps(other@),
    {
        self.lb <= other.lb && self.ub <= other.ub && other.lb <= self.ub
    }

    pub fn right_overlaps(self, other: &BaseInterval) -> (r: bool)
        ensures
            r == other@.left_overlaps(self@),
    {
        other.left_overlaps(&self)
    }

    /// Whether the closed ranges share a point.
    pub fn overlaps(self, other: BaseInterval) -> (r: bool)
        ensures
            r == self@.overlaps(other@),
    {
        self.lb <= other.ub && other.lb <= self.ub
    }

    /// Two plain intervals can be joined where they share a point.
    pub fn can_join(self, other: BaseInterval) -> (r: bool)
        ensures
            r == self@.overlaps(other@),
    {
        self.overlaps(other)
    }

    /// The smallest interval that spans both.
    pub fn join(self, other: BaseInterval) -> (r: BaseInterval)
        ensures
            r@ == self@.hull(other@),
    {
        proof {
            use_type_invariant(&self);
            use_type_invariant(&other);
        }
        let lb = if self.lb <= other.lb {
            self.lb
        } else {
            other.lb
        };
        let ub = if self.ub >= other.ub {
            self.ub
        } else {
            other.ub
        };
        BaseInterval { lb, ub }
    }

    /// Width times the weight of one.
    pub fn get_total_value(self) -> (r: u64)
        ensures
            r == self@.width(),
    {
        self.get_width()
    }
}

} // verus!
