use vstd::prelude::*;

verus! {

/// A fixed-point number: `base` times ten to the power of minus `pow`.
#[derive(Clone, Copy, Debug, PartialEq, Eq, PartialOrd, Hash, Default)]
pub struct IntFloat {
    base: isize,
    pow: isize,
}

impl View for IntFloat {
    /// The digits and the number of decimals.
    type V = (int, int);

    closed spec fn view(&self) -> (int, int) {
        (self.base as int, self.pow as int)
    }
}

impl IntFloat {
    pub fn new(base: isize, pow: isize) -> (r: IntFloat)
        ensures
            r@ == (base as int, pow as int),
    {
        IntFloat { base, pow }
    }

    /// Sets the digits of a copy: the number is taken by value, so the caller's
    /// own value stays as it was.
    #[allow(unused_assignments)]
    pub fn set_base(self, new_base: isize) {
        let mut copy = self;
        copy.base = new_base;
    }

    /// Sets the number of decimals of a copy: the number is taken by value, so the
    /// caller's own value stays as it was.
    #[allow(unused_assignments)]
    pub fn set_pow(self, new_pow: isize) {
        let mut copy = self;
        copy.pow = new_pow;
    }
}

} // verus!
