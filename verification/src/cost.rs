//! The numeric contract that path costs and heuristic estimates obey.

use vstd::prelude::*;

verus! {

/// A cost is a non-negative quantity with a total order, an addition and an
/// additive identity. Every cost stands for a natural number, its `value`;
/// order and addition are those of the values.
pub trait Cost: Copy + Sized {
    /// The natural number this cost stands for.
    spec fn value(self) -> nat;

    /// The largest value the type can hold.
    spec fn limit() -> nat;

    /// The additive identity.
    fn zero() -> (z: Self)
        ensures
            z.value() == 0,
    ;

    /// The cost that `plus` gives for two costs.
    spec fn sum(self, rhs: Self) -> Self;

    /// Where it fits the type, the sum stands for the sum of the values.
    proof fn sum_adds(self, rhs: Self)
        requires
            self.value() + rhs.value() <= Self::limit(),
        ensures
            self.sum(rhs).value() == self.value() + rhs.value(),
    ;

    /// The sum of two costs, where it fits the type.
    fn plus(self, rhs: Self) -> (sum: Self)
        requires
            self.value() + rhs.value() <= Self::limit(),
        ensures
            sum == self.sum(rhs),
            sum.value() == self.value() + rhs.value(),
    ;

    /// Whether `self` is less than or equal to `rhs`.
    fn at_most(self, rhs: Self) -> (b: bool)
        ensures
            b == (self.value() <= rhs.value()),
    ;
}

impl Cost for u32 {
    open spec fn value(self) -> nat {
        self as nat
    }

    open spec fn limit() -> nat {
        u32::MAX as nat
    }

    open spec fn sum(self, rhs: Self) -> Self {
        (self + rhs) as u32
    }

    proof fn sum_adds(self, rhs: Self) {
    }

    fn zero() -> (z: Self) {
        0
    }

    fn plus(self, rhs: Self) -> (sum: Self) {
        self + rhs
    }

    fn at_most(self, rhs: Self) -> (b: bool) {
        self <= rhs
    }
}

impl Cost for u64 {
    open spec fn value(self) -> nat {
        self as nat
    }

    open spec fn limit() -> nat {
        u64::MAX as nat
    }

    open spec fn sum(self, rhs: Self) -> Self {
        (self + rhs) as u64
    }

    proof fn sum_adds(self, rhs: Self) {
    }

    fn zero() -> (z: Self) {
        0
    }

    fn plus(self, rhs: Self) -> (sum: Self) {
        self + rhs
    }

    fn at_most(self, rhs: Self) -> (b: bool) {
        self <= rhs
    }
}

} // verus!
