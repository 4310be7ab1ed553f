//! What a path costs.

use vstd::prelude::*;

verus! {

/// Path costs: an order, and an addition that respects it.
///
/// The addition need not be associative, so that rounding types qualify: the
/// cost of a path adds the weights of its edges from the first to the last. A
/// type whose addition is associative says so with [`Cost::exact`].
pub trait Cost: Copy {
    /// The order of costs.
    spec fn le(self, other: Self) -> bool;

    /// A cost extended by the weight of one more edge.
    spec fn plus(self, weight: Self) -> Self;

    /// A cost that stands for a real path, not for an overflow.
    spec fn bounded(self) -> bool;

    /// Costs that are the same up to rounding.
    spec fn near(self, other: Self) -> bool;

    /// The cost of staying.
    spec fn zero() -> Self;

    /// The weight of an edge that has none.
    spec fn unit() -> Self;

    /// Whether the addition is associative and costs are ordered strictly.
    spec fn exact() -> bool;

    /// [`Cost::zero`].
    fn zero_cost() -> (z: Self)
        ensures
            z == Self::zero(),
    ;

    /// [`Cost::unit`].
    fn unit_cost() -> (u: Self)
        ensures
            u == Self::unit(),
    ;

    /// Whether a cost is less than another.
    fn less(&self, other: &Self) -> (b: bool)
        ensures
            b == !other.le(*self),
    ;

    /// [`Cost::plus`].
    fn added(&self, weight: &Self) -> (sum: Self)
        ensures
            sum == self.plus(*weight),
    ;

    /// [`Cost::bounded`].
    fn is_bounded(&self) -> (b: bool)
        ensures
            b == self.bounded(),
    ;

    /// [`Cost::near`].
    fn is_near(&self, other: &Self) -> (b: bool)
        ensures
            b == self.near(*other),
    ;

    /// Any two costs can be compared, and comparing is transitive.
    proof fn law_order(a: Self, b: Self, c: Self)
        ensures
            a.le(b) || b.le(a),
            a.le(b) && b.le(c) ==> a.le(c),
    ;

    /// The addition respects the order on both sides, and one more edge makes no
    /// path cheaper unless its weight is negative.
    proof fn law_plus(a: Self, b: Self, weight: Self)
        ensures
            a.le(b) ==> a.plus(weight).le(b.plus(weight)),
            a.le(b) ==> weight.plus(a).le(weight.plus(b)),
            Self::zero().le(weight) ==> a.le(a.plus(weight)),
    ;

    /// What is cheaper than a bounded cost is bounded, and so is every part of
    /// one; a bounded cost is near itself.
    proof fn law_bounded(a: Self, b: Self)
        ensures
            Self::zero().bounded(),
            a.le(b) && b.bounded() ==> a.bounded(),
            a.plus(b).bounded() ==> a.bounded(),
            a.bounded() ==> a.near(a),
    ;

    /// What an exact type promises.
    proof fn law_exact(a: Self, b: Self, c: Self)
        requires
            Self::exact(),
        ensures
            a.plus(b).plus(c) == a.plus(b.plus(c)),
            Self::zero().plus(a) == a,
            a.plus(Self::zero()) == a,
            a.le(b) && b.le(a) ==> a == b,
            a.near(b) ==> a == b,
            a.plus(b).bounded() ==> b.bounded(),
    ;
}

/// Whole costs, which stop at the largest number.
impl Cost for u64 {
    open spec fn le(self, other: Self) -> bool {
        self <= other
    }

    open spec fn plus(self, weight: Self) -> Self {
        if self + weight > u64::MAX {
            u64::MAX
        } else {
            (self + weight) as u64
        }
    }

    open spec fn bounded(self) -> bool {
        true
    }

    open spec fn near(self, other: Self) -> bool {
        self == other
    }

    open spec fn zero() -> Self {
        0
    }

    open spec fn unit() -> Self {
        1
    }

    open spec fn exact() -> bool {
        true
    }

    fn zero_cost() -> (z: Self) {
        0
    }

    fn unit_cost() -> (u: Self) {
        1
    }

    fn less(&self, other: &Self) -> (b: bool) {
        *self < *other
    }

    fn added(&self, weight: &Self) -> (sum: Self) {
        self.saturating_add(*weight)
    }

    fn is_bounded(&self) -> (b: bool) {
        true
    }

    fn is_near(&self, other: &Self) -> (b: bool) {
        *self == *other
    }

    proof fn law_order(a: Self, b: Self, c: Self) {
    }

    proof fn law_plus(a: Self, b: Self, weight: Self) {
    }

    proof fn law_bounded(a: Self, b: Self) {
    }

    proof fn law_exact(a: Self, b: Self, c: Self) {
    }
}

} // verus!
