//! Algebraic capabilities: magmas, semigroups, monoids and groups.
//!
//! Machine integers carry their wrapping addition, which is total and
//! associative.

use vstd::prelude::*;

verus! {

/// A magma: a set with a binary operation.
pub trait Magma: Sized {
    /// The logical binary operation.
    spec fn spec_op(self, other: Self) -> Self;

    /// Combines two values.
    fn op(self, other: Self) -> (r: Self)
        ensures
            r == self.spec_op(other),
    ;
}

/// A semigroup: a magma whose operation is associative.
pub trait Semigroup: Magma {
    /// The operation is associative.
    proof fn op_associative(x: Self, y: Self, z: Self)
        ensures
            x.spec_op(y).spec_op(z) == x.spec_op(y.spec_op(z)),
    ;
}

/// A monoid: a semigroup with a neutral element.
pub trait Monoid: Semigroup {
    /// The logical neutral element.
    spec fn spec_id() -> Self;

    /// Returns the neutral element.
    fn id() -> (r: Self)
        ensures
            r == Self::spec_id(),
    ;

    /// The neutral element is neutral on both sides.
    proof fn id_neutral(x: Self)
        ensures
            Self::spec_id().spec_op(x) == x,
            x.spec_op(Self::spec_id()) == x,
    ;
}

/// A group: a monoid in which every element has an inverse.
pub trait Group: Monoid {
    /// The logical inverse.
    spec fn spec_inv(self) -> Self;

    /// Returns the inverse element.
    fn inv(self) -> (r: Self)
        ensures
            r == self.spec_inv(),
    ;

    /// The inverse cancels the element.
    proof fn inv_cancels(x: Self)
        ensures
            x.spec_op(x.spec_inv()) == Self::spec_id(),
    ;
}

/// An abelian group: a group whose operation is commutative.
pub trait Abelian: Group {
    /// The operation is commutative.
    proof fn op_commutative(x: Self, y: Self)
        ensures
            x.spec_op(y) == y.spec_op(x),
    ;
}

/// Lifting a semigroup to a monoid: `None` is the neutral element, and
/// two present values combine by the inner operation.
impl<T: Magma> Magma for Option<T> {
    open spec fn spec_op(self, other: Self) -> Self {
        match (self, other) {
            (None, r) => r,
            (l, None) => l,
            (Some(l), Some(r)) => Some(l.spec_op(r)),
        }
    }

    fn op(self, other: Self) -> (r: Self) {
        match (self, other) {
            (None, r) => r,
            (l, None) => l,
            (Some(l), Some(r)) => Some(l.op(r)),
        }
    }
}

impl<T: Semigroup> Semigroup for Option<T> {
    proof fn op_associative(x: Self, y: Self, z: Self) {
        match (x, y, z) {
            (Some(a), Some(b), Some(c)) => {
                T::op_associative(a, b, c);
            },
            _ => {
            },
        }
    }
}

impl<T: Semigroup> Monoid for Option<T> {
    open spec fn spec_id() -> Self {
        None
    }

    fn id() -> (r: Self) {
        None
    }

    proof fn id_neutral(x: Self) {
    }
}

impl Magma for i64 {
    open spec fn spec_op(self, other: Self) -> Self {
        vstd::wrapping::i64_specs::wrapping_add(self, other)
    }

    fn op(self, other: Self) -> (r: Self) {
        self.wrapping_add(other)
    }
}

impl Semigroup for i64 {
    proof fn op_associative(x: Self, y: Self, z: Self) {
    }
}

impl Monoid for i64 {
    open spec fn spec_id() -> Self {
        0
    }

    fn id() -> (r: Self) {
        0
    }

    proof fn id_neutral(x: Self) {
    }
}

impl Group for i64 {
    open spec fn spec_inv(self) -> Self {
        vstd::wrapping::i64_specs::wrapping_sub(0, self)
    }

    fn inv(self) -> (r: Self) {
        (0 as i64).wrapping_sub(self)
    }

    proof fn inv_cancels(x: Self) {
    }
}

impl Abelian for i64 {
    proof fn op_commutative(x: Self, y: Self) {
    }
}

impl Magma for u64 {
    open spec fn spec_op(self, other: Self) -> Self {
        vstd::wrapping::u64_specs::wrapping_add(self, other)
    }

    fn op(self, other: Self) -> (r: Self) {
        self.wrapping_add(other)
    }
}

impl Semigroup for u64 {
    proof fn op_associative(x: Self, y: Self, z: Self) {
    }
}

impl Monoid for u64 {
    open spec fn spec_id() -> Self {
        0
    }

    fn id() -> (r: Self) {
        0
    }

    proof fn id_neutral(x: Self) {
    }
}

} // verus!
