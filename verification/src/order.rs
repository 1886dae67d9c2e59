//! Alphabet capabilities: decidable equality and decidable total order.
//!
//! The string algorithms are generic over their element type. Equality and
//! ordering of elements must be visible to the verifier, so the element
//! type provides them through these traits rather than through `Eq`/`Ord`.

use vstd::prelude::*;

verus! {

/// An alphabet whose elements can be tested for equality.
///
/// The executable test must agree with logical equality.
pub trait EqAlphabet: Sized {
    /// Decides whether two elements are equal.
    fn eq_elem(&self, other: &Self) -> (b: bool)
        ensures
            b == (self == other),
    ;
}

/// An alphabet carrying a decidable total order.
///
/// `le` is the logical order; the laws make it a total order that
/// respects logical equality, and `cmp_elem` decides it.
pub trait OrdAlphabet: EqAlphabet {
    /// The logical "less than or equal" relation on elements.
    spec fn le(self, other: Self) -> bool;

    /// `le` is reflexive.
    proof fn le_reflexive(x: Self)
        ensures
            x.le(x),
    ;

    /// `le` is transitive.
    proof fn le_transitive(x: Self, y: Self, z: Self)
        requires
            x.le(y),
            y.le(z),
        ensures
            x.le(z),
    ;

    /// `le` is antisymmetric.
    proof fn le_antisymmetric(x: Self, y: Self)
        requires
            x.le(y),
            y.le(x),
        ensures
            x == y,
    ;

    /// `le` is total.
    proof fn le_total(x: Self, y: Self)
        ensures
            x.le(y) || y.le(x),
    ;

    /// Three-way comparison deciding `le`.
    fn cmp_elem(&self, other: &Self) -> (o: core::cmp::Ordering)
        ensures
            o == core::cmp::Ordering::Less ==> self.le(*other) && self != other,
            o == core::cmp::Ordering::Equal ==> self == other,
            o == core::cmp::Ordering::Greater ==> other.le(*self) && self != other,
    ;
}

/// Decides the `le` relation of an ordered alphabet.
pub fn le_exec<T: OrdAlphabet>(a: &T, b: &T) -> (r: bool)
    ensures
        r == a.le(*b),
{
    match a.cmp_elem(b) {
        core::cmp::Ordering::Less => true,
        core::cmp::Ordering::Equal => {
            proof {
                T::le_reflexive(*a);
            }
            true
        },
        core::cmp::Ordering::Greater => {
            proof {
                if a.le(*b) {
                    T::le_antisymmetric(*a, *b);
                }
            }
            false
        },
    }
}

impl EqAlphabet for u8 {
    fn eq_elem(&self, other: &Self) -> (b: bool)
        ensures
            b == (self == other),
    {
        *self == *other
    }
}

impl OrdAlphabet for u8 {
    open spec fn le(self, other: Self) -> bool {
        self <= other
    }

    proof fn le_reflexive(x: Self) {
    }

    proof fn le_transitive(x: Self, y: Self, z: Self) {
    }

    proof fn le_antisymmetric(x: Self, y: Self) {
    }

    proof fn le_total(x: Self, y: Self) {
    }

    fn cmp_elem(&self, other: &Self) -> (o: core::cmp::Ordering) {
        if *self < *other {
            core::cmp::Ordering::Less
        } else if *self == *other {
            core::cmp::Ordering::Equal
        } else {
            core::cmp::Ordering::Greater
        }
    }
}

impl EqAlphabet for usize {
    fn eq_elem(&self, other: &Self) -> (b: bool)
        ensures
            b == (self == other),
    {
        *self == *other
    }
}

impl OrdAlphabet for usize {
    open spec fn le(self, other: Self) -> bool {
        self <= other
    }

    proof fn le_reflexive(x: Self) {
    }

    proof fn le_transitive(x: Self, y: Self, z: Self) {
    }

    proof fn le_antisymmetric(x: Self, y: Self) {
    }

    proof fn le_total(x: Self, y: Self) {
    }

    fn cmp_elem(&self, other: &Self) -> (o: core::cmp::Ordering) {
        if *self < *other {
            core::cmp::Ordering::Less
        } else if *self == *other {
            core::cmp::Ordering::Equal
        } else {
            core::cmp::Ordering::Greater
        }
    }
}

/// A padded alphabet: `None` is a synthetic minimum below every real element.
///
/// Appending a single `None` to a sequence of `Some` elements turns the
/// order of cyclic rotations into the order of genuine suffixes.
impl<'a, T: EqAlphabet> EqAlphabet for Option<&'a T> {
    fn eq_elem(&self, other: &Self) -> (b: bool)
        ensures
            b == (self == other),
    {
        match (self, other) {
            (None, None) => true,
            (Some(x), Some(y)) => x.eq_elem(y),
            _ => false,
        }
    }
}

impl<'a, T: OrdAlphabet> OrdAlphabet for Option<&'a T> {
    open spec fn le(self, other: Self) -> bool {
        match (self, other) {
            (None, _) => true,
            (Some(_), None) => false,
            (Some(x), Some(y)) => x.le(*y),
        }
    }

    proof fn le_reflexive(x: Self) {
        match x {
            None => {
            },
            Some(v) => {
                T::le_reflexive(*v);
            },
        }
    }

    proof fn le_transitive(x: Self, y: Self, z: Self) {
        match (x, y, z) {
            (Some(a), Some(b), Some(c)) => {
                T::le_transitive(*a, *b, *c);
            },
            _ => {
            },
        }
    }

    proof fn le_antisymmetric(x: Self, y: Self) {
        match (x, y) {
            (Some(a), Some(b)) => {
                T::le_antisymmetric(*a, *b);
            },
            _ => {
            },
        }
    }

    proof fn le_total(x: Self, y: Self) {
        match (x, y) {
            (Some(a), Some(b)) => {
                T::le_total(*a, *b);
            },
            _ => {
            },
        }
    }

    fn cmp_elem(&self, other: &Self) -> (o: core::cmp::Ordering) {
        match (self, other) {
            (None, None) => core::cmp::Ordering::Equal,
            (None, Some(_)) => core::cmp::Ordering::Less,
            (Some(_), None) => core::cmp::Ordering::Greater,
            (Some(x), Some(y)) => x.cmp_elem(y),
        }
    }
}

} // verus!
