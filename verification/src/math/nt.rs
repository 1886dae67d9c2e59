//! Number theory utilities.

use vstd::prelude::*;

verus! {

/// A value that can be tested for being zero.
pub trait IsZero: Sized {
    /// Whether the value is logically zero.
    spec fn spec_is_zero(self) -> bool;

    /// Decides whether the value is zero.
    fn is_zero(&self) -> (b: bool)
        ensures
            b == self.spec_is_zero(),
    ;
}

impl IsZero for u64 {
    open spec fn spec_is_zero(self) -> bool {
        self == 0
    }

    fn is_zero(&self) -> (b: bool) {
        *self == 0
    }
}

impl IsZero for usize {
    open spec fn spec_is_zero(self) -> bool {
        self == 0
    }

    fn is_zero(&self) -> (b: bool) {
        *self == 0
    }
}

impl IsZero for i64 {
    open spec fn spec_is_zero(self) -> bool {
        self == 0
    }

    fn is_zero(&self) -> (b: bool) {
        *self == 0
    }
}

/// The greatest common divisor, by Euclid's recurrence.
pub open spec fn spec_gcd(a: nat, b: nat) -> nat
    decreases b,
{
    if b == 0 {
        a
    } else {
        spec_gcd(b, a % b)
    }
}

/// `spec_gcd` vanishes only on the pair of zeros.
pub proof fn lemma_gcd_zero(a: nat, b: nat)
    ensures
        (spec_gcd(a, b) == 0) == (a == 0 && b == 0),
    decreases b,
{
    if b != 0 {
        lemma_gcd_zero(b, a % b);
    }
}

/// `spec_gcd` divides both of its arguments, and every common divisor of
/// the two arguments divides it.
pub proof fn lemma_gcd_divides(a: nat, b: nat)
    ensures
        a % spec_gcd(a, b) == 0 || spec_gcd(a, b) == 0,
        b % spec_gcd(a, b) == 0 || spec_gcd(a, b) == 0,
        forall|d: nat| 1 <= d && a % d == 0 && b % d == 0 ==> #[trigger] (spec_gcd(a, b) % d) == 0,
    decreases b,
{
    if b == 0 {
        if a != 0 {
            vstd::arithmetic::div_mod::lemma_mod_self_0(a as int);
        }
        assert forall|d: nat| 1 <= d && a % d == 0 && b % d == 0 implies #[trigger] (spec_gcd(
            a,
            b,
        ) % d) == 0 by {
        }
    } else {
        lemma_gcd_divides(b, a % b);
        let g = spec_gcd(a, b);
        lemma_gcd_zero(b, a % b);
        if g != 0 {
            vstd::arithmetic::div_mod::lemma_fundamental_div_mod(a as int, b as int);
            let q = a as int / b as int;
            assert(a as int == q * (b as int) + (a % b) as int);
            lemma_mod_sum_factor(a % b, q, b as nat, g);
        }
        assert forall|d: nat| 1 <= d && a % d == 0 && b % d == 0 implies #[trigger] (spec_gcd(
            a,
            b,
        ) % d) == 0 by {
            vstd::arithmetic::div_mod::lemma_fundamental_div_mod(a as int, b as int);
            let q = a as int / b as int;
            lemma_mod_diff_factor(a, q, b as nat, d);
        }
    }
}

/// If `d` divides `x` and `d` divides `b`, then `d` divides `x + q * b`.
proof fn lemma_mod_sum_factor(x: nat, q: int, b: nat, d: nat)
    requires
        1 <= d,
        x % d == 0,
        b % d == 0,
    ensures
        (x + q * b) % (d as int) == 0,
{
    vstd::arithmetic::div_mod::lemma_fundamental_div_mod(x as int, d as int);
    vstd::arithmetic::div_mod::lemma_fundamental_div_mod(b as int, d as int);
    let xq = x as int / d as int;
    let bq = b as int / d as int;
    assert(x + q * b == (xq + q * bq) * d as int) by (nonlinear_arith)
        requires
            x as int == xq * d as int,
            b as int == bq * d as int,
    ;
    vstd::arithmetic::div_mod::lemma_mod_multiples_basic(xq + q * bq, d as int);
}

/// If `d` divides `a` and `d` divides `b`, then `d` divides `a - q * b`.
proof fn lemma_mod_diff_factor(a: nat, q: int, b: nat, d: nat)
    requires
        1 <= d,
        a % d == 0,
        b % d == 0,
    ensures
        (a - q * b) % (d as int) == 0,
{
    lemma_mod_sum_factor(a, -q, b, d);
    assert(a + (-q) * b == a - q * b) by (nonlinear_arith);
}

/// Computes the greatest common divisor of `a` and `b`.
pub fn gcd(a: u64, b: u64) -> (g: u64)
    ensures
        g == spec_gcd(a as nat, b as nat),
    decreases b,
{
    if b.is_zero() {
        a
    } else {
        gcd(b, a % b)
    }
}

/// Computes the least common multiple of `a` and `b`.
///
/// The arguments must not both be zero, and the result must fit in `u64`.
pub fn lcm(a: u64, b: u64) -> (m: u64)
    requires
        a != 0 || b != 0,
        (a as nat / spec_gcd(a as nat, b as nat)) * b as nat <= u64::MAX,
    ensures
        m == (a as nat / spec_gcd(a as nat, b as nat)) * b as nat,
{
    proof {
        lemma_gcd_zero(a as nat, b as nat);
    }
    let g: u64 = gcd(a, b);
    a / g * b
}

} // verus!
