//! Generic monotone binary search over a closeness-terminated domain.

use vstd::prelude::*;

verus! {

/// Denotes types over which a binary search can be performed.
///
/// Values embed into the integers through `key`; `fits` bounds the values
/// on which the arithmetic of an implementation cannot overflow.
pub trait BinarySearchable: Sized + Copy {
    /// Order embedding into the integers.
    spec fn key(self) -> int;

    /// Values on which `midpoint` and `close_enough` may be called.
    spec fn fits(self) -> bool;

    /// Returns a value strictly between two values that are not yet close.
    fn midpoint(&self, other: &Self) -> (m: Self)
        requires
            self.fits(),
            other.fits(),
            self.key() + 1 < other.key(),
        ensures
            m.fits(),
            self.key() < m.key() < other.key(),
    ;

    /// Returns whether two ordered values are close enough to end the
    /// binary search: for integral types, whether they differ by at most one.
    fn close_enough(&self, other: &Self) -> (b: bool)
        requires
            self.fits(),
            other.fits(),
            self.key() <= other.key(),
        ensures
            b == (other.key() - self.key() <= 1),
    ;
}

impl BinarySearchable for usize {
    open spec fn key(self) -> int {
        self as int
    }

    open spec fn fits(self) -> bool {
        self <= usize::MAX / 2
    }

    fn midpoint(&self, other: &Self) -> (m: Self) {
        (other + self) / 2
    }

    fn close_enough(&self, other: &Self) -> (b: bool) {
        other - self <= 1
    }
}

impl BinarySearchable for u64 {
    open spec fn key(self) -> int {
        self as int
    }

    open spec fn fits(self) -> bool {
        self <= u64::MAX / 2
    }

    fn midpoint(&self, other: &Self) -> (m: Self) {
        (other + self) / 2
    }

    fn close_enough(&self, other: &Self) -> (b: bool) {
        other - self <= 1
    }
}

impl BinarySearchable for i64 {
    open spec fn key(self) -> int {
        self as int
    }

    open spec fn fits(self) -> bool {
        i64::MIN / 2 <= self <= i64::MAX / 2
    }

    fn midpoint(&self, other: &Self) -> (m: Self) {
        let s: i64 = other + self;
        let m: i64 = s / 2;
        proof {
            assert(2 * (self.key() + 1) <= s <= 2 * (other.key() - 1)) by (nonlinear_arith)
                requires
                    s == self.key() + other.key(),
                    self.key() + 1 < other.key(),
            ;
            assert(self.key() < s / 2 < other.key()) by (nonlinear_arith)
                requires
                    2 * (self.key() + 1) <= s <= 2 * (other.key() - 1),
            ;
        }
        m
    }

    fn close_enough(&self, other: &Self) -> (b: bool) {
        other - self <= 1
    }
}

/// Returns the first value in `[l, r)` for which `predicate` returns
/// `true`, or `r` if none exists.
///
/// The predicate must be monotone: once it returns `true` at some value it
/// may never return `false` at any value at least as large.
pub fn first_true<F, N>(l: N, r: N, predicate: F) -> (res: N) where
    N: BinarySearchable,
    F: Fn(N) -> bool,

    requires
        l.fits(),
        r.fits(),
        l.key() <= r.key(),
        call_requires(predicate, (l,)),
        forall|x: N| x.fits() && l.key() <= x.key() < r.key() ==> call_requires(predicate, (x,)),
        forall|x: N, y: N|
            l.key() <= x.key() <= y.key() < r.key() && #[trigger] call_ensures(
                predicate,
                (x,),
                true,
            ) ==> !#[trigger] call_ensures(predicate, (y,), false),
    ensures
        l.key() <= res.key() <= r.key(),
        res.fits(),
        forall|x: N| l.key() <= x.key() < res.key() ==> !call_ensures(predicate, (x,), true),
        res.key() < r.key() ==> call_ensures(predicate, (res,), true),
        l.key() < res.key() ==> exists|w: N|
            l.key() <= w.key() < res.key() && res.key() <= w.key() + 1 && #[trigger] call_ensures(
                predicate,
                (w,),
                false,
            ),
{
    if predicate(l) {
        return l;
    }

    let mut lo: N = l;
    let mut hi: N = r;
    while !lo.close_enough(&hi)
        invariant
            lo.fits(),
            hi.fits(),
            l.key() <= lo.key() <= hi.key() <= r.key(),
            call_ensures(predicate, (lo,), false),
            hi.key() < r.key() ==> call_ensures(predicate, (hi,), true),
            forall|x: N|
                x.fits() && l.key() <= x.key() < r.key() ==> call_requires(predicate, (x,)),
            forall|x: N, y: N|
                l.key() <= x.key() <= y.key() < r.key() && #[trigger] call_ensures(
                    predicate,
                    (x,),
                    true,
                ) ==> !#[trigger] call_ensures(predicate, (y,), false),
            lo.key() < hi.key() || l.key() == r.key(),
        decreases hi.key() - lo.key(),
    {
        let m: N = lo.midpoint(&hi);
        if predicate(m) {
            hi = m;
        } else {
            lo = m;
        }
    }

    hi
}

/// Returns the first value in `[l, r)` for which `predicate` returns
/// `Some`, together with the witness it returned, or `r` and `None` if
/// none exists.
///
/// The predicate must be monotone: once it returns `Some` at some value it
/// may never return `None` at any value at least as large.
pub fn first_some<F, N, T>(l: N, r: N, predicate: F) -> (res: (N, Option<T>)) where
    N: BinarySearchable,
    F: Fn(N) -> Option<T>,

    requires
        l.fits(),
        r.fits(),
        l.key() <= r.key(),
        call_requires(predicate, (l,)),
        forall|x: N| x.fits() && l.key() <= x.key() < r.key() ==> call_requires(predicate, (x,)),
        forall|x: N, y: N, v: T|
            l.key() <= x.key() <= y.key() < r.key() && #[trigger] call_ensures(
                predicate,
                (x,),
                Some(v),
            ) ==> !#[trigger] call_ensures(predicate, (y,), None::<T>),
    ensures
        l.key() <= res.0.key() <= r.key(),
        res.0.fits(),
        forall|x: N, v: T|
            l.key() <= x.key() < res.0.key() ==> !call_ensures(predicate, (x,), Some(v)),
        res.1.is_some() ==> call_ensures(predicate, (res.0,), res.1),
        res.1.is_none() ==> res.0 == r,
        res.0.key() < r.key() ==> res.1.is_some(),
        l.key() < res.0.key() ==> exists|w: N|
            l.key() <= w.key() < res.0.key() && res.0.key() <= w.key() + 1
                && #[trigger] call_ensures(predicate, (w,), None::<T>),
{
    if let Some(x) = predicate(l) {
        return (l, Some(x));
    }

    let mut lo: N = l;
    let mut hi: N = r;
    let mut ans: Option<T> = None;
    while !lo.close_enough(&hi)
        invariant
            lo.fits(),
            hi.fits(),
            l.key() <= lo.key() <= hi.key() <= r.key(),
            call_ensures(predicate, (lo,), None::<T>),
            ans.is_some() ==> call_ensures(predicate, (hi,), ans),
            ans.is_none() ==> hi == r,
            hi.key() < r.key() ==> ans.is_some(),
            forall|x: N|
                x.fits() && l.key() <= x.key() < r.key() ==> call_requires(predicate, (x,)),
            forall|x: N, y: N, v: T|
                l.key() <= x.key() <= y.key() < r.key() && #[trigger] call_ensures(
                    predicate,
                    (x,),
                    Some(v),
                ) ==> !#[trigger] call_ensures(predicate, (y,), None::<T>),
            lo.key() < hi.key() || l.key() == r.key(),
        decreases hi.key() - lo.key(),
    {
        let m: N = lo.midpoint(&hi);
        if let Some(v) = predicate(m) {
            hi = m;
            ans = Some(v);
        } else {
            lo = m;
        }
    }

    (hi, ans)
}

/// Returns the first value in `[l, r)` for which `predicate` returns
/// `None`, or `r` if none exists, together with the last witness that the
/// predicate produced below that value, or `None` if it produced none.
///
/// The predicate must be monotone: once it returns `None` at some value it
/// may never return `Some` at any value at least as large.
pub fn first_none<F, N, T>(l: N, r: N, predicate: F) -> (res: (N, Option<T>)) where
    N: BinarySearchable,
    F: Fn(N) -> Option<T>,

    requires
        l.fits(),
        r.fits(),
        l.key() <= r.key(),
        call_requires(predicate, (l,)),
        forall|x: N| x.fits() && l.key() <= x.key() < r.key() ==> call_requires(predicate, (x,)),
        forall|x: N, y: N, v: T|
            l.key() <= x.key() <= y.key() < r.key() && #[trigger] call_ensures(
                predicate,
                (y,),
                Some(v),
            ) ==> !#[trigger] call_ensures(predicate, (x,), None::<T>),
    ensures
        l.key() <= res.0.key() <= r.key(),
        res.0.fits(),
        forall|x: N| l.key() <= x.key() < res.0.key() ==> !call_ensures(predicate, (x,), None::<T>),
        res.0.key() < r.key() ==> call_ensures(predicate, (res.0,), None::<T>),
        res.1.is_some() ==> exists|x: N|
            l.key() <= x.key() <= res.0.key() && #[trigger] call_ensures(predicate, (x,), res.1),
        res.1.is_none() ==> res.0 == l,
        l.key() < res.0.key() ==> res.1.is_some() && exists|w: N|
            l.key() <= w.key() < res.0.key() && res.0.key() <= w.key() + 1
                && #[trigger] call_ensures(predicate, (w,), res.1),
{
    let first: Option<T> = predicate(l);
    if first.is_none() {
        return (l, None);
    }

    let mut lo: N = l;
    let mut hi: N = r;
    let mut ans: Option<T> = first;
    while !lo.close_enough(&hi)
        invariant
            lo.fits(),
            hi.fits(),
            l.key() <= lo.key() <= hi.key() <= r.key(),
            ans.is_some() && call_ensures(predicate, (lo,), ans),
            hi.key() < r.key() ==> call_ensures(predicate, (hi,), None::<T>),
            forall|x: N|
                x.fits() && l.key() <= x.key() < r.key() ==> call_requires(predicate, (x,)),
            forall|x: N, y: N, v: T|
                l.key() <= x.key() <= y.key() < r.key() && #[trigger] call_ensures(
                    predicate,
                    (y,),
                    Some(v),
                ) ==> !#[trigger] call_ensures(predicate, (x,), None::<T>),
            lo.key() < hi.key() || l.key() == r.key(),
        decreases hi.key() - lo.key(),
    {
        let m: N = lo.midpoint(&hi);
        let probe: Option<T> = predicate(m);
        if probe.is_some() {
            lo = m;
            ans = probe;
        } else {
            hi = m;
        }
    }

    proof {
        let v = ans.unwrap();
        assert(call_ensures(predicate, (lo,), Some(v)));
    }
    (hi, ans)
}

} // verus!
