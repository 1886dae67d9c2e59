//! A sorted vector over a totally ordered alphabet, with bound finding.

use vstd::prelude::*;

use crate::binsearch::{first_true, BinarySearchable};
use crate::order::{le_exec, OrdAlphabet};

verus! {

/// Every element is at most every later one.
pub open spec fn sorted_le<T: OrdAlphabet>(s: Seq<T>) -> bool {
    forall|i: int, j: int| 0 <= i <= j < s.len() ==> #[trigger] s[i].le(s[j])
}

/// Every element is strictly below every later one.
pub open spec fn sorted_strict<T: OrdAlphabet>(s: Seq<T>) -> bool {
    forall|i: int, j: int| 0 <= i < j < s.len() ==> #[trigger] s[i].le(s[j]) && s[i] != s[j]
}

/// Inserting a value anywhere adds it to the multiset of the sequence.
proof fn lemma_insert_to_multiset<A>(s: Seq<A>, i: int, x: A)
    requires
        0 <= i <= s.len(),
    ensures
        s.insert(i, x).to_multiset() =~= s.to_multiset().insert(x),
{
    let t = s.insert(i, x);
    t.to_multiset_ensures();
    s.to_multiset_ensures();
    assert(t.remove(i) =~= s);
    assert(t.to_multiset().remove(t[i]) =~= s.to_multiset());
    assert(t[i] == x);
    assert(t.contains(x));
    assert(t.to_multiset().count(x) > 0);
    assert forall|y: A| t.to_multiset().count(y) == #[trigger] s.to_multiset().insert(x).count(
        y,
    ) by {
        assert(s.to_multiset().count(y) == t.to_multiset().remove(x).count(y));
    }
}

/// A sorted vector over a total order `T`.
#[derive(Clone, Debug)]
pub struct SortedVec<T> {
    arr: Vec<T>,
}

impl<T> View for SortedVec<T> {
    type V = Seq<T>;

    closed spec fn view(&self) -> Seq<T> {
        self.arr@
    }
}

impl<T> SortedVec<T> where T: OrdAlphabet + Copy {
    /// The vector is in sorted order.
    pub open spec fn wf(self) -> bool {
        sorted_le(self@)
    }

    /// Conversion from an already sorted slice.
    pub fn from_sorted_slice(slice: &[T]) -> (s: Self)
        requires
            sorted_le(slice@),
        ensures
            s@ == slice@,
            s.wf(),
    {
        Self { arr: vstd::slice::slice_to_vec(slice) }
    }

    /// Conversion from an arbitrary vector, sorting its content.
    pub fn from_vec(arr: Vec<T>) -> (s: Self)
        ensures
            s.wf(),
            s@.to_multiset() == arr@.to_multiset(),
    {
        let mut out: Vec<T> = Vec::new();
        let n: usize = arr.len();
        let mut i: usize = 0;
        proof {
            arr@.take(0).to_multiset_ensures();
            assert(arr@.take(0) =~= Seq::<T>::empty());
            assert(out@.to_multiset() =~= arr@.take(0).to_multiset());
        }
        while i < n
            invariant
                i <= n,
                n == arr@.len(),
                out@.len() == i,
                sorted_le(out@),
                out@.to_multiset() == arr@.take(i as int).to_multiset(),
            decreases n - i,
        {
            let x: T = arr[i];
            let mut p: usize = 0;
            while p < out.len() && le_exec(&out[p], &x)
                invariant
                    p <= out@.len(),
                    forall|t: int| 0 <= t < p ==> #[trigger] out@[t].le(x),
                decreases out@.len() - p,
            {
                p = p + 1;
            }
            proof {
                let old_out = out@;
                if p < old_out.len() {
                    T::le_total(old_out[p as int], x);
                    if x == old_out[p as int] {
                        T::le_reflexive(x);
                    }
                }
                let u = old_out.insert(p as int, x);
                assert forall|a: int, b: int| 0 <= a <= b < u.len() implies #[trigger] u[a].le(
                    #[trigger] u[b],
                ) by {
                    if a == b {
                        T::le_reflexive(u[a]);
                    } else if b < p {
                        assert(u[a] == old_out[a] && u[b] == old_out[b]);
                    } else if a > p {
                        assert(u[a] == old_out[a - 1] && u[b] == old_out[b - 1]);
                    } else if a < p && b == p {
                        assert(u[a] == old_out[a]);
                    } else if a == p && b > p {
                        assert(u[b] == old_out[b - 1]);
                        if p < old_out.len() {
                            if b - 1 > p {
                                T::le_transitive(x, old_out[p as int], old_out[b - 1]);
                            }
                        }
                    } else {
                        assert(a < p && b > p);
                        assert(u[a] == old_out[a] && u[b] == old_out[b - 1]);
                        if b - 1 > p {
                            T::le_transitive(x, old_out[p as int], old_out[b - 1]);
                        }
                        T::le_transitive(old_out[a], x, old_out[b - 1]);
                    }
                }
                lemma_insert_to_multiset(old_out, p as int, x);
                arr@.take(i as int).to_multiset_ensures();
                assert(arr@.take(i + 1) =~= arr@.take(i as int).push(arr@[i as int]));
            }
            out.insert(p, x);
            i = i + 1;
        }
        proof {
            assert(arr@.take(n as int) =~= arr@);
        }
        Self { arr: out }
    }

    /// Number of stored elements.
    pub fn len(&self) -> (n: usize)
        ensures
            n == self@.len(),
    {
        self.arr.len()
    }

    /// The element at a position.
    pub fn get(&self, i: usize) -> (x: T)
        requires
            i < self@.len(),
        ensures
            x == self@[i as int],
    {
        self.arr[i]
    }

    /// Reduces each run of equal values to a single occurrence.
    ///
    /// Afterwards the vector is strictly sorted and holds exactly the
    /// values it held before.
    pub fn make_unique(&mut self)
        requires
            old(self).wf(),
        ensures
            final(self).wf(),
            sorted_strict(final(self)@),
            final(self)@.to_set() == old(self)@.to_set(),
    {
        let ghost orig = self.arr@;
        let n: usize = self.arr.len();
        let mut i: usize = 0;
        let mut j: usize = 0;
        while j < n
            invariant
                i <= j <= n,
                n == self.arr@.len(),
                orig.len() == n,
                sorted_le(orig),
                forall|t: int| j <= t < n ==> self.arr@[t] == orig[t],
                sorted_strict(self.arr@.take(i as int)),
                forall|t: int| 0 <= t < i ==> orig.to_set().contains(#[trigger] self.arr@[t]),
                forall|t: int|
                    0 <= t < j ==> self.arr@.take(i as int).to_set().contains(#[trigger] orig[t])
                        || (j < n && orig[t] == orig[j as int]),
                i > 0 && j < n ==> self.arr@[i - 1].le(orig[j as int]) && self.arr@[i - 1]
                    != orig[j as int],
            decreases n - j,
        {
            let keep: bool = if j + 1 == n {
                true
            } else {
                !self.arr[j].eq_elem(&self.arr[j + 1])
            };
            proof {
                if j + 1 < n && orig[j as int] == orig[j + 1] {
                    assert forall|t: int|
                        0 <= t < j + 1 implies self.arr@.take(i as int).to_set().contains(
                        #[trigger] orig[t],
                    ) || (j + 1 < n && orig[t] == orig[j + 1]) by {}
                }
            }
            if keep {
                let ghost before = self.arr@;
                let x: T = self.arr[j];
                self.arr[i] = x;
                proof {
                    let now = self.arr@;
                    let prev = before.take(i as int);
                    let cur = now.take(i + 1);
                    assert(now == before.update(i as int, x));
                    assert(cur =~= prev.push(x));
                    assert(x == orig[j as int]);
                    assert forall|a: int, b: int| 0 <= a < b < i + 1 implies #[trigger] cur[a].le(
                        #[trigger] cur[b],
                    ) && cur[a] != cur[b] by {
                        if b < i {
                            assert(cur[a] == prev[a]);
                            assert(cur[b] == prev[b]);
                        } else {
                            assert(cur[b] == x);
                            assert(cur[a] == prev[a]);
                            assert(prev[i - 1] == before[i - 1]);
                            assert(before[i - 1].le(x) && before[i - 1] != x);
                            if a < i - 1 {
                                assert(prev[a].le(prev[i - 1]) && prev[a] != prev[i - 1]);
                                T::le_transitive(prev[a], before[i - 1], x);
                                if prev[a] == x {
                                    T::le_antisymmetric(before[i - 1], x);
                                }
                            } else {
                                assert(prev[a] == before[i - 1]);
                            }
                        }
                    }
                    assert(now.take(i as int) =~= prev);
                    assert forall|y: T| prev.to_set().contains(y) implies cur.to_set().contains(
                        y,
                    ) by {
                        let t = choose|t: int| 0 <= t < prev.len() && prev[t] == y;
                        assert(cur[t] == y);
                    }
                    assert forall|t: int|
                        0 <= t < j + 1 implies cur.to_set().contains(#[trigger] orig[t]) || (j + 1
                        < n && orig[t] == orig[j + 1]) by {
                        assert(cur[i as int] == orig[j as int]);
                        if t < j {
                            if !(j + 1 < n && orig[t] == orig[j + 1]) {
                                if !prev.to_set().contains(orig[t]) {
                                    assert(orig[t] == orig[j as int]);
                                    assert(cur.contains(orig[t]));
                                }
                            }
                        } else {
                            assert(cur.contains(orig[t]));
                        }
                    }
                    if j + 1 < n {
                        assert(x.le(orig[j + 1]) && x != orig[j + 1]) by {
                            assert(orig[j as int].le(orig[j + 1]));
                            if orig[j as int] == orig[j + 1] {
                                assert(false);
                            }
                        }
                    }
                }
                i = i + 1;
            }
            j = j + 1;
        }
        self.arr.truncate(i);
        proof {
            let fin = self.arr@;
            assert(fin.to_set() =~= orig.to_set()) by {
                assert forall|y: T| orig.to_set().contains(y) implies fin.to_set().contains(y) by {
                    let t = choose|t: int| 0 <= t < orig.len() && orig[t] == y;
                    assert(fin.to_set().contains(orig[t]));
                }
                assert forall|y: T| fin.to_set().contains(y) implies orig.to_set().contains(y) by {
                    let t = choose|t: int| 0 <= t < fin.len() && fin[t] == y;
                }
            }
            assert forall|a: int, b: int| 0 <= a <= b < fin.len() implies #[trigger] fin[a].le(
                #[trigger] fin[b],
            ) by {
                if a == b {
                    T::le_reflexive(fin[a]);
                }
            }
        }
    }

    /// Index of the first element that is not below `v`, or the length if
    /// none exists.
    pub fn lower_bound(&self, v: &T) -> (idx: usize)
        requires
            self.wf(),
            self@.len() <= usize::MAX / 2,
        ensures
            idx <= self@.len(),
            forall|t: int| 0 <= t < idx ==> !v.le(#[trigger] self@[t]),
            idx < self@.len() ==> v.le(self@[idx as int]),
    {
        let n: usize = self.arr.len();
        if n == 0 {
            return 0;
        }
        let key: T = *v;
        let pred = |idx: usize| -> (b: bool)
            requires
                idx < self@.len(),
            ensures
                b == key.le(self@[idx as int]),
            { le_exec(&key, &self.arr[idx]) };
        proof {
            assert forall|x: usize, y: usize|
                0 <= x.key() <= y.key() < n as int && #[trigger] call_ensures(pred, (x,), true)
                    implies !#[trigger] call_ensures(pred, (y,), false) by {
                if call_ensures(pred, (y,), false) {
                    T::le_transitive(key, self@[x as int], self@[y as int]);
                }
            }
        }
        let r: usize = first_true(0, n, pred);
        proof {
            if r > 0 {
                let w = choose|w: usize|
                    0 <= w.key() < r.key() && r.key() <= w.key() + 1 && #[trigger] call_ensures(
                        pred,
                        (w,),
                        false,
                    );
                assert(!key.le(self@[w as int]));
                assert forall|t: int| 0 <= t < r implies !v.le(#[trigger] self@[t]) by {
                    assert(self@[t].le(self@[w as int]));
                    if key.le(self@[t]) {
                        T::le_transitive(key, self@[t], self@[w as int]);
                    }
                }
            }
        }
        r
    }

    /// Index of the first element that is above `v`, or the length if none
    /// exists.
    pub fn upper_bound(&self, v: &T) -> (idx: usize)
        requires
            self.wf(),
            self@.len() <= usize::MAX / 2,
        ensures
            idx <= self@.len(),
            forall|t: int| 0 <= t < idx ==> #[trigger] self@[t].le(*v),
            idx < self@.len() ==> !self@[idx as int].le(*v),
    {
        let n: usize = self.arr.len();
        if n == 0 {
            return 0;
        }
        let key: T = *v;
        let pred = |idx: usize| -> (b: bool)
            requires
                idx < self@.len(),
            ensures
                b == !self@[idx as int].le(key),
            { !le_exec(&self.arr[idx], &key) };
        proof {
            assert forall|x: usize, y: usize|
                0 <= x.key() <= y.key() < n as int && #[trigger] call_ensures(pred, (x,), true)
                    implies !#[trigger] call_ensures(pred, (y,), false) by {
                if call_ensures(pred, (y,), false) {
                    T::le_transitive(self@[x as int], self@[y as int], key);
                }
            }
        }
        let r: usize = first_true(0, n, pred);
        proof {
            if r > 0 {
                let w = choose|w: usize|
                    0 <= w.key() < r.key() && r.key() <= w.key() + 1 && #[trigger] call_ensures(
                        pred,
                        (w,),
                        false,
                    );
                assert(self@[w as int].le(key));
                assert forall|t: int| 0 <= t < r implies #[trigger] self@[t].le(key) by {
                    assert(self@[t].le(self@[w as int]));
                    T::le_transitive(self@[t], self@[w as int], key);
                }
            }
        }
        r
    }
}

} // verus!
