//! Basic segment tree over a monoid: point updates and range folds.

use vstd::prelude::*;

use crate::math::algebra::Monoid;

verus! {

/// Fold of a sequence of monoid values, combined left to right.
pub open spec fn fold_op<T: Monoid>(s: Seq<T>) -> T
    decreases s.len(),
{
    if s.len() == 0 {
        T::spec_id()
    } else {
        s[0].spec_op(fold_op(s.drop_first()))
    }
}

/// Folding one more value on the right appends one operation.
proof fn lemma_fold_push<T: Monoid>(s: Seq<T>, x: T)
    ensures
        fold_op(s.push(x)) == fold_op(s).spec_op(x),
    decreases s.len(),
{
    if s.len() == 0 {
        assert(s.push(x).drop_first() =~= Seq::<T>::empty());
        assert(s.push(x)[0] == x);
        assert(fold_op(Seq::<T>::empty()) == T::spec_id());
        T::id_neutral(x);
    } else {
        assert(s.push(x).drop_first() =~= s.drop_first().push(x));
        assert(s.push(x)[0] == s[0]);
        lemma_fold_push(s.drop_first(), x);
        T::op_associative(s[0], fold_op(s.drop_first()), x);
    }
}

/// A consistent block of parents folds like the block of its children.
proof fn lemma_fold_pairs<T: Monoid>(arr: Seq<T>, a: int, b: int)
    requires
        0 <= 2 * a,
        a <= b,
        2 * b <= arr.len(),
        forall|i: int| a <= i < b ==> #[trigger] arr[i] == arr[2 * i].spec_op(arr[2 * i + 1]),
    ensures
        fold_op(arr.subrange(2 * a, 2 * b)) == fold_op(arr.subrange(a, b)),
    decreases b - a,
{
    if a == b {
        assert(arr.subrange(2 * a, 2 * b) =~= Seq::<T>::empty());
        assert(arr.subrange(a, b) =~= Seq::<T>::empty());
        assert(fold_op(Seq::<T>::empty()) == T::spec_id());
    } else {
        let kids = arr.subrange(2 * a, 2 * b);
        assert(kids.drop_first() =~= arr.subrange(2 * a + 1, 2 * b));
        assert(arr.subrange(2 * a + 1, 2 * b).drop_first() =~= arr.subrange(2 * (a + 1), 2 * b));
        assert(kids[0] == arr[2 * a]);
        assert(arr.subrange(2 * a + 1, 2 * b)[0] == arr[2 * a + 1]);
        lemma_fold_pairs(arr, a + 1, b);
        assert(fold_op(kids) == arr[2 * a].spec_op(fold_op(arr.subrange(2 * a + 1, 2 * b))));
        assert(fold_op(arr.subrange(2 * a + 1, 2 * b)) == arr[2 * a + 1].spec_op(
            fold_op(arr.subrange(2 * (a + 1), 2 * b)),
        ));
        T::op_associative(arr[2 * a], arr[2 * a + 1], fold_op(arr.subrange(2 * (a + 1), 2 * b)));
        assert(arr.subrange(a, b).drop_first() =~= arr.subrange(a + 1, b));
        assert(arr.subrange(a, b)[0] == arr[a]);
        assert(arr[a] == arr[2 * a].spec_op(arr[2 * a + 1]));
        assert(fold_op(arr.subrange(a, b)) == arr[a].spec_op(fold_op(arr.subrange(a + 1, b))));
    }
}

/// Whether `i` lies on the path from node `p` to the root, inclusive.
spec fn on_path(i: int, p: int) -> bool
    decreases p,
{
    if p < 1 {
        false
    } else {
        i == p || on_path(i, p / 2)
    }
}

/// Basic segment tree over a monoid `T`.
///
/// The leaves hold the elements; every internal node holds the fold of
/// its two children, so that any range folds in logarithmically many
/// operations.
#[derive(Clone, Debug)]
pub struct SegTree<T> {
    arr: Vec<T>,
    size: usize,
}

impl<T> View for SegTree<T> {
    type V = Seq<T>;

    closed spec fn view(&self) -> Seq<T> {
        self.arr@.subrange(self.size as int, 2 * self.size as int)
    }
}

impl<T> SegTree<T> where T: Monoid + Copy {
    /// Every internal node holds the fold of its children.
    pub closed spec fn wf(self) -> bool {
        &&& self.arr@.len() == 2 * self.size
        &&& forall|i: int|
            1 <= i < self.size ==> #[trigger] self.arr@[i] == self.arr@[2 * i].spec_op(
                self.arr@[2 * i + 1],
            )
    }

    /// Builds a segment tree of given `size`, filled with identity
    /// elements.
    pub fn new(size: usize) -> (t: Self)
        requires
            size <= usize::MAX / 2,
        ensures
            t.wf(),
            t@.len() == size,
            forall|i: int| 0 <= i < size ==> t@[i] == T::spec_id(),
    {
        let mut arr: Vec<T> = Vec::new();
        let mut z: usize = 0;
        while z < 2 * size
            invariant
                z <= 2 * size,
                size <= usize::MAX / 2,
                arr@.len() == z,
                forall|i: int| 0 <= i < z ==> arr@[i] == T::spec_id(),
            decreases 2 * size - z,
        {
            arr.push(T::id());
            z = z + 1;
        }
        proof {
            T::id_neutral(T::spec_id());
        }
        SegTree { arr, size }
    }

    /// Builds a segment tree holding the elements of a slice.
    pub fn from(array: &[T]) -> (t: Self)
        requires
            array@.len() <= usize::MAX / 2,
        ensures
            t.wf(),
            t@ == array@,
    {
        let size: usize = array.len();
        let mut arr: Vec<T> = Vec::new();
        let mut z: usize = 0;
        while z < 2 * size
            invariant
                z <= 2 * size,
                size <= usize::MAX / 2,
                arr@.len() == z,
            decreases 2 * size - z,
        {
            arr.push(T::id());
            z = z + 1;
        }
        let mut i: usize = 0;
        while i < size
            invariant
                i <= size,
                size <= usize::MAX / 2,
                size == array@.len(),
                arr@.len() == 2 * size,
                forall|k: int| 0 <= k < i ==> arr@[size + k] == array@[k],
            decreases size - i,
        {
            let x: T = *vstd::slice::slice_index_get(array, i);
            arr[size + i] = x;
            i = i + 1;
        }
        let mut j: usize = size;
        while j > 1
            invariant
                1 <= j <= size || (size == 0 && j == 0),
                size <= usize::MAX / 2,
                size == array@.len(),
                arr@.len() == 2 * size,
                forall|k: int| 0 <= k < size ==> arr@[size + k] == array@[k],
                forall|k: int|
                    j <= k < size ==> #[trigger] arr@[k] == arr@[2 * k].spec_op(arr@[2 * k + 1]),
            decreases j,
        {
            j = j - 1;
            let v: T = arr[2 * j].op(arr[2 * j + 1]);
            arr[j] = v;
            proof {
                assert forall|k: int|
                    j <= k < size implies #[trigger] arr@[k] == arr@[2 * k].spec_op(
                    arr@[2 * k + 1],
                ) by {
                    assert(2 * k > k >= j);
                }
            }
        }
        let t = SegTree { arr, size };
        proof {
            assert(t@ =~= array@);
        }
        t
    }

    /// Folds the elements of the range `[l, r)`.
    pub fn query(&self, l: usize, r: usize) -> (ans: T)
        requires
            self.wf(),
            l <= r,
            r <= self@.len(),
        ensures
            ans == fold_op(self@.subrange(l as int, r as int)),
    {
        let ghost target = fold_op(self@.subrange(l as int, r as int));
        let total: usize = self.arr.len();
        let size: usize = self.size;
        proof {
            assert(2 * size == total);
        }
        let mut ans_l: T = T::id();
        let mut ans_r: T = T::id();
        let mut lo: usize = l + size;
        let mut hi: usize = r + size;
        proof {
            assert(self.arr@.subrange(lo as int, hi as int) =~= self@.subrange(
                l as int,
                r as int,
            ));
            T::id_neutral(fold_op(self.arr@.subrange(lo as int, hi as int)));
            T::id_neutral(fold_op(self.arr@.subrange(lo as int, hi as int)).spec_op(
                T::spec_id(),
            ));
        }
        while lo < hi
            invariant
                self.wf(),
                size == self.size,
                lo <= hi <= 2 * size,
                size >= 1 ==> lo >= 1,
                ans_l.spec_op(fold_op(self.arr@.subrange(lo as int, hi as int))).spec_op(ans_r)
                    == target,
            decreases hi - lo,
        {
            let ghost mid0 = self.arr@.subrange(lo as int, hi as int);
            if lo % 2 == 1 {
                let x: T = self.arr[lo];
                proof {
                    let rest = self.arr@.subrange(lo + 1, hi as int);
                    assert(mid0.drop_first() =~= rest);
                    assert(mid0[0] == self.arr@[lo as int]);
                    T::op_associative(ans_l, x, fold_op(rest));
                }
                ans_l = ans_l.op(x);
                lo = lo + 1;
            }
            if hi % 2 == 1 {
                hi = hi - 1;
                let x: T = self.arr[hi];
                proof {
                    let mid1 = self.arr@.subrange(lo as int, hi + 1);
                    let rest = self.arr@.subrange(lo as int, hi as int);
                    assert(mid1 =~= rest.push(self.arr@[hi as int]));
                    lemma_fold_push(rest, self.arr@[hi as int]);
                    T::op_associative(ans_l, fold_op(rest), x);
                    T::op_associative(ans_l.spec_op(fold_op(rest)), x, ans_r);
                    T::op_associative(fold_op(rest), x, ans_r);
                    T::op_associative(ans_l, fold_op(rest), x.spec_op(ans_r));
                }
                ans_r = x.op(ans_r);
            }
            proof {
                lemma_fold_pairs(self.arr@, lo as int / 2, hi as int / 2);
            }
            lo = lo / 2;
            hi = hi / 2;
        }
        proof {
            assert(self.arr@.subrange(lo as int, hi as int) =~= Seq::<T>::empty());
            T::id_neutral(ans_l);
            T::op_associative(ans_l, T::spec_id(), ans_r);
        }
        ans_l.op(ans_r)
    }

    /// Replaces the element at `pos` with `val`.
    pub fn update(&mut self, pos: usize, val: &T)
        requires
            old(self).wf(),
            pos < old(self)@.len(),
        ensures
            final(self).wf(),
            final(self)@ == old(self)@.update(pos as int, *val),
    {
        let ghost target = old(self)@.update(pos as int, *val);
        let total: usize = self.arr.len();
        let size: usize = self.size;
        proof {
            assert(2 * size == total);
        }
        let leaf: usize = pos + size;
        self.arr[leaf] = *val;
        let mut p: usize = leaf / 2;
        proof {
            assert(self@ =~= target);
            assert forall|i: int|
                1 <= i < size && !on_path(i, p as int) implies #[trigger] self.arr@[i]
                == self.arr@[2 * i].spec_op(self.arr@[2 * i + 1]) by {
                assert(2 * i != leaf && 2 * i + 1 != leaf) by {
                    if 2 * i == leaf || 2 * i + 1 == leaf {
                        assert(i == leaf as int / 2);
                        assert(on_path(i, p as int));
                    }
                }
            }
        }
        while p >= 1
            invariant
                size == self.size,
                size <= usize::MAX / 2,
                self.arr@.len() == 2 * size,
                p < size || (p < 1 && size <= 1),
                self@ == target,
                forall|i: int|
                    1 <= i < size && !on_path(i, p as int) ==> #[trigger] self.arr@[i]
                        == self.arr@[2 * i].spec_op(self.arr@[2 * i + 1]),
            decreases p,
        {
            let ghost before = self.arr@;
            let v: T = self.arr[2 * p].op(self.arr[2 * p + 1]);
            self.arr[p] = v;
            proof {
                assert(self@ =~= target);
                let q = p as int / 2;
                assert forall|i: int|
                    1 <= i < size && !on_path(i, q) implies #[trigger] self.arr@[i]
                    == self.arr@[2 * i].spec_op(self.arr@[2 * i + 1]) by {
                    assert(2 * i != p as int && 2 * i + 1 != p as int) by {
                        if 2 * i == p as int || 2 * i + 1 == p as int {
                            assert(i == q);
                            assert(on_path(i, q));
                        }
                    }
                    if i != p as int {
                        assert(!on_path(i, p as int)) by {
                            if on_path(i, p as int) {
                                assert(on_path(i, q));
                            }
                        }
                        assert(before[i] == self.arr@[i]);
                        assert(before[i] == before[2 * i].spec_op(before[2 * i + 1]));
                    }
                }
            }
            p = p / 2;
        }
        proof {
            assert forall|i: int| 1 <= i < size implies #[trigger] self.arr@[i] == self.arr@[2
                * i].spec_op(self.arr@[2 * i + 1]) by {
                assert(!on_path(i, p as int));
            }
        }
    }
}

} // verus!
