//! Substring ranking and suffix ordering.
//!
//! Provides the Z-function of a sequence, a doubling rank table over
//! cyclic substrings (`DBF`) with an O(1) equal-length fingerprint and a
//! total-order comparator for arbitrary substrings, and suffix-array /
//! LCP-array construction on top of the table.

use vstd::prelude::*;

use crate::order::{le_exec, EqAlphabet, OrdAlphabet};

verus! {

/// Lexicographic "less than or equal" over an ordered alphabet; a proper
/// prefix compares below every extension of it.
pub open spec fn lex_le<T: OrdAlphabet>(a: Seq<T>, b: Seq<T>) -> bool
    decreases a.len(),
{
    if a.len() == 0 {
        true
    } else if b.len() == 0 {
        false
    } else if a[0] == b[0] {
        lex_le(a.drop_first(), b.drop_first())
    } else {
        a[0].le(b[0])
    }
}

/// `lex_le` is decided by the longest common prefix: a sequence that runs
/// out first compares below, and otherwise the first differing elements
/// decide.
pub proof fn lemma_lex_by_cpl<T: OrdAlphabet>(a: Seq<T>, b: Seq<T>)
    ensures
        common_prefix_len(a, b) == a.len() ==> lex_le(a, b),
        common_prefix_len(a, b) == b.len() && b.len() < a.len() ==> !lex_le(a, b),
        common_prefix_len(a, b) < a.len() && common_prefix_len(a, b) < b.len() ==> lex_le(a, b)
            == a[common_prefix_len(a, b) as int].le(b[common_prefix_len(a, b) as int]),
    decreases a.len(),
{
    if a.len() == 0 || b.len() == 0 || a[0] != b[0] {
        lemma_common_prefix_len(a, b);
    } else {
        lemma_lex_by_cpl(a.drop_first(), b.drop_first());
    }
}

/// `lex_le` is total.
pub proof fn lemma_lex_total<T: OrdAlphabet>(a: Seq<T>, b: Seq<T>)
    ensures
        lex_le(a, b) || lex_le(b, a),
    decreases a.len(),
{
    if a.len() == 0 || b.len() == 0 {
    } else if a[0] == b[0] {
        lemma_lex_total(a.drop_first(), b.drop_first());
    } else {
        T::le_total(a[0], b[0]);
    }
}

/// `lex_le` is antisymmetric.
pub proof fn lemma_lex_antisym<T: OrdAlphabet>(a: Seq<T>, b: Seq<T>)
    requires
        lex_le(a, b),
        lex_le(b, a),
    ensures
        a == b,
    decreases a.len(),
{
    if a.len() == 0 {
        assert(a =~= b);
    } else if a[0] == b[0] {
        lemma_lex_antisym(a.drop_first(), b.drop_first());
        assert(a.len() == b.len());
        assert forall|i: int| 0 <= i < a.len() implies a[i] == b[i] by {
            if i > 0 {
                assert(a.drop_first()[i - 1] == b.drop_first()[i - 1]);
            }
        }
        assert(a =~= b);
    } else {
        T::le_antisymmetric(a[0], b[0]);
    }
}

/// `lex_le` is transitive.
pub proof fn lemma_lex_trans<T: OrdAlphabet>(a: Seq<T>, b: Seq<T>, c: Seq<T>)
    requires
        lex_le(a, b),
        lex_le(b, c),
    ensures
        lex_le(a, c),
    decreases a.len(),
{
    if a.len() == 0 || b.len() == 0 || c.len() == 0 {
    } else if a[0] == b[0] && b[0] == c[0] {
        lemma_lex_trans(a.drop_first(), b.drop_first(), c.drop_first());
    } else if a[0] == b[0] {
        assert(a[0].le(c[0]));
    } else if b[0] == c[0] {
        assert(a[0].le(c[0]));
    } else {
        T::le_transitive(a[0], b[0], c[0]);
        if a[0] == c[0] {
            T::le_antisymmetric(a[0], b[0]);
            T::le_antisymmetric(b[0], c[0]);
        }
    }
}

/// Comparing equal-length concatenations: the front parts decide unless
/// they are equal, in which case the back parts decide.
pub proof fn lemma_lex_concat<T: OrdAlphabet>(a: Seq<T>, b: Seq<T>, c: Seq<T>, d: Seq<T>)
    requires
        a.len() == c.len(),
    ensures
        lex_le(a + b, c + d) == (if a == c {
            lex_le(b, d)
        } else {
            lex_le(a, c)
        }),
    decreases a.len(),
{
    if a.len() == 0 {
        assert(a =~= c);
        assert(a + b =~= b);
        assert(c + d =~= d);
    } else {
        let ab = a + b;
        let cd = c + d;
        assert(ab[0] == a[0]);
        assert(cd[0] == c[0]);
        assert(ab.len() > 0 && cd.len() > 0);
        if a[0] == c[0] {
            assert(ab.drop_first() =~= a.drop_first() + b);
            assert(cd.drop_first() =~= c.drop_first() + d);
            lemma_lex_concat(a.drop_first(), b, c.drop_first(), d);
            if a.drop_first() == c.drop_first() {
                assert(a.len() == c.len());
                assert forall|i: int| 0 <= i < a.len() implies a[i] == c[i] by {
                    if i > 0 {
                        assert(a.drop_first()[i - 1] == c.drop_first()[i - 1]);
                    }
                }
                assert(a =~= c);
            } else {
                assert(a != c);
            }
        } else {
            assert(a != c);
        }
    }
}

/// `lex_le` is reflexive.
pub proof fn lemma_lex_refl<T: OrdAlphabet>(a: Seq<T>)
    ensures
        lex_le(a, a),
{
    lemma_common_prefix_len_exact(a, a, a.len() as int);
    lemma_lex_by_cpl(a, a);
}

/// Two to the power `e`.
pub open spec fn two_pow(e: nat) -> nat
    decreases e,
{
    if e == 0 {
        1
    } else {
        2 * two_pow((e - 1) as nat)
    }
}

/// `two_pow` is positive and monotone.
pub proof fn lemma_two_pow_monotone(e1: nat, e2: nat)
    requires
        e1 <= e2,
    ensures
        1 <= two_pow(e1) <= two_pow(e2),
        e1 < e2 ==> two_pow(e1) < two_pow(e2),
    decreases e2,
{
    if e1 < e2 {
        lemma_two_pow_monotone(e1, (e2 - 1) as nat);
    } else if e2 > 0 {
        lemma_two_pow_monotone((e1 - 1) as nat, (e2 - 1) as nat);
    }
}

/// Floor of the base-two logarithm.
pub open spec fn floor_log2(len: nat) -> nat
    decreases len,
{
    if len <= 1 {
        0
    } else {
        1 + floor_log2(len / 2)
    }
}

/// The power of two at `floor_log2(len)` reaches at least half of `len`.
pub proof fn lemma_floor_log2(len: nat)
    requires
        1 <= len,
    ensures
        two_pow(floor_log2(len)) <= len,
        len < two_pow(floor_log2(len) + 1),
    decreases len,
{
    if len >= 2 {
        lemma_floor_log2(len / 2);
    }
}

/// A width bracketed by consecutive powers of two fixes the logarithm.
pub proof fn lemma_floor_log2_unique(len: nat, h: nat)
    requires
        1 <= len,
        two_pow(h) <= len,
        len < two_pow(h + 1),
    ensures
        h == floor_log2(len),
{
    lemma_floor_log2(len);
    let f = floor_log2(len);
    if h < f {
        lemma_two_pow_monotone(h + 1, f);
    }
    if f < h {
        lemma_two_pow_monotone(f + 1, h);
    }
}

/// The cyclic substring of `s` of length `len` starting at `i`, indices
/// taken modulo the length of `s`.
pub open spec fn cyclic_sub<T>(s: Seq<T>, i: int, len: nat) -> Seq<T>
    recommends
        s.len() > 0,
{
    Seq::new(len, |k: int| s[(i + k) % (s.len() as int)])
}

/// A cyclic substring that does not wrap is a plain subrange.
pub proof fn lemma_cyclic_no_wrap<T>(s: Seq<T>, i: int, len: nat)
    requires
        0 <= i,
        i + len <= s.len(),
        s.len() > 0,
    ensures
        cyclic_sub(s, i, len) == s.subrange(i, i + len),
{
    assert forall|k: int| 0 <= k < len implies cyclic_sub(s, i, len)[k] == s.subrange(
        i,
        i + len,
    )[k] by {
        vstd::arithmetic::div_mod::lemma_small_mod((i + k) as nat, s.len());
    }
    assert(cyclic_sub(s, i, len) =~= s.subrange(i, i + len));
}

/// A sequence of `n` distinct positions, all below `n`.
pub open spec fn is_permutation(s: Seq<usize>) -> bool {
    s.no_duplicates() && forall|t: int| 0 <= t < s.len() ==> (#[trigger] s[t]) < s.len()
}

/// A permutation of positions attains every position (pigeonhole).
pub proof fn lemma_permutation_onto(s: Seq<usize>, v: usize)
    requires
        is_permutation(s),
        v < s.len(),
    ensures
        s.contains(v),
{
    if !s.contains(v) {
        let si = s.map_values(|x: usize| x as int);
        assert(si.len() == s.len());
        assert forall|i: int, j: int| 0 <= i < si.len() && 0 <= j < si.len() && i != j implies si[i]
            != si[j] by {
            assert(s[i] != s[j]);
        }
        assert(si.no_duplicates());
        si.unique_seq_to_set();
        let r = vstd::set_lib::set_int_range(0, s.len() as int).remove(v as int);
        vstd::set_lib::lemma_int_range(0, s.len() as int);
        assert(r.len() == s.len() - 1) by {
            assert(vstd::set_lib::set_int_range(0, s.len() as int).contains(v as int));
        }
        assert forall|y: int| si.to_set().contains(y) implies r.contains(y) by {
            let i = choose|i: int| 0 <= i < si.len() && si[i] == y;
            assert(s[i] < s.len());
            assert(s[i] != v);
        }
        vstd::set_lib::lemma_len_subset(si.to_set(), r);
        assert(false);
    }
}

/// A rank row for width `w`: a dense labelling of the starting positions
/// whose numeric order coincides with the lexicographic order of the
/// cyclic substrings of length `w`.
pub open spec fn rank_row_ok<T: OrdAlphabet>(s: Seq<T>, row: Seq<usize>, w: nat) -> bool {
    &&& row.len() == s.len()
    &&& forall|i: int| 0 <= i < row.len() ==> (#[trigger] row[i]) < row.len()
    &&& forall|i: int, j: int|
        #![trigger row[i], row[j]]
        0 <= i < row.len() && 0 <= j < row.len() ==> ((row[i] <= row[j]) <==> lex_le(
            cyclic_sub(s, i, w),
            cyclic_sub(s, j, w),
        ))
}

/// Equal ranks mean equal cyclic substrings.
pub proof fn lemma_rank_eq_sub_eq<T: OrdAlphabet>(s: Seq<T>, row: Seq<usize>, w: nat, i: int, j: int)
    requires
        rank_row_ok(s, row, w),
        0 <= i < row.len(),
        0 <= j < row.len(),
    ensures
        (row[i] == row[j]) <==> (cyclic_sub(s, i, w) == cyclic_sub(s, j, w)),
{
    if row[i] == row[j] {
        lemma_lex_antisym(cyclic_sub(s, i, w), cyclic_sub(s, j, w));
    }
    if cyclic_sub(s, i, w) == cyclic_sub(s, j, w) {
        lemma_lex_refl(cyclic_sub(s, i, w));
    }
}

/// Length of the longest common prefix of two sequences.
pub open spec fn common_prefix_len<T>(a: Seq<T>, b: Seq<T>) -> nat
    decreases a.len(),
{
    if a.len() == 0 || b.len() == 0 || a[0] != b[0] {
        0
    } else {
        1 + common_prefix_len(a.drop_first(), b.drop_first())
    }
}

/// The longest common prefix is a common prefix, is no longer than either
/// sequence, and cannot be extended.
pub proof fn lemma_common_prefix_len<T>(a: Seq<T>, b: Seq<T>)
    ensures
        common_prefix_len(a, b) <= a.len(),
        common_prefix_len(a, b) <= b.len(),
        forall|t: int| 0 <= t < common_prefix_len(a, b) ==> a[t] == b[t],
        common_prefix_len(a, b) < a.len() && common_prefix_len(a, b) < b.len() ==> a[common_prefix_len(
            a,
            b,
        ) as int] != b[common_prefix_len(a, b) as int],
    decreases a.len(),
{
    if a.len() == 0 || b.len() == 0 || a[0] != b[0] {
    } else {
        lemma_common_prefix_len(a.drop_first(), b.drop_first());
        assert forall|t: int| 0 <= t < common_prefix_len(a, b) implies a[t] == b[t] by {
            if t > 0 {
                assert(a.drop_first()[t - 1] == b.drop_first()[t - 1]);
            }
        }
    }
}

/// A common prefix of length `k` that either exhausts a sequence or hits a
/// mismatch is exactly the longest common prefix.
pub proof fn lemma_common_prefix_len_exact<T>(a: Seq<T>, b: Seq<T>, k: int)
    requires
        0 <= k <= a.len(),
        k <= b.len(),
        forall|t: int| 0 <= t < k ==> a[t] == b[t],
        k == a.len() || k == b.len() || a[k] != b[k],
    ensures
        common_prefix_len(a, b) == k,
    decreases k,
{
    if k == 0 {
        lemma_common_prefix_len(a, b);
        if common_prefix_len(a, b) > 0 {
            assert(a[0] == b[0]);
        }
    } else {
        assert(a[0] == b[0]);
        assert forall|t: int| 0 <= t < k - 1 implies a.drop_first()[t] == b.drop_first()[t] by {
            assert(a[t + 1] == b[t + 1]);
        }
        if k < a.len() && k < b.len() {
            assert(a.drop_first()[k - 1] != b.drop_first()[k - 1]);
        }
        lemma_common_prefix_len_exact(a.drop_first(), b.drop_first(), k - 1);
    }
}

/// Calculates the Z-function of a slice over an equality-comparable
/// alphabet: `z[0] = n`, and for `i >= 1`, `z[i]` is the length of the
/// longest common prefix of the slice and its suffix starting at `i`.
///
/// An empty slice yields an empty array.
pub fn z_array<T: EqAlphabet>(arr: &[T]) -> (z: Vec<usize>)
    ensures
        z@.len() == arr@.len(),
        arr@.len() > 0 ==> z@[0] == arr@.len(),
        forall|i: int| 0 <= i < arr@.len() ==> z@[i] == common_prefix_len(arr@, arr@.skip(i)),
{
    let n: usize = arr.len();
    let mut z: Vec<usize> = Vec::new();
    if n == 0 {
        return z;
    }
    z.push(n);
    proof {
        assert(arr@.skip(0) =~= arr@);
        lemma_common_prefix_len(arr@, arr@);
        lemma_common_prefix_len_exact(arr@, arr@, arr@.len() as int);
    }

    let mut l: usize = 0;
    let mut r: usize = 0;
    let mut i: usize = 1;
    while i < n
        invariant
            1 <= i <= n,
            n == arr@.len(),
            z@.len() == i,
            z@[0] == n,
            forall|j: int|
                0 <= j < i ==> z@[j] == common_prefix_len(arr@, arr@.skip(j)) && z@[j] <= n - j,
            r != 0 ==> 1 <= l < i && l <= r <= n && r - l <= common_prefix_len(
                arr@,
                arr@.skip(l as int),
            ),
        decreases n - i,
    {
        let mut k: usize = 0;
        if i <= r {
            let seed: usize = z[i - l];
            k = if r - i < seed {
                r - i
            } else {
                seed
            };
            proof {
                lemma_common_prefix_len(arr@, arr@.skip(l as int));
                lemma_common_prefix_len(arr@, arr@.skip(i - l));
                assert forall|t: int| 0 <= t < k implies arr@[i + t] == #[trigger] arr@[t] by {
                    assert(arr@.skip(i - l)[t] == arr@[i - l + t]);
                    assert(arr@.skip(l as int)[i - l + t] == arr@[i + t]);
                }
            }
        }
        while i + k < n && slice_eq_at(arr, i + k, k)
            invariant
                1 <= i < n,
                n == arr@.len(),
                k <= n - i,
                forall|t: int| 0 <= t < k ==> arr@[i + t] == #[trigger] arr@[t],
            decreases n - i - k,
        {
            k = k + 1;
        }
        proof {
            lemma_common_prefix_len_exact(arr@, arr@.skip(i as int), k as int);
        }
        z.push(k);
        if i + k > r {
            l = i;
            r = i + k;
        }
        i = i + 1;
    }
    z
}

/// Splitting a range into its two covering power-of-two blocks: the front
/// blocks decide the comparison unless they are equal, in which case the
/// back blocks decide, and the range contents are equal exactly when both
/// block pairs are.
proof fn lemma_block_decomposition<T: OrdAlphabet>(s: Seq<T>, l1: int, l2: int, c: int, w: int)
    requires
        1 <= w <= c < 2 * w,
        0 <= l1,
        l1 + c <= s.len(),
        0 <= l2,
        l2 + c <= s.len(),
    ensures
        (s.subrange(l1, l1 + c) == s.subrange(l2, l2 + c)) <==> (s.subrange(l1, l1 + w)
            == s.subrange(l2, l2 + w) && s.subrange(l1 + c - w, l1 + c) == s.subrange(
            l2 + c - w,
            l2 + c,
        )),
        lex_le(s.subrange(l1, l1 + c), s.subrange(l2, l2 + c)) == (if s.subrange(l1, l1 + w)
            == s.subrange(l2, l2 + w) {
            lex_le(s.subrange(l1 + c - w, l1 + c), s.subrange(l2 + c - w, l2 + c))
        } else {
            lex_le(s.subrange(l1, l1 + w), s.subrange(l2, l2 + w))
        }),
{
    let x = s.subrange(l1, l1 + c);
    let y = s.subrange(l2, l2 + c);
    let a1 = s.subrange(l1, l1 + w);
    let a2 = s.subrange(l2, l2 + w);
    let b1 = s.subrange(l1 + c - w, l1 + c);
    let b2 = s.subrange(l2 + c - w, l2 + c);
    let t1 = s.subrange(l1 + w, l1 + c);
    let t2 = s.subrange(l2 + w, l2 + c);
    assert(x =~= a1 + t1);
    assert(y =~= a2 + t2);
    lemma_lex_concat(a1, t1, a2, t2);
    if a1 == a2 {
        let o1 = s.subrange(l1 + c - w, l1 + w);
        let o2 = s.subrange(l2 + c - w, l2 + w);
        assert(o1 =~= o2) by {
            assert forall|k: int| 0 <= k < 2 * w - c implies o1[k] == o2[k] by {
                assert(a1[c - w + k] == a2[c - w + k]);
            }
        }
        assert(b1 =~= o1 + t1);
        assert(b2 =~= o2 + t2);
        lemma_lex_concat(o1, t1, o2, t2);
        if t1 == t2 {
            assert(x =~= y);
            assert(b1 =~= b2);
        }
        if b1 == b2 {
            assert(t1 =~= t2) by {
                assert forall|k: int| 0 <= k < c - w implies t1[k] == t2[k] by {
                    assert(b1[2 * w - c + k] == b2[2 * w - c + k]);
                }
            }
        }
        if x == y {
            assert(t1 =~= t2) by {
                assert forall|k: int| 0 <= k < c - w implies t1[k] == t2[k] by {
                    assert(x[w + k] == y[w + k]);
                }
            }
        }
    } else {
        if x == y {
            assert(a1 =~= a2) by {
                assert forall|k: int| 0 <= k < w implies a1[k] == a2[k] by {
                    assert(x[k] == y[k]);
                }
            }
        }
        if b1 == b2 && a1 == a2 {
        }
    }
}

/// A doubling rank table ("dictionary of basic factors") over a sequence:
/// one dense rank row per power-of-two block width.
pub struct DBF<T> {
    n: usize,
    dbf: Vec<Vec<usize>>,
    seq: Ghost<Seq<T>>,
}

impl<T: OrdAlphabet> DBF<T> {
    /// The sequence the table was built over.
    pub closed spec fn seq(self) -> Seq<T> {
        self.seq@
    }

    /// Number of doubling levels of the table.
    pub closed spec fn levels(self) -> nat {
        self.dbf@.len()
    }

    /// The rank row at a level.
    pub closed spec fn row(self, h: int) -> Seq<usize> {
        self.dbf@[h]@
    }

    /// The block width of the final level.
    pub open spec fn last_width(self) -> nat {
        two_pow((self.levels() - 1) as nat)
    }

    /// Well-formed table: the row at level `h` ranks the cyclic
    /// substrings of width two-to-the-`h`, and the last width covers the
    /// whole sequence.
    pub closed spec fn wf(self) -> bool {
        &&& self.n == self.seq().len()
        &&& 1 <= self.seq().len() <= usize::MAX / 2
        &&& self.levels() >= 1
        &&& forall|h: int|
            0 <= h < self.levels() ==> rank_row_ok(self.seq(), #[trigger] self.row(h), two_pow(h as nat))
        &&& self.last_width() >= self.seq().len()
    }

    /// The fingerprint pair of the substring `[l, r)`: the ranks of the
    /// two width-`w` blocks that together cover the range, where `w` is
    /// the largest power of two not exceeding the range's length.
    pub closed spec fn repr_spec(self, l: int, r: int) -> (usize, usize)
        recommends
            0 <= l < r <= self.seq().len(),
    {
        let h = floor_log2((r - l) as nat);
        let w = two_pow(h) as int;
        (self.row(h as int)[l], self.row(h as int)[r - w])
    }

    /// The level used by `repr_spec` exists, and the two block ranks
    /// order and identify the range contents.
    proof fn lemma_repr_meaning(self, l1: int, r1: int, l2: int, r2: int)
        requires
            self.wf(),
            0 <= l1 < r1 <= self.seq().len(),
            0 <= l2 < r2 <= self.seq().len(),
            r1 - l1 == r2 - l2,
        ensures
            (self.repr_spec(l1, r1) == self.repr_spec(l2, r2)) <==> (self.seq().subrange(l1, r1)
                == self.seq().subrange(l2, r2)),
            (self.repr_spec(l1, r1).0 < self.repr_spec(l2, r2).0 || (self.repr_spec(l1, r1).0
                == self.repr_spec(l2, r2).0 && self.repr_spec(l1, r1).1 < self.repr_spec(
                l2,
                r2,
            ).1)) <==> (lex_le(self.seq().subrange(l1, r1), self.seq().subrange(l2, r2))
                && self.seq().subrange(l1, r1) != self.seq().subrange(l2, r2)),
    {
        let s = self.seq();
        let c = r1 - l1;
        let h = floor_log2(c as nat);
        let w = two_pow(h) as int;
        lemma_floor_log2(c as nat);
        assert(w <= c < 2 * w);
        assert(h < self.levels()) by {
            if h >= self.levels() {
                lemma_two_pow_monotone((self.levels() - 1) as nat, h as nat);
            }
        }
        let row = self.row(h as int);
        assert(rank_row_ok(s, row, two_pow(h)));
        lemma_block_decomposition(s, l1, l2, c, w);
        lemma_cyclic_no_wrap(s, l1, w as nat);
        lemma_cyclic_no_wrap(s, l2, w as nat);
        lemma_cyclic_no_wrap(s, r1 - w, w as nat);
        lemma_cyclic_no_wrap(s, r2 - w, w as nat);
        lemma_rank_eq_sub_eq(s, row, w as nat, l1, l2);
        lemma_rank_eq_sub_eq(s, row, w as nat, r1 - w, r2 - w);
        assert((row[l1] <= row[l2]) <==> lex_le(s.subrange(l1, l1 + w), s.subrange(l2, l2 + w)));
        assert((row[l2] <= row[l1]) <==> lex_le(s.subrange(l2, l2 + w), s.subrange(l1, l1 + w)));
        assert((row[r1 - w] <= row[r2 - w]) <==> lex_le(
            s.subrange(r1 - w, r1),
            s.subrange(r2 - w, r2),
        ));
        lemma_lex_total(s.subrange(l1, l1 + w), s.subrange(l2, l2 + w));
        lemma_lex_total(s.subrange(r1 - w, r1), s.subrange(r2 - w, r2));
        if s.subrange(l1, r1) == s.subrange(l2, r2) {
            lemma_lex_refl(s.subrange(l1, r1));
        }
    }

    /// Returns the last row of the table: the ranks, hence the
    /// lexicographic order, of all cyclic rotations of the sequence.
    pub fn last_row(&self) -> (row: Vec<usize>)
        requires
            self.wf(),
        ensures
            row@ == self.row(self.levels() - 1),
            rank_row_ok(self.seq(), row@, self.last_width()),
            self.last_width() >= self.seq().len(),
    {
        let h: usize = self.dbf.len() - 1;
        proof {
            assert(rank_row_ok(self.seq(), self.row(h as int), two_pow(h as nat)));
        }
        let src: &Vec<usize> = &self.dbf[h];
        let mut row: Vec<usize> = Vec::new();
        let mut t: usize = 0;
        let len: usize = src.len();
        while t < len
            invariant
                t <= len,
                len == src@.len(),
                row@ == src@.take(t as int),
            decreases len - t,
        {
            let x: usize = src[t];
            row.push(x);
            proof {
                assert(row@ =~= src@.take(t + 1));
            }
            t = t + 1;
        }
        proof {
            assert(src@.take(len as int) =~= src@);
        }
        row
    }

    /// Gives the fingerprint of the substring `[l, r)`: substrings of
    /// equal length are identical exactly when their fingerprints are
    /// equal, and fingerprint order is their lexicographic order.
    pub fn get_repr(&self, l: usize, r: usize) -> (repr: (usize, usize))
        requires
            self.wf(),
            l < r,
            r <= self.seq().len(),
        ensures
            repr == self.repr_spec(l as int, r as int),
    {
        let c: usize = r - l;
        let mut h: usize = 0;
        let mut w: usize = 1;
        proof {
            lemma_floor_log2(c as nat);
            lemma_two_pow_monotone(floor_log2(c as nat), floor_log2(c as nat));
        }
        while 2 * w <= c
            invariant
                1 <= w <= c,
                c <= usize::MAX / 2,
                w == two_pow(h as nat),
                h < w,
            decreases c - w,
        {
            proof {
                lemma_two_pow_monotone(h as nat, (h + 1) as nat);
            }
            w = 2 * w;
            h = h + 1;
        }
        proof {
            lemma_floor_log2_unique(c as nat, h as nat);
            assert(h < self.levels()) by {
                if h >= self.levels() {
                    lemma_two_pow_monotone((self.levels() - 1) as nat, h as nat);
                }
            }
            assert(rank_row_ok(self.seq(), self.row(h as int), two_pow(h as nat)));
        }
        let rowh: &Vec<usize> = &self.dbf[h];
        proof {
            vstd::arithmetic::div_mod::lemma_small_mod((r - w) as nat, self.n as nat);
        }
        (rowh[l], rowh[(r - w) % self.n])
    }

    /// Compares the substrings `[l1, r1)` and `[l2, r2)` in lexicographic
    /// order, a proper prefix ordering below its extensions.
    pub fn cmp(&self, l1: usize, r1: usize, l2: usize, r2: usize) -> (o: core::cmp::Ordering)
        requires
            self.wf(),
            l1 < r1,
            r1 <= self.seq().len(),
            l2 < r2,
            r2 <= self.seq().len(),
        ensures
            (o == core::cmp::Ordering::Equal) == (self.seq().subrange(l1 as int, r1 as int)
                == self.seq().subrange(l2 as int, r2 as int)),
            (o == core::cmp::Ordering::Less) == (lex_le(
                self.seq().subrange(l1 as int, r1 as int),
                self.seq().subrange(l2 as int, r2 as int),
            ) && self.seq().subrange(l1 as int, r1 as int) != self.seq().subrange(
                l2 as int,
                r2 as int,
            )),
    {
        let s = Ghost(self.seq());
        let len1: usize = r1 - l1;
        let len2: usize = r2 - l2;
        let c: usize = if len1 < len2 {
            len1
        } else {
            len2
        };
        let repr1: (usize, usize) = self.get_repr(l1, l1 + c);
        let repr2: (usize, usize) = self.get_repr(l2, l2 + c);
        proof {
            self.lemma_repr_meaning(l1 as int, (l1 + c) as int, l2 as int, (l2 + c) as int);
        }
        let ghost x = s@.subrange(l1 as int, r1 as int);
        let ghost y = s@.subrange(l2 as int, r2 as int);
        let ghost p1 = s@.subrange(l1 as int, (l1 + c) as int);
        let ghost p2 = s@.subrange(l2 as int, (l2 + c) as int);
        let ghost t1 = s@.subrange((l1 + c) as int, r1 as int);
        let ghost t2 = s@.subrange((l2 + c) as int, r2 as int);
        proof {
            assert(x =~= p1 + t1);
            assert(y =~= p2 + t2);
            lemma_lex_concat(p1, t1, p2, t2);
            if p1 == p2 {
                if t1.len() == 0 && t2.len() == 0 {
                    assert(x =~= y);
                }
                if x == y {
                    assert(t1 =~= t2) by {
                        assert forall|k: int| 0 <= k < t1.len() implies t1[k] == t2[k] by {
                            assert(x[c + k] == y[c + k]);
                        }
                    }
                }
            } else {
                if x == y {
                    assert(p1 =~= p2) by {
                        assert forall|k: int| 0 <= k < c implies p1[k] == p2[k] by {
                            assert(x[k] == y[k]);
                        }
                    }
                }
            }
        }
        if repr1.0 < repr2.0 {
            core::cmp::Ordering::Less
        } else if repr2.0 < repr1.0 {
            proof {
                self.lemma_repr_meaning(l2 as int, (l2 + c) as int, l1 as int, (l1 + c) as int);
                lemma_lex_total(x, y);
                if lex_le(x, y) && x != y {
                    assert(lex_le(p2, p1) && p2 != p1);
                    assert(!lex_le(p1, p2));
                }
            }
            core::cmp::Ordering::Greater
        } else if repr1.1 < repr2.1 {
            core::cmp::Ordering::Less
        } else if repr2.1 < repr1.1 {
            proof {
                self.lemma_repr_meaning(l2 as int, (l2 + c) as int, l1 as int, (l1 + c) as int);
                lemma_lex_total(x, y);
                if lex_le(x, y) && x != y {
                    assert(lex_le(p2, p1) && p2 != p1);
                    assert(!lex_le(p1, p2));
                }
            }
            core::cmp::Ordering::Greater
        } else {
            proof {
                assert(repr1 == repr2);
                assert(p1 == p2);
            }
            if len1 < len2 {
                proof {
                    assert(t1.len() == 0);
                    assert(t2.len() > 0);
                    assert(lex_le(t1, t2));
                    assert(x != y);
                }
                core::cmp::Ordering::Less
            } else if len2 < len1 {
                proof {
                    assert(t2.len() == 0);
                    assert(t1.len() > 0);
                    assert(!lex_le(t1, t2));
                    lemma_lex_total(x, y);
                    assert(x != y);
                }
                core::cmp::Ordering::Greater
            } else {
                core::cmp::Ordering::Equal
            }
        }
    }
}

/// Two substrings of equal length have equal fingerprints in a
/// well-formed rank table exactly when they are element-wise identical.
pub proof fn lemma_repr_fingerprint<T: OrdAlphabet>(
    d: DBF<T>,
    l1: int,
    r1: int,
    l2: int,
    r2: int,
)
    requires
        d.wf(),
        0 <= l1 < r1 <= d.seq().len(),
        0 <= l2 < r2 <= d.seq().len(),
        r1 - l1 == r2 - l2,
    ensures
        (d.repr_spec(l1, r1) == d.repr_spec(l2, r2)) <==> (d.seq().subrange(l1, r1)
            == d.seq().subrange(l2, r2)),
{
    d.lemma_repr_meaning(l1, r1, l2, r2);
}

/// Inserting a fresh position keeps a position sequence duplicate-free,
/// bounded and complete.
proof fn lemma_insert_position(s: Seq<usize>, p: int, x: usize)
    requires
        0 <= p <= s.len(),
    ensures
        forall|y: usize| s.insert(p, x).contains(y) <==> (s.contains(y) || y == x),
        s.no_duplicates() && !s.contains(x) ==> s.insert(p, x).no_duplicates(),
{
    let u = s.insert(p, x);
    assert forall|y: usize| u.contains(y) <==> (s.contains(y) || y == x) by {
        if u.contains(y) {
            let t = choose|t: int| 0 <= t < u.len() && u[t] == y;
            if t < p {
                assert(s[t] == y);
            } else if t > p {
                assert(s[t - 1] == y);
            }
        }
        if s.contains(y) {
            let t = choose|t: int| 0 <= t < s.len() && s[t] == y;
            if t < p {
                assert(u[t] == y);
            } else {
                assert(u[t + 1] == y);
            }
        }
        if y == x {
            assert(u[p] == y);
        }
    }
    if s.no_duplicates() && !s.contains(x) {
        assert forall|t1: int, t2: int|
            0 <= t1 < u.len() && 0 <= t2 < u.len() && t1 != t2 implies u[t1] != u[t2] by {
            if t1 != p && t2 != p {
                let s1: int = if t1 < p {
                    t1
                } else {
                    t1 - 1
                };
                let s2: int = if t2 < p {
                    t2
                } else {
                    t2 - 1
                };
                assert(u[t1] == s[s1] && u[t2] == s[s2] && s1 != s2);
            } else if t1 == p {
                let s2: int = if t2 < p {
                    t2
                } else {
                    t2 - 1
                };
                assert(u[t2] == s[s2]);
                assert(!s.contains(x));
                if u[t2] == x {
                    assert(s.contains(x));
                }
            } else {
                let s1: int = if t1 < p {
                    t1
                } else {
                    t1 - 1
                };
                assert(u[t1] == s[s1]);
                if u[t1] == x {
                    assert(s.contains(x));
                }
            }
        }
    }
}

/// Sorts the starting positions of `arr` by their element.
fn sort_positions<T: OrdAlphabet>(arr: &[T]) -> (order: Vec<usize>)
    ensures
        order@.len() == arr@.len(),
        is_permutation(order@),
        forall|a: int, b: int|
            0 <= a <= b < order@.len() ==> #[trigger] arr@[order@[a] as int].le(
                arr@[order@[b] as int],
            ),
{
    let n: usize = arr.len();
    let mut out: Vec<usize> = Vec::new();
    let mut i: usize = 0;
    while i < n
        invariant
            i <= n,
            n == arr@.len(),
            out@.len() == i,
            out@.no_duplicates(),
            forall|t: int| 0 <= t < i ==> (#[trigger] out@[t]) < i,
            forall|v: int| 0 <= v < i ==> out@.contains(#[trigger] (v as usize)),
            forall|a: int, b: int|
                0 <= a <= b < i ==> #[trigger] arr@[out@[a] as int].le(arr@[out@[b] as int]),
        decreases n - i,
    {
        let x: &T = vstd::slice::slice_index_get(arr, i);
        let mut p: usize = 0;
        while p < out.len() && le_exec(vstd::slice::slice_index_get(arr, out[p]), x)
            invariant
                p <= out@.len(),
                out@.len() == i < n,
                n == arr@.len(),
                *x == arr@[i as int],
                forall|t: int| 0 <= t < i ==> (#[trigger] out@[t]) < i,
                forall|t: int| 0 <= t < p ==> #[trigger] arr@[out@[t] as int].le(arr@[i as int]),
            decreases out@.len() - p,
        {
            proof {
                assert(arr@[out@[p as int] as int].le(arr@[i as int]));
            }
            p = p + 1;
        }
        proof {
            let old_out = out@;
            let u = old_out.insert(p as int, i as usize);
            lemma_insert_position(old_out, p as int, i as usize);
            if out@.contains(i as usize) {
                let t = choose|t: int| 0 <= t < old_out.len() && old_out[t] == i as usize;
                assert(old_out[t] < i);
            }
            if p < old_out.len() {
                T::le_total(arr@[old_out[p as int] as int], arr@[i as int]);
            }
            assert forall|a: int, b: int| 0 <= a <= b < u.len() implies #[trigger] arr@[u[a] as int].le(
                arr@[u[b] as int],
            ) by {
                if a == b {
                    T::le_reflexive(arr@[u[a] as int]);
                } else if b < p {
                    assert(u[a] == old_out[a] && u[b] == old_out[b]);
                } else if a > p {
                    assert(u[a] == old_out[a - 1] && u[b] == old_out[b - 1]);
                } else if a < p && b == p {
                    assert(u[a] == old_out[a]);
                } else if a == p && b > p {
                    assert(u[b] == old_out[b - 1]);
                    if b - 1 > p {
                        T::le_transitive(
                            arr@[i as int],
                            arr@[old_out[p as int] as int],
                            arr@[old_out[b - 1] as int],
                        );
                    }
                } else {
                    assert(a < p && b > p);
                    assert(u[a] == old_out[a] && u[b] == old_out[b - 1]);
                    if b - 1 > p {
                        T::le_transitive(
                            arr@[i as int],
                            arr@[old_out[p as int] as int],
                            arr@[old_out[b - 1] as int],
                        );
                    }
                    T::le_transitive(
                        arr@[old_out[a] as int],
                        arr@[i as int],
                        arr@[old_out[b - 1] as int],
                    );
                }
            }
        }
        out.insert(p, i);
        i = i + 1;
    }
    out
}

/// Number of positions in `s` whose key is `v`.
spec fn count_key(s: Seq<usize>, keys: Seq<usize>, v: int) -> nat
    decreases s.len(),
{
    if s.len() == 0 {
        0
    } else {
        count_key(s.drop_last(), keys, v) + (if keys[s.last() as int] == v {
            1nat
        } else {
            0
        })
    }
}

/// Number of positions in `s` whose key is below `v`.
spec fn count_below(s: Seq<usize>, keys: Seq<usize>, v: int) -> nat
    decreases v,
{
    if v <= 0 {
        0
    } else {
        count_below(s, keys, v - 1) + count_key(s, keys, v - 1)
    }
}

/// A key occurs in a prefix at most as often as in the whole sequence.
proof fn lemma_count_key_take(s: Seq<usize>, keys: Seq<usize>, t: int, v: int)
    requires
        0 <= t <= s.len(),
    ensures
        count_key(s.take(t), keys, v) <= count_key(s, keys, v),
        count_key(s, keys, v) <= s.len(),
    decreases s.len() - t,
{
    if t == s.len() {
        assert(s.take(t) =~= s);
        lemma_count_key_len(s, keys, v);
    } else {
        lemma_count_key_take(s, keys, t + 1, v);
        assert(s.take(t + 1).drop_last() =~= s.take(t));
        assert(s.take(t + 1).last() == s[t]);
    }
}

/// A key count never exceeds the length.
proof fn lemma_count_key_len(s: Seq<usize>, keys: Seq<usize>, v: int)
    ensures
        count_key(s, keys, v) <= s.len(),
    decreases s.len(),
{
    if s.len() > 0 {
        lemma_count_key_len(s.drop_last(), keys, v);
    }
}

/// Appending one position raises the counts below `m` by one exactly when
/// its key lies below `m`.
proof fn lemma_count_below_push(s: Seq<usize>, keys: Seq<usize>, x: usize, m: int)
    ensures
        count_below(s.push(x), keys, m) == count_below(s, keys, m) + (if 0 <= keys[x as int] < m {
            1nat
        } else {
            0
        }),
    decreases m,
{
    if m > 0 {
        lemma_count_below_push(s, keys, x, m - 1);
        assert(s.push(x).drop_last() =~= s);
        assert(s.push(x).last() == x);
    }
}

/// Counts below a bound grow with the bound.
proof fn lemma_count_below_mono(s: Seq<usize>, keys: Seq<usize>, v1: int, v2: int)
    requires
        v1 <= v2,
    ensures
        count_below(s, keys, v1) <= count_below(s, keys, v2),
    decreases v2 - v1,
{
    if v1 < v2 {
        lemma_count_below_mono(s, keys, v1, v2 - 1);
    }
}

/// When every key lies below `m`, the counts below `m` cover everything.
proof fn lemma_count_below_total(s: Seq<usize>, keys: Seq<usize>, m: int)
    requires
        forall|t: int| 0 <= t < s.len() ==> 0 <= keys[#[trigger] s[t] as int] < m,
    ensures
        count_below(s, keys, m) == s.len(),
    decreases s.len(), m,
{
    if s.len() == 0 {
        if m > 0 {
            lemma_count_below_total(s, keys, m - 1);
        }
    } else {
        let shorter = s.drop_last();
        assert forall|t: int| 0 <= t < shorter.len() implies 0 <= keys[#[trigger] shorter[t] as int]
            < m by {
            assert(shorter[t] == s[t]);
        }
        lemma_count_below_total(shorter, keys, m);
        assert(shorter.push(s.last()) =~= s);
        lemma_count_below_push(shorter, keys, s.last(), m);
    }
}

/// Finds the key bucket that a slot of the counting sort's output falls
/// into.
proof fn lemma_find_bucket(s: Seq<usize>, keys: Seq<usize>, slot: int, m: int) -> (v: int)
    requires
        0 <= slot < count_below(s, keys, m),
    ensures
        0 <= v < m,
        count_below(s, keys, v) <= slot < count_below(s, keys, v + 1),
    decreases m,
{
    if slot >= count_below(s, keys, m - 1) {
        m - 1
    } else {
        lemma_find_bucket(s, keys, slot, m - 1)
    }
}

/// Stable counting sort of a duplicate-free list of positions by their
/// keys: the output is sorted by key, and positions with equal keys keep
/// the order they had in the input.
#[verifier::rlimit(100)]
fn counting_sort_by(input: &Vec<usize>, keys: &Vec<usize>) -> (out: Vec<usize>)
    requires
        input@.len() == keys@.len(),
        forall|t: int| 0 <= t < input@.len() ==> (#[trigger] input@[t]) < keys@.len(),
        forall|t: int| 0 <= t < keys@.len() ==> (#[trigger] keys@[t]) < keys@.len(),
        input@.no_duplicates(),
    ensures
        out@.len() == input@.len(),
        out@.no_duplicates(),
        forall|t: int| 0 <= t < out@.len() ==> (#[trigger] out@[t]) < keys@.len(),
        forall|s1: int, s2: int|
            0 <= s1 < s2 < out@.len() ==> keys@[#[trigger] out@[s1] as int] < keys@[#[trigger] out@[s2] as int] || (
            keys@[out@[s1] as int] == keys@[out@[s2] as int] && exists|t1: int, t2: int|
                0 <= t1 < t2 < input@.len() && input@[t1] == out@[s1] && input@[t2] == out@[s2]),
{
    let n: usize = keys.len();
    let mut freq: Vec<usize> = Vec::new();
    let mut z: usize = 0;
    while z < n
        invariant
            z <= n,
            freq@.len() == z,
            forall|v: int| 0 <= v < z ==> (#[trigger] freq@[v]) == 0,
        decreases n - z,
    {
        freq.push(0);
        z = z + 1;
    }
    proof {
        assert(input@.take(0) =~= Seq::<usize>::empty());
    }
    let mut t: usize = 0;
    while t < n
        invariant
            t <= n,
            n == keys@.len() == input@.len(),
            freq@.len() == n,
            forall|u: int| 0 <= u < input@.len() ==> (#[trigger] input@[u]) < n,
            forall|u: int| 0 <= u < keys@.len() ==> (#[trigger] keys@[u]) < n,
            forall|v: int|
                0 <= v < n ==> (#[trigger] freq@[v]) == count_key(input@.take(t as int), keys@, v)
                    && freq@[v] <= t,
        decreases n - t,
    {
        let p: usize = input[t];
        let kv: usize = keys[p];
        let cur: usize = freq[kv];
        freq[kv] = cur + 1;
        proof {
            assert forall|v: int|
                0 <= v < n implies (#[trigger] freq@[v]) == count_key(
                input@.take(t + 1),
                keys@,
                v,
            ) && freq@[v] <= t + 1 by {
                assert(input@.take(t + 1).drop_last() =~= input@.take(t as int));
                assert(input@.take(t + 1).last() == input@[t as int]);
            }
        }
        t = t + 1;
    }
    proof {
        assert(input@.take(n as int) =~= input@);
        lemma_count_below_total(input@, keys@, n as int);
    }
    let mut acc: usize = 0;
    let mut v: usize = 0;
    while v < n
        invariant
            v <= n,
            n == keys@.len() == input@.len(),
            freq@.len() == n,
            acc == count_below(input@, keys@, v as int),
            count_below(input@, keys@, n as int) == n,
            forall|u: int| 0 <= u < v ==> (#[trigger] freq@[u]) == count_below(input@, keys@, u),
            forall|u: int| v <= u < n ==> (#[trigger] freq@[u]) == count_key(input@, keys@, u),
        decreases n - v,
    {
        proof {
            lemma_count_below_mono(input@, keys@, v + 1, n as int);
        }
        let f: usize = freq[v];
        acc = acc + f;
        freq[v] = acc - f;
        v = v + 1;
    }
    let mut out: Vec<usize> = Vec::new();
    let mut z2: usize = 0;
    while z2 < n
        invariant
            z2 <= n,
            out@.len() == z2,
        decreases n - z2,
    {
        out.push(0);
        z2 = z2 + 1;
    }
    let mut times: Ghost<Seq<int>> = Ghost(Seq::new(n as nat, |x: int| -1));
    let mut t2: usize = 0;
    while t2 < n
        invariant
            t2 <= n,
            n == keys@.len() == input@.len(),
            freq@.len() == n,
            out@.len() == n,
            times@.len() == n,
            input@.no_duplicates(),
            count_below(input@, keys@, n as int) == n,
            forall|u: int| 0 <= u < input@.len() ==> (#[trigger] input@[u]) < n,
            forall|u: int| 0 <= u < keys@.len() ==> (#[trigger] keys@[u]) < n,
            forall|v2: int|
                0 <= v2 < n ==> (#[trigger] freq@[v2]) == count_below(input@, keys@, v2)
                    + count_key(input@.take(t2 as int), keys@, v2),
            forall|v2: int, sl: int|
                #![trigger count_below(input@, keys@, v2), out@[sl]]
                0 <= v2 < n && count_below(input@, keys@, v2) <= sl < freq@[v2] ==> keys@[out@[sl] as int]
                    == v2 && out@[sl] < n && 0 <= times@[sl] < t2 && input@[times@[sl]] == out@[sl],
            forall|v2: int, s1: int, s2: int|
                #![trigger count_below(input@, keys@, v2), times@[s1], times@[s2]]
                0 <= v2 < n && count_below(input@, keys@, v2) <= s1 < s2 < freq@[v2] ==> times@[s1]
                    < times@[s2],
        decreases n - t2,
    {
        let p: usize = input[t2];
        let kv: usize = keys[p];
        proof {
            lemma_count_key_take(input@, keys@, t2 + 1, kv as int);
            assert(input@.take(t2 + 1).drop_last() =~= input@.take(t2 as int));
            assert(input@.take(t2 + 1).last() == input@[t2 as int]);
            assert(count_key(input@.take(t2 as int), keys@, kv as int) < count_key(
                input@,
                keys@,
                kv as int,
            ));
            lemma_count_below_mono(input@, keys@, kv + 1, n as int);
        }
        let slot: usize = freq[kv];
        let ghost before_out = out@;
        let ghost before_freq = freq@;
        let ghost before_times = times@;
        out[slot] = p;
        times = Ghost(times@.update(slot as int, t2 as int));
        freq[kv] = slot + 1;
        proof {
            assert forall|v2: int|
                0 <= v2 < n implies (#[trigger] freq@[v2]) == count_below(input@, keys@, v2)
                + count_key(input@.take(t2 + 1), keys@, v2) by {
                assert(input@.take(t2 + 1).drop_last() =~= input@.take(t2 as int));
                assert(input@.take(t2 + 1).last() == input@[t2 as int]);
            }
            assert forall|v2: int, sl: int|
                #![trigger count_below(input@, keys@, v2), out@[sl]]
                0 <= v2 < n && count_below(input@, keys@, v2) <= sl < freq@[v2] implies keys@[out@[sl] as int]
                == v2 && out@[sl] < n && 0 <= times@[sl] < t2 + 1 && input@[times@[sl]]
                == out@[sl] by {
                if v2 == kv as int && sl == slot as int {
                } else {
                    assert(sl != slot) by {
                        if v2 < kv as int {
                            lemma_count_key_take(input@, keys@, t2 as int, v2);
                            lemma_count_below_mono(input@, keys@, v2 + 1, kv as int);
                        } else if v2 > kv as int {
                            lemma_count_below_mono(input@, keys@, kv + 1, v2);
                        }
                    }
                    assert(sl < n) by {
                        lemma_count_key_take(input@, keys@, t2 as int, v2);
                        lemma_count_below_mono(input@, keys@, v2 + 1, n as int);
                    }
                    assert(before_freq[v2] == freq@[v2] || v2 == kv as int);
                    assert(count_below(input@, keys@, v2) <= sl < before_freq[v2]);
                    assert(out@ == before_out.update(slot as int, p));
                    assert(out@[sl] == before_out[sl]);
                }
            }
            assert forall|v2: int, s1: int, s2: int|
                #![trigger count_below(input@, keys@, v2), times@[s1], times@[s2]]
                0 <= v2 < n && count_below(input@, keys@, v2) <= s1 < s2 < freq@[v2] implies times@[s1]
                < times@[s2] by {
                if v2 == kv as int && s2 == slot as int {
                    assert(count_below(input@, keys@, v2) <= s1 < before_freq[v2]);
                    assert(s1 < slot < n);
                    assert(out@ == before_out.update(slot as int, p));
                    assert(before_out[s1] == out@[s1]);
                    assert(times@[s2] == t2);
                    assert(times@[s1] == before_times[s1]);
                    assert(0 <= before_times[s1] < t2);
                } else {
                    if v2 < kv as int {
                        lemma_count_key_take(input@, keys@, t2 as int, v2);
                        lemma_count_below_mono(input@, keys@, v2 + 1, kv as int);
                    } else if v2 > kv as int {
                        lemma_count_below_mono(input@, keys@, kv + 1, v2);
                    }
                    assert(s2 != slot);
                    assert(s1 != slot);
                    assert(s2 < n) by {
                        lemma_count_key_take(input@, keys@, t2 as int, v2);
                        lemma_count_below_mono(input@, keys@, v2 + 1, n as int);
                    }
                    assert(count_below(input@, keys@, v2) <= s1 < s2 < before_freq[v2]);
                    assert(times@[s1] == before_times[s1]);
                    assert(times@[s2] == before_times[s2]);
                    assert(before_times[s1] < before_times[s2]);
                }
            }
        }
        t2 = t2 + 1;
    }
    proof {
        assert(input@.take(n as int) =~= input@);
        assert forall|sl: int| 0 <= sl < n implies (#[trigger] out@[sl]) < n && 0 <= times@[sl] < n
            && input@[times@[sl]] == out@[sl] by {
            let b = lemma_find_bucket(input@, keys@, sl, n as int);
            assert(count_key(input@.take(n as int), keys@, b) == count_key(input@, keys@, b));
            assert(freq@[b] == count_below(input@, keys@, b) + count_key(input@, keys@, b));
            assert(freq@[b] == count_below(input@, keys@, b + 1));
            assert(0 <= b < n && count_below(input@, keys@, b) <= sl < freq@[b]);
            assert(keys@[out@[sl] as int] == b);
            assert(out@[sl] < n);
            assert(0 <= times@[sl] < n);
            assert(input@[times@[sl]] == out@[sl]);
        }
        assert forall|s1: int, s2: int| 0 <= s1 < s2 < n implies #[trigger] times@[s1]
            != #[trigger] times@[s2] && out@[s1] != out@[s2] by {
            assert(out@[s1] < n && 0 <= times@[s1] < n && input@[times@[s1]] == out@[s1]);
            assert(out@[s2] < n && 0 <= times@[s2] < n && input@[times@[s2]] == out@[s2]);
            let b1 = lemma_find_bucket(input@, keys@, s1, n as int);
            let b2 = lemma_find_bucket(input@, keys@, s2, n as int);
            assert(count_key(input@.take(n as int), keys@, b1) == count_key(input@, keys@, b1));
            assert(count_key(input@.take(n as int), keys@, b2) == count_key(input@, keys@, b2));
            assert(freq@[b1] == count_below(input@, keys@, b1 + 1));
            assert(freq@[b2] == count_below(input@, keys@, b2 + 1));
            assert(count_below(input@, keys@, b1) <= s1 < freq@[b1]);
            assert(count_below(input@, keys@, b2) <= s2 < freq@[b2]);
            if b1 == b2 {
                assert(times@[s1] < times@[s2]);
                assert(input@[times@[s1]] != input@[times@[s2]]);
            } else {
                assert(keys@[out@[s1] as int] == b1);
                assert(keys@[out@[s2] as int] == b2);
                assert(keys@[out@[s1] as int] != keys@[out@[s2] as int]);
            }
        }
        assert forall|s1: int, s2: int|
            0 <= s1 < s2 < out@.len() implies keys@[#[trigger] out@[s1] as int] < keys@[#[trigger] out@[s2] as int]
            || (keys@[out@[s1] as int] == keys@[out@[s2] as int] && exists|t1: int, t2: int|
            0 <= t1 < t2 < input@.len() && input@[t1] == out@[s1] && input@[t2] == out@[s2]) by {
            let b1 = lemma_find_bucket(input@, keys@, s1, n as int);
            let b2 = lemma_find_bucket(input@, keys@, s2, n as int);
            if b2 < b1 {
                lemma_count_below_mono(input@, keys@, b2 + 1, b1);
                assert(false);
            }
            if b1 == b2 {
                assert(freq@[b1] == count_below(input@, keys@, b1 + 1));
                assert(times@[s1] < times@[s2]);
                let w1 = times@[s1];
                let w2 = times@[s2];
                assert(0 <= w1 < w2 < input@.len() && input@[w1] == out@[s1] && input@[w2]
                    == out@[s2]);
            }
        }
    }
    out
}

/// Pair-key order on positions: the first keys decide, ties go to the
/// second keys.
spec fn pair_le(k1: Seq<usize>, k2: Seq<usize>, i: int, j: int) -> bool {
    k1[i] < k1[j] || (k1[i] == k1[j] && k2[i] <= k2[j])
}

/// Sorts the positions `0..n` by their pair of keys, with a two-pass
/// stable counting sort: first by the second key, then by the first.
fn sort_positions_by_pairs(k1: &Vec<usize>, k2: &Vec<usize>) -> (order: Vec<usize>)
    requires
        k1@.len() == k2@.len(),
        forall|t: int| 0 <= t < k1@.len() ==> (#[trigger] k1@[t]) < k1@.len(),
        forall|t: int| 0 <= t < k2@.len() ==> (#[trigger] k2@[t]) < k2@.len(),
    ensures
        order@.len() == k1@.len(),
        is_permutation(order@),
        forall|a: int, b: int|
            0 <= a <= b < order@.len() ==> #[trigger] pair_le(
                k1@,
                k2@,
                order@[a] as int,
                order@[b] as int,
            ),
{
    let n: usize = k1.len();
    let mut ident: Vec<usize> = Vec::new();
    let mut i: usize = 0;
    while i < n
        invariant
            i <= n,
            ident@.len() == i,
            forall|t: int| 0 <= t < i ==> (#[trigger] ident@[t]) == t,
        decreases n - i,
    {
        ident.push(i);
        i = i + 1;
    }
    let sorted1: Vec<usize> = counting_sort_by(&ident, k2);
    let order: Vec<usize> = counting_sort_by(&sorted1, k1);
    proof {
        assert forall|a: int, b: int|
            0 <= a <= b < order@.len() implies #[trigger] pair_le(
            k1@,
            k2@,
            order@[a] as int,
            order@[b] as int,
        ) by {
            if a < b {
                if k1@[order@[a] as int] == k1@[order@[b] as int] {
                    let (t1, t2) = choose|t1: int, t2: int|
                        0 <= t1 < t2 < sorted1@.len() && sorted1@[t1] == order@[a] && sorted1@[t2]
                            == order@[b];
                    if k2@[sorted1@[t1] as int] == k2@[sorted1@[t2] as int] {
                    } else {
                        assert(k2@[sorted1@[t1] as int] < k2@[sorted1@[t2] as int]);
                    }
                }
            }
        }
    }
    order
}

/// Walking a sorted order with dense rank steps: ranks grow with the key
/// order, by exactly one at each strict key increase.
proof fn lemma_rank_walk(
    order: Seq<usize>,
    row: Seq<usize>,
    keyle: spec_fn(int, int) -> bool,
    a: int,
    b: int,
)
    requires
        order.len() == row.len(),
        is_permutation(order),
        forall|i: int| 0 <= i < order.len() ==> #[trigger] keyle(i, i),
        forall|i: int, j: int, k: int|
            0 <= i < order.len() && 0 <= j < order.len() && 0 <= k < order.len() && #[trigger] keyle(
                i,
                j,
            ) && #[trigger] keyle(j, k) ==> keyle(i, k),
        forall|t: int| 0 < t < order.len() ==> #[trigger] keyle(order[t - 1] as int, order[t] as int),
        row[order[0] as int] == 0,
        forall|t: int|
            0 < t < order.len() ==> row[#[trigger] order[t] as int] as int == row[order[t
                - 1] as int] as int + (if keyle(order[t] as int, order[t - 1] as int) {
                0int
            } else {
                1int
            }),
        0 <= a <= b < order.len(),
    ensures
        keyle(order[a] as int, order[b] as int),
        row[order[a] as int] <= row[order[b] as int],
        keyle(order[b] as int, order[a] as int) ==> row[order[a] as int] == row[order[b] as int],
        !keyle(order[b] as int, order[a] as int) ==> row[order[a] as int] < row[order[b] as int],
        row[order[b] as int] as int <= row[order[a] as int] + (b - a),
    decreases b - a,
{
    if a == b {
    } else {
        lemma_rank_walk(order, row, keyle, a, b - 1);
        let pa = order[a] as int;
        let pm = order[b - 1] as int;
        let pb = order[b] as int;
        assert(keyle(pm, pb));
        assert(keyle(pa, pb));
        if keyle(pb, pm) {
            assert(row[pb] == row[pm]);
            if keyle(pb, pa) {
                assert(keyle(pb, pm) && keyle(pm, pb));
                if !keyle(pm, pa) {
                    assert(keyle(pb, pa) && keyle(pm, pb));
                    assert(keyle(pm, pa));
                }
            } else {
                if keyle(pm, pa) {
                    assert(keyle(pb, pm));
                    assert(keyle(pb, pa));
                }
            }
        } else {
            assert(row[pb] as int == row[pm] + 1);
            if keyle(pb, pa) {
                assert(keyle(pa, pm));
                assert(keyle(pb, pm));
            }
        }
    }
}

/// A dense rank row computed along a sorted order reflects the key order
/// of the positions, and its values stay below the length.
#[verifier::rlimit(50)]
proof fn lemma_dense_ranks(order: Seq<usize>, row: Seq<usize>, keyle: spec_fn(int, int) -> bool)
    requires
        order.len() == row.len(),
        1 <= order.len() <= usize::MAX,
        is_permutation(order),
        forall|i: int| 0 <= i < order.len() ==> #[trigger] keyle(i, i),
        forall|i: int, j: int, k: int|
            0 <= i < order.len() && 0 <= j < order.len() && 0 <= k < order.len() && #[trigger] keyle(
                i,
                j,
            ) && #[trigger] keyle(j, k) ==> keyle(i, k),
        forall|t: int| 0 < t < order.len() ==> #[trigger] keyle(order[t - 1] as int, order[t] as int),
        row[order[0] as int] == 0,
        forall|t: int|
            0 < t < order.len() ==> row[#[trigger] order[t] as int] as int == row[order[t
                - 1] as int] as int + (if keyle(order[t] as int, order[t - 1] as int) {
                0int
            } else {
                1int
            }),
    ensures
        forall|i: int, j: int|
            0 <= i < row.len() && 0 <= j < row.len() ==> ((row[i] <= row[j]) <==> #[trigger] keyle(
                i,
                j,
            )),
        forall|i: int| 0 <= i < row.len() ==> (#[trigger] row[i]) < row.len(),
{
    let n = order.len() as int;
    assert forall|i: int, j: int|
        0 <= i < row.len() && 0 <= j < row.len() implies ((row[i] <= row[j]) <==> #[trigger] keyle(
        i,
        j,
    )) by {
        lemma_permutation_onto(order, i as usize);
        lemma_permutation_onto(order, j as usize);
        let a = choose|a: int| 0 <= a < n && order[a] == i as usize;
        let b = choose|b: int| 0 <= b < n && order[b] == j as usize;
        if a <= b {
            lemma_rank_walk(order, row, keyle, a, b);
        } else {
            lemma_rank_walk(order, row, keyle, b, a);
            if keyle(i, j) {
                assert(row[j] == row[i]);
            } else {
                assert(row[j] < row[i]);
            }
        }
    }
    assert forall|i: int| 0 <= i < row.len() implies (#[trigger] row[i]) < row.len() by {
        lemma_permutation_onto(order, i as usize);
        let a = choose|a: int| 0 <= a < n && order[a] == i as usize;
        lemma_rank_walk(order, row, keyle, 0, a);
    }
}

/// A row ordering positions by their single element is a rank row of
/// width one.
proof fn lemma_width1_row<T: OrdAlphabet>(s: Seq<T>, row: Seq<usize>)
    requires
        s.len() >= 1,
        row.len() == s.len(),
        forall|i: int| 0 <= i < row.len() ==> (#[trigger] row[i]) < row.len(),
        forall|i: int, j: int|
            0 <= i < s.len() && 0 <= j < s.len() ==> ((row[i] <= row[j]) <==> #[trigger] s[i].le(
                s[j],
            )),
    ensures
        rank_row_ok(s, row, 1),
{
    let n = s.len() as int;
    assert forall|i: int, j: int|
        #![trigger row[i], row[j]]
        0 <= i < row.len() && 0 <= j < row.len() implies ((row[i] <= row[j]) <==> lex_le(
        cyclic_sub(s, i, 1),
        cyclic_sub(s, j, 1),
    )) by {
        let a = cyclic_sub(s, i, 1);
        let b = cyclic_sub(s, j, 1);
        vstd::arithmetic::div_mod::lemma_small_mod(i as nat, s.len());
        vstd::arithmetic::div_mod::lemma_small_mod(j as nat, s.len());
        assert(a[0] == s[i] && b[0] == s[j]);
        if s[i] == s[j] {
            assert(a.drop_first().len() == 0);
            assert(lex_le(a.drop_first(), b.drop_first()));
            assert(lex_le(a, b));
            T::le_reflexive(s[i]);
        } else {
            assert(lex_le(a, b) == s[i].le(s[j]));
        }
        assert(s[i].le(s[j]) == (row[i] <= row[j]));
    }
}

/// A cyclic substring of doubled width splits into the two cyclic halves.
proof fn lemma_cyclic_split<T>(s: Seq<T>, i: int, w: nat)
    requires
        s.len() >= 1,
        0 <= i < s.len(),
        w <= s.len(),
    ensures
        cyclic_sub(s, i, 2 * w) == cyclic_sub(s, i, w) + cyclic_sub(
            s,
            (i + w) % (s.len() as int),
            w,
        ),
{
    let n = s.len() as int;
    let lhs = cyclic_sub(s, i, 2 * w);
    let rhs = cyclic_sub(s, i, w) + cyclic_sub(s, (i + w) % n, w);
    assert forall|k: int| 0 <= k < 2 * w implies lhs[k] == rhs[k] by {
        if k >= w {
            vstd::arithmetic::div_mod::lemma_small_mod((k - w) as nat, s.len());
            vstd::arithmetic::div_mod::lemma_add_mod_noop(i + w, k - w, n);
            assert(rhs[k] == s[((i + w) % n + (k - w)) % n]);
            assert(((i + w) % n + (k - w) % n) % n == (i + k) % n);
        }
    }
    assert(lhs =~= rhs);
}

/// A row ordering positions by the pair of half-block ranks is a rank row
/// of doubled width.
proof fn lemma_pair_row_ok<T: OrdAlphabet>(
    s: Seq<T>,
    last: Seq<usize>,
    k2: Seq<usize>,
    row: Seq<usize>,
    w: nat,
)
    requires
        rank_row_ok(s, last, w),
        1 <= w <= s.len(),
        k2.len() == s.len(),
        forall|i: int| 0 <= i < s.len() ==> #[trigger] k2[i] == last[(i + w) % (s.len() as int)],
        row.len() == s.len(),
        forall|i: int| 0 <= i < row.len() ==> (#[trigger] row[i]) < row.len(),
        forall|i: int, j: int|
            0 <= i < s.len() && 0 <= j < s.len() ==> ((row[i] <= row[j]) <==> #[trigger] pair_le(
                last,
                k2,
                i,
                j,
            )),
    ensures
        rank_row_ok(s, row, 2 * w),
{
    let n = s.len() as int;
    assert forall|i: int, j: int|
        #![trigger row[i], row[j]]
        0 <= i < row.len() && 0 <= j < row.len() implies ((row[i] <= row[j]) <==> lex_le(
        cyclic_sub(s, i, 2 * w),
        cyclic_sub(s, j, 2 * w),
    )) by {
        let i2 = (i + w) % n;
        let j2 = (j + w) % n;
        assert(0 <= i2 < n && 0 <= j2 < n);
        lemma_cyclic_split(s, i, w);
        lemma_cyclic_split(s, j, w);
        lemma_lex_concat(cyclic_sub(s, i, w), cyclic_sub(s, i2, w), cyclic_sub(s, j, w), cyclic_sub(s, j2, w));
        lemma_rank_eq_sub_eq(s, last, w, i, j);
        assert(k2[i] == last[i2] && k2[j] == last[j2]);
        assert((last[i] <= last[j]) <==> lex_le(cyclic_sub(s, i, w), cyclic_sub(s, j, w)));
        assert((last[i2] <= last[j2]) <==> lex_le(cyclic_sub(s, i2, w), cyclic_sub(s, j2, w)));
        assert((row[i] <= row[j]) <==> pair_le(last, k2, i, j));
        if cyclic_sub(s, i, w) == cyclic_sub(s, j, w) {
            assert(last[i] == last[j]);
        } else {
            assert(last[i] != last[j]);
            lemma_lex_total(cyclic_sub(s, i, w), cyclic_sub(s, j, w));
        }
    }
}

impl<T: OrdAlphabet> DBF<T> {
    /// Constructs the doubling rank table of a non-empty slice by dense
    /// rank assignment per level: level zero ranks single elements, and
    /// each following level combines each position's rank with the rank
    /// of its half-block-shifted partner.
    #[verifier::rlimit(100)]
    pub fn from(arr: &[T]) -> (d: Self)
        requires
            1 <= arr@.len() <= usize::MAX / 2,
        ensures
            d.wf(),
            d.seq() == arr@,
    {
        let n: usize = arr.len();
        let order: Vec<usize> = sort_positions(arr);
        let mut row: Vec<usize> = Vec::new();
        let mut z: usize = 0;
        while z < n
            invariant
                z <= n,
                row@.len() == z,
                forall|u: int| 0 <= u < z ==> (#[trigger] row@[u]) == 0,
            decreases n - z,
        {
            row.push(0);
            z = z + 1;
        }
        let mut t: usize = 1;
        while t < n
            invariant
                1 <= t <= n,
                n == arr@.len(),
                order@.len() == n,
                row@.len() == n,
                is_permutation(order@),
                forall|a: int, b: int|
                    0 <= a <= b < n ==> #[trigger] arr@[order@[a] as int].le(arr@[order@[b] as int]),
                row@[order@[0] as int] == 0,
                forall|u: int|
                    0 < u < t ==> row@[#[trigger] order@[u] as int] as int == row@[order@[u
                        - 1] as int] as int + (if arr@[order@[u] as int] == arr@[order@[u
                        - 1] as int] {
                        0int
                    } else {
                        1int
                    }),
                forall|u: int| 0 <= u < t ==> row@[#[trigger] order@[u] as int] <= u,
            decreases n - t,
        {
            let pc: usize = order[t];
            let pp: usize = order[t - 1];
            let same: bool = vstd::slice::slice_index_get(arr, pc).eq_elem(
                vstd::slice::slice_index_get(arr, pp),
            );
            let step: usize = if same {
                0
            } else {
                1
            };
            let ghost before = row@;
            let v: usize = row[pp] + step;
            row[pc] = v;
            proof {
                assert forall|u: int|
                    0 <= u < t implies before[#[trigger] order@[u] as int]
                    == row@[order@[u] as int] by {
                    assert(order@[u] != order@[t as int]);
                }
            }
            t = t + 1;
        }
        proof {
            let s = arr@;
            let keyle0 = |i: int, j: int| s[i].le(s[j]);
            assert forall|i: int| 0 <= i < n implies #[trigger] keyle0(i, i) by {
                T::le_reflexive(s[i]);
            }
            assert forall|i: int, j: int, k: int|
                0 <= i < n && 0 <= j < n && 0 <= k < n && #[trigger] keyle0(i, j)
                    && #[trigger] keyle0(j, k) implies keyle0(i, k) by {
                T::le_transitive(s[i], s[j], s[k]);
            }
            assert forall|u: int| 0 < u < n implies #[trigger] keyle0(
                order@[u - 1] as int,
                order@[u] as int,
            ) by {
                assert(arr@[order@[u - 1] as int].le(arr@[order@[u] as int]));
            }
            assert forall|u: int|
                0 < u < n implies row@[#[trigger] order@[u] as int] as int == row@[order@[u
                - 1] as int] as int + (if keyle0(order@[u] as int, order@[u - 1] as int) {
                0int
            } else {
                1int
            }) by {
                let cur = s[order@[u] as int];
                let prev = s[order@[u - 1] as int];
                assert(prev.le(cur));
                if cur == prev {
                    T::le_reflexive(cur);
                    assert(keyle0(order@[u] as int, order@[u - 1] as int));
                } else {
                    if keyle0(order@[u] as int, order@[u - 1] as int) {
                        T::le_antisymmetric(cur, prev);
                    }
                }
            }
            lemma_dense_ranks(order@, row@, keyle0);
            assert forall|i: int, j: int|
                0 <= i < n && 0 <= j < n implies ((row@[i] <= row@[j]) <==> #[trigger] s[i].le(
                s[j],
            )) by {
                assert(keyle0(i, j) == s[i].le(s[j]));
            }
            lemma_width1_row(s, row@);
            assert(two_pow(0) == 1);
        }
        let mut dbf: Vec<Vec<usize>> = Vec::new();
        dbf.push(row);
        let mut off: usize = 1;
        while off < n
            invariant
                1 <= n == arr@.len() <= usize::MAX / 2,
                dbf@.len() >= 1,
                1 <= off,
                off == two_pow((dbf@.len() - 1) as nat),
                off <= 2 * n,
                forall|h: int|
                    0 <= h < dbf@.len() ==> rank_row_ok(arr@, #[trigger] dbf@[h]@, two_pow(h as nat)),
            decreases 2 * n - off,
        {
            let levels: usize = dbf.len();
            let last: &Vec<usize> = &dbf[levels - 1];
            let ghost s = arr@;
            proof {
                assert(rank_row_ok(s, last@, two_pow((levels - 1) as nat)));
            }
            let mut k2: Vec<usize> = Vec::new();
            let mut i: usize = 0;
            while i < n
                invariant
                    i <= n,
                    1 <= n <= usize::MAX / 2,
                    off < n,
                    n == last@.len(),
                    k2@.len() == i,
                    forall|u: int| 0 <= u < last@.len() ==> (#[trigger] last@[u]) < last@.len(),
                    forall|u: int|
                        0 <= u < i ==> #[trigger] k2@[u] == last@[(u + off) % (n as int)],
                decreases n - i,
            {
                let x: usize = last[(i + off) % n];
                k2.push(x);
                i = i + 1;
            }
            let order: Vec<usize> = sort_positions_by_pairs(last, &k2);
            let mut row: Vec<usize> = Vec::new();
            let mut z: usize = 0;
            while z < n
                invariant
                    z <= n,
                    row@.len() == z,
                    forall|u: int| 0 <= u < z ==> (#[trigger] row@[u]) == 0,
                decreases n - z,
            {
                row.push(0);
                z = z + 1;
            }
            let mut t: usize = 1;
            while t < n
                invariant
                    1 <= t <= n,
                    n == last@.len() == k2@.len(),
                    order@.len() == n,
                    row@.len() == n,
                    is_permutation(order@),
                    forall|a: int, b: int|
                        0 <= a <= b < n ==> #[trigger] pair_le(
                            last@,
                            k2@,
                            order@[a] as int,
                            order@[b] as int,
                        ),
                    row@[order@[0] as int] == 0,
                    forall|u: int|
                        0 < u < t ==> row@[#[trigger] order@[u] as int] as int == row@[order@[u
                            - 1] as int] as int + (if last@[order@[u] as int] == last@[order@[u
                            - 1] as int] && k2@[order@[u] as int] == k2@[order@[u - 1] as int] {
                            0int
                        } else {
                            1int
                        }),
                    forall|u: int| 0 <= u < t ==> row@[#[trigger] order@[u] as int] <= u,
                decreases n - t,
            {
                let pc: usize = order[t];
                let pp: usize = order[t - 1];
                let same: bool = last[pc] == last[pp] && k2[pc] == k2[pp];
                let step: usize = if same {
                    0
                } else {
                    1
                };
                let ghost before = row@;
                let v: usize = row[pp] + step;
                row[pc] = v;
                proof {
                    assert forall|u: int|
                        0 <= u < t implies before[#[trigger] order@[u] as int]
                        == row@[order@[u] as int] by {
                        assert(order@[u] != order@[t as int]);
                    }
                }
                t = t + 1;
            }
            proof {
                let keylep = |i: int, j: int| pair_le(last@, k2@, i, j);
                assert forall|u: int|
                    0 < u < n implies row@[#[trigger] order@[u] as int] as int == row@[order@[u
                    - 1] as int] as int + (if keylep(order@[u] as int, order@[u - 1] as int) {
                    0int
                } else {
                    1int
                }) by {
                    let ci = order@[u] as int;
                    let pi = order@[u - 1] as int;
                    assert(pair_le(last@, k2@, pi, ci));
                    if last@[ci] == last@[pi] && k2@[ci] == k2@[pi] {
                        assert(keylep(ci, pi));
                    } else {
                        assert(!pair_le(last@, k2@, ci, pi));
                    }
                }
                assert forall|i: int| 0 <= i < n implies #[trigger] keylep(i, i) by {}
                assert forall|i: int, j: int, k: int|
                    0 <= i < n && 0 <= j < n && 0 <= k < n && #[trigger] keylep(i, j)
                        && #[trigger] keylep(j, k) implies keylep(i, k) by {}
                lemma_dense_ranks(order@, row@, keylep);
                assert forall|i: int, j: int|
                    0 <= i < n && 0 <= j < n implies ((row@[i] <= row@[j]) <==> #[trigger] pair_le(
                    last@,
                    k2@,
                    i,
                    j,
                )) by {
                    assert(keylep(i, j) == pair_le(last@, k2@, i, j));
                }
                lemma_pair_row_ok(s, last@, k2@, row@, off as nat);
                assert(2 * two_pow((levels - 1) as nat) == two_pow(levels as nat));
            }
            dbf.push(row);
            off = 2 * off;
        }
        let d = Self { n, dbf, seq: Ghost(arr@) };
        proof {
            assert(d.last_width() >= d.seq().len());
            assert forall|h: int| 0 <= h < d.levels() implies rank_row_ok(
                d.seq(),
                #[trigger] d.row(h),
                two_pow(h as nat),
            ) by {}
        }
        d
    }
}

/// The padded sequence: every element wrapped in `Some`, and a single
/// `None` sentinel appended.
spec fn is_padding_of<T>(p: Seq<Option<&T>>, s: Seq<T>) -> bool {
    &&& p.len() == s.len() + 1
    &&& forall|k: int| 0 <= k < s.len() ==> ((#[trigger] p[k]) matches Some(x) && *x == s[k])
    &&& p[s.len() as int] is None
}

/// For two genuine starting positions, the order of the padded cyclic
/// rotations is the order of the suffixes, and distinct positions give
/// distinct rotations.
proof fn lemma_rotation_order<T: OrdAlphabet>(
    p: Seq<Option<&T>>,
    s: Seq<T>,
    i: int,
    j: int,
    w: nat,
)
    requires
        is_padding_of(p, s),
        0 <= i < s.len(),
        0 <= j < s.len(),
        i != j,
        w >= p.len(),
    ensures
        lex_le(cyclic_sub(p, i, w), cyclic_sub(p, j, w)) == lex_le(s.skip(i), s.skip(j)),
        cyclic_sub(p, i, w) != cyclic_sub(p, j, w),
{
    let n = s.len() as int;
    let m = p.len() as int;
    let a = s.skip(i);
    let b = s.skip(j);
    let ra = cyclic_sub(p, i, w);
    let rb = cyclic_sub(p, j, w);
    lemma_common_prefix_len(a, b);
    let c = common_prefix_len(a, b) as int;
    assert forall|k: int| 0 <= k <= n - i implies ra[k] == p[i + k] by {
        vstd::arithmetic::div_mod::lemma_small_mod((i + k) as nat, p.len());
    }
    assert forall|k: int| 0 <= k <= n - j implies rb[k] == p[j + k] by {
        vstd::arithmetic::div_mod::lemma_small_mod((j + k) as nat, p.len());
    }
    assert forall|t: int| 0 <= t < c implies ra[t] == rb[t] by {
        assert(a[t] == b[t]);
        assert(s[i + t] == s[j + t]);
        assert(ra[t] == p[i + t] && rb[t] == p[j + t]);
    }
    if c < n - i && c < n - j {
        assert(a[c] != b[c]);
        assert(ra[c] == p[i + c] && rb[c] == p[j + c]);
        assert(ra[c] != rb[c]);
        lemma_common_prefix_len_exact(ra, rb, c);
        lemma_lex_by_cpl(ra, rb);
        lemma_lex_by_cpl(a, b);
        assert(lex_le(ra, rb) == ra[c].le(rb[c]));
        assert(ra[c].le(rb[c]) == s[i + c].le(s[j + c]));
        if ra == rb {
            assert(ra[c] == rb[c]);
        }
    } else if c == n - i {
        assert(c < n - j);
        assert(ra[c] == p[i + c]);
        assert(p[n] is None);
        assert(ra[c] is None);
        assert(rb[c] == p[j + c]);
        assert(rb[c] matches Some(_));
        assert(ra[c] != rb[c]);
        lemma_common_prefix_len_exact(ra, rb, c);
        lemma_lex_by_cpl(ra, rb);
        lemma_lex_by_cpl(a, b);
        assert(lex_le(ra, rb) == ra[c].le(rb[c]));
        assert(ra[c].le(rb[c]));
        assert(lex_le(a, b));
        if ra == rb {
            assert(ra[c] == rb[c]);
        }
    } else {
        assert(c == n - j && c < n - i);
        assert(rb[c] == p[j + c]);
        assert(rb[c] is None);
        assert(ra[c] == p[i + c]);
        assert(ra[c] matches Some(_));
        assert(ra[c] != rb[c]);
        lemma_common_prefix_len_exact(ra, rb, c);
        lemma_lex_by_cpl(ra, rb);
        lemma_lex_by_cpl(a, b);
        assert(lex_le(ra, rb) == ra[c].le(rb[c]));
        assert(!ra[c].le(rb[c]));
        assert(!lex_le(a, b));
        if ra == rb {
            assert(ra[c] == rb[c]);
        }
    }
}

/// The sentinel's own rotation compares strictly below every genuine
/// rotation.
proof fn lemma_sentinel_minimal<T: OrdAlphabet>(p: Seq<Option<&T>>, s: Seq<T>, j: int, w: nat)
    requires
        is_padding_of(p, s),
        0 <= j < s.len(),
        w >= p.len(),
    ensures
        lex_le(cyclic_sub(p, s.len() as int, w), cyclic_sub(p, j, w)),
        cyclic_sub(p, s.len() as int, w) != cyclic_sub(p, j, w),
{
    let n = s.len() as int;
    let ra = cyclic_sub(p, n, w);
    let rb = cyclic_sub(p, j, w);
    assert(ra[0] == p[n]) by {
        vstd::arithmetic::div_mod::lemma_small_mod(n as nat, p.len());
    }
    assert(rb[0] == p[j]) by {
        vstd::arithmetic::div_mod::lemma_small_mod(j as nat, p.len());
    }
    assert(ra[0] is None);
    assert(rb[0] matches Some(_));
    assert(ra[0] != rb[0]);
    lemma_common_prefix_len_exact(ra, rb, 0);
    lemma_lex_by_cpl(ra, rb);
    assert(lex_le(ra, rb) == ra[0].le(rb[0]));
    if ra == rb {
        assert(ra[0] == rb[0]);
    }
}

/// Adjacent suffix order extends to any two positions of the array.
proof fn lemma_sorted_chain<T: OrdAlphabet>(s: Seq<T>, sa: Seq<usize>, i: int, j: int)
    requires
        forall|t: int| 0 <= t < sa.len() ==> (#[trigger] sa[t]) < s.len(),
        forall|t: int|
            0 <= t < sa.len() - 1 ==> lex_le(
                s.skip(#[trigger] sa[t] as int),
                s.skip(sa[t + 1] as int),
            ),
        0 <= i <= j < sa.len(),
    ensures
        lex_le(s.skip(sa[i] as int), s.skip(sa[j] as int)),
    decreases j - i,
{
    if i == j {
        lemma_lex_refl(s.skip(sa[i] as int));
    } else {
        lemma_sorted_chain(s, sa, i, j - 1);
        assert(lex_le(s.skip(sa[j - 1] as int), s.skip(sa[j] as int)));
        lemma_lex_trans(s.skip(sa[i] as int), s.skip(sa[j - 1] as int), s.skip(sa[j] as int));
    }
}

/// Constructs the suffix array of a slice: the permutation of the
/// starting positions that sorts the suffixes lexicographically.
///
/// Builds the rank table over the sentinel-padded sequence and inverts
/// its last row, dropping the sentinel's own rotation.
pub fn suffix_array<T: OrdAlphabet>(arr: &[T]) -> (sa: Vec<usize>)
    requires
        arr@.len() + 1 <= usize::MAX / 2,
    ensures
        sa@.len() == arr@.len(),
        is_permutation(sa@),
        forall|t: int|
            0 <= t < sa@.len() - 1 ==> lex_le(
                arr@.skip(#[trigger] sa@[t] as int),
                arr@.skip(sa@[t + 1] as int),
            ),
{
    let n: usize = arr.len();
    let ghost s = arr@;
    let mut padded: Vec<Option<&T>> = Vec::new();
    let mut i: usize = 0;
    while i < n
        invariant
            i <= n,
            n == arr@.len(),
            padded@.len() == i,
            forall|k: int| 0 <= k < i ==> ((#[trigger] padded@[k]) matches Some(x) && *x == arr@[k]),
        decreases n - i,
    {
        padded.push(Some(vstd::slice::slice_index_get(arr, i)));
        i = i + 1;
    }
    padded.push(None);
    proof {
        assert(is_padding_of(padded@, s));
    }
    let dbf: DBF<Option<&T>> = DBF::from(padded.as_slice());
    let row: Vec<usize> = dbf.last_row();
    let ghost p = padded@;
    let ghost m = n + 1 as int;
    let ghost w = dbf.last_width();
    proof {
        assert(row@.len() == m);
        // distinct ranks: distinct rotations have distinct ranks
        assert forall|q1: int, q2: int|
            0 <= q1 < m && 0 <= q2 < m && q1 != q2 implies row@[q1] != row@[q2] by {
            lemma_rank_eq_sub_eq(p, row@, w, q1, q2);
            if q1 < n && q2 < n {
                lemma_rotation_order(p, s, q1, q2, w);
            } else if q1 == n {
                lemma_sentinel_minimal(p, s, q2, w);
            } else {
                lemma_sentinel_minimal(p, s, q1, w);
            }
        }
        assert(is_permutation(row@));
        // the sentinel rotation has rank zero
        lemma_permutation_onto(row@, 0);
        let q0 = choose|q0: int| 0 <= q0 < m && row@[q0] == 0;
        if q0 != n {
            lemma_sentinel_minimal(p, s, q0, w);
            assert(row@[n as int] <= row@[q0]);
            assert(row@[n as int] != row@[q0]);
        }
        assert(row@[n as int] == 0);
    }
    let mut sa: Vec<usize> = Vec::new();
    let mut z: usize = 0;
    while z < n
        invariant
            z <= n,
            sa@.len() == z,
        decreases n - z,
    {
        sa.push(0);
        z = z + 1;
    }
    let mut q: usize = 0;
    while q < n + 1
        invariant
            q <= n + 1,
            n + 1 <= usize::MAX / 2,
            sa@.len() == n,
            row@.len() == n + 1,
            is_permutation(row@),
            row@[n as int] == 0,
            forall|u: int| 0 <= u < q && row@[u] != 0 ==> sa@[row@[u] - 1] == u,
        decreases n + 1 - q,
    {
        let x: usize = row[q];
        if x != 0 {
            sa[x - 1] = q;
            proof {
                assert forall|u: int| 0 <= u < q + 1 && row@[u] != 0 implies sa@[row@[u] - 1]
                    == u by {
                    if u < q {
                        assert(row@[u] != row@[q as int]);
                    }
                }
            }
        }
        q = q + 1;
    }
    proof {
        assert forall|t: int| 0 <= t < n implies (#[trigger] sa@[t]) < n && row@[sa@[t] as int] == t
            + 1 by {
            lemma_permutation_onto(row@, (t + 1) as usize);
            let u = choose|u: int| 0 <= u < row@.len() && row@[u] == t + 1;
            assert(sa@[row@[u] - 1] == u);
            assert(u != n);
        }
        assert(is_permutation(sa@)) by {
            assert forall|t1: int, t2: int|
                0 <= t1 < n && 0 <= t2 < n && t1 != t2 implies sa@[t1] != sa@[t2] by {
                assert(row@[sa@[t1] as int] == t1 + 1);
                assert(row@[sa@[t2] as int] == t2 + 1);
            }
        }
        assert forall|t: int|
            0 <= t < n - 1 implies lex_le(
            s.skip(#[trigger] sa@[t] as int),
            s.skip(sa@[t + 1] as int),
        ) by {
            let q1 = sa@[t] as int;
            let q2 = sa@[t + 1] as int;
            assert(row@[q1] == t + 1 && row@[q2] == t + 2);
            assert(row@[q1] <= row@[q2]);
            assert(lex_le(cyclic_sub(p, q1, w), cyclic_sub(p, q2, w)));
            lemma_rotation_order(p, s, q1, q2, w);
        }
    }
    sa
}

/// Unfolding the longest common prefix of two suffixes by one element.
proof fn lemma_cpl_suffix_step<T>(s: Seq<T>, i: int, j: int)
    requires
        0 <= i < s.len(),
        0 <= j < s.len(),
    ensures
        s[i] == s[j] ==> common_prefix_len(s.skip(i), s.skip(j)) == 1 + common_prefix_len(
            s.skip(i + 1),
            s.skip(j + 1),
        ),
        s[i] != s[j] ==> common_prefix_len(s.skip(i), s.skip(j)) == 0,
{
    let a = s.skip(i);
    let b = s.skip(j);
    assert(a[0] == s[i] && b[0] == s[j]);
    assert(a.drop_first() =~= s.skip(i + 1));
    assert(b.drop_first() =~= s.skip(j + 1));
}

/// The first elements of lexicographically ordered sequences are ordered,
/// and equal first elements pass the order to the tails.
proof fn lemma_lex_head_tail<T: OrdAlphabet>(a: Seq<T>, b: Seq<T>)
    requires
        lex_le(a, b),
        a.len() > 0,
        b.len() > 0,
    ensures
        a[0].le(b[0]),
        a[0] == b[0] ==> lex_le(a.drop_first(), b.drop_first()),
{
    if a[0] == b[0] {
        T::le_reflexive(a[0]);
    }
}

/// Between ordered sequences, the common prefix with a farther sequence
/// is no longer than with a nearer one.
proof fn lemma_cpl_monotone<T: OrdAlphabet>(u: Seq<T>, v: Seq<T>, w: Seq<T>)
    requires
        lex_le(u, v),
        lex_le(v, w),
    ensures
        common_prefix_len(u, w) <= common_prefix_len(u, v),
    decreases u.len(),
{
    let c = common_prefix_len(u, w);
    if c > 0 {
        assert(u.len() > 0 && w.len() > 0 && u[0] == w[0]);
        if v.len() == 0 {
            assert(u.len() == 0);
        } else {
            lemma_lex_head_tail(u, v);
            lemma_lex_head_tail(v, w);
            T::le_antisymmetric(u[0], v[0]);
            assert(v[0] == u[0]);
            lemma_cpl_monotone(u.drop_first(), v.drop_first(), w.drop_first());
            assert(common_prefix_len(u, v) == 1 + common_prefix_len(
                u.drop_first(),
                v.drop_first(),
            ));
        }
    }
}

/// Extends an already matched prefix length of the suffixes at `i` and
/// `j` to the full length of their longest common prefix.
fn extend_match<T: OrdAlphabet>(arr: &[T], i: usize, j: usize, k0: usize) -> (k: usize)
    requires
        i < arr@.len(),
        j < arr@.len(),
        k0 <= common_prefix_len(arr@.skip(i as int), arr@.skip(j as int)),
    ensures
        k == common_prefix_len(arr@.skip(i as int), arr@.skip(j as int)),
{
    let ghost s = arr@;
    let n: usize = arr.len();
    let mut k: usize = k0;
    proof {
        lemma_common_prefix_len(s.skip(i as int), s.skip(j as int));
        assert forall|u: int| 0 <= u < k implies s[i + u] == #[trigger] s[j + u] by {
            assert(s.skip(i as int)[u] == s.skip(j as int)[u]);
        }
    }
    while i + k < n && j + k < n && slice_eq_at(arr, i + k, j + k)
        invariant
            i < n,
            j < n,
            n == arr@.len(),
            s == arr@,
            k <= n - i,
            k <= n - j,
            forall|u: int| 0 <= u < k ==> s[i + u] == #[trigger] s[j + u],
        decreases n - k,
    {
        k = k + 1;
    }
    proof {
        assert forall|u: int| 0 <= u < k implies s.skip(i as int)[u] == s.skip(j as int)[u] by {
            assert(s[i + u] == s[j + u]);
        }
        lemma_common_prefix_len_exact(s.skip(i as int), s.skip(j as int), k as int);
    }
    k
}

/// Kasai's carry step: dropping the first element of a position and of
/// its successor suffix loses at most one matched element against the
/// new position's own successor.
proof fn lemma_kasai_carry<T: OrdAlphabet>(
    s: Seq<T>,
    sa: Seq<usize>,
    inv: Seq<usize>,
    i: int,
    j: int,
    kex: int,
)
    requires
        sa.len() == s.len(),
        inv.len() == s.len(),
        is_permutation(sa),
        forall|u: int| 0 <= u < sa.len() ==> inv[#[trigger] sa[u] as int] == u,
        forall|x: int| 0 <= x < sa.len() ==> (#[trigger] inv[x]) < sa.len() && sa[inv[x] as int] == x,
        forall|u: int|
            0 <= u < sa.len() - 1 ==> lex_le(s.skip(#[trigger] sa[u] as int), s.skip(sa[u + 1] as int)),
        0 <= i,
        i + 1 < s.len(),
        inv[i + 1] < s.len() - 1,
        0 <= j < s.len(),
        j != i,
        kex >= 2,
        kex == common_prefix_len(s.skip(i), s.skip(j)),
        lex_le(s.skip(i), s.skip(j)),
    ensures
        kex - 1 <= common_prefix_len(s.skip(i + 1), s.skip(sa[inv[i + 1] + 1] as int)),
{
    let n = s.len() as int;
    let j2 = j + 1;
    lemma_common_prefix_len(s.skip(i), s.skip(j));
    assert(j2 < n) by {
        assert(kex <= s.skip(j).len());
    }
    assert(s[i] == s[j]) by {
        assert(s.skip(i)[0] == s[i] && s.skip(j)[0] == s[j]);
        assert(s.skip(i)[0] == s.skip(j)[0]);
    }
    lemma_cpl_suffix_step(s, i, j);
    assert(common_prefix_len(s.skip(i + 1), s.skip(j2)) == kex - 1);
    assert(lex_le(s.skip(i + 1), s.skip(j2))) by {
        lemma_lex_head_tail(s.skip(i), s.skip(j));
        assert(s.skip(i).drop_first() =~= s.skip(i + 1));
        assert(s.skip(j).drop_first() =~= s.skip(j2));
    }
    let ri = inv[i + 1] as int;
    let rj = inv[j2] as int;
    assert(sa[ri] == i + 1 && sa[rj] == j2);
    assert(ri != rj);
    if rj < ri {
        lemma_sorted_chain(s, sa, rj, ri);
        lemma_lex_antisym(s.skip(j2), s.skip(i + 1));
        assert(s.skip(j2).len() == s.skip(i + 1).len());
        assert(false);
    }
    let mid = sa[ri + 1] as int;
    lemma_sorted_chain(s, sa, ri + 1, rj);
    assert(lex_le(s.skip(mid), s.skip(j2)));
    assert(lex_le(s.skip(i + 1), s.skip(mid))) by {
        assert(sa[ri] == i + 1);
    }
    lemma_cpl_monotone(s.skip(i + 1), s.skip(mid), s.skip(j2));
}

/// Constructs the suffix array of a slice together with its LCP array:
/// `lcp[0] = 0`, and for `t >= 1`, `lcp[t]` is the length of the longest
/// common prefix of the suffixes at `sa[t - 1]` and `sa[t]`.
///
/// Uses the previous position's matched length to avoid rescanning.
#[verifier::rlimit(100)]
pub fn lcp<T: OrdAlphabet>(arr: &[T]) -> (r: (Vec<usize>, Vec<usize>))
    requires
        arr@.len() + 1 <= usize::MAX / 2,
    ensures
        r.0@.len() == arr@.len(),
        r.1@.len() == arr@.len(),
        is_permutation(r.0@),
        forall|t: int|
            0 <= t < r.0@.len() - 1 ==> lex_le(
                arr@.skip(#[trigger] r.0@[t] as int),
                arr@.skip(r.0@[t + 1] as int),
            ),
        arr@.len() > 0 ==> r.1@[0] == 0,
        forall|t: int|
            1 <= t < arr@.len() ==> r.1@[t] == common_prefix_len(
                arr@.skip(#[trigger] r.0@[t - 1] as int),
                arr@.skip(r.0@[t] as int),
            ),
{
    let n: usize = arr.len();
    let ghost s = arr@;
    let sa: Vec<usize> = suffix_array(arr);
    let mut inv: Vec<usize> = Vec::new();
    let mut z: usize = 0;
    while z < n
        invariant
            z <= n,
            inv@.len() == z,
        decreases n - z,
    {
        inv.push(0);
        z = z + 1;
    }
    let mut t: usize = 0;
    while t < n
        invariant
            t <= n,
            n == arr@.len(),
            sa@.len() == n,
            inv@.len() == n,
            is_permutation(sa@),
            forall|u: int| 0 <= u < t ==> inv@[#[trigger] sa@[u] as int] == u,
        decreases n - t,
    {
        let pos: usize = sa[t];
        inv[pos] = t;
        proof {
            assert forall|u: int| 0 <= u < t + 1 implies inv@[#[trigger] sa@[u] as int] == u by {
                if u < t {
                    assert(sa@[u] != sa@[t as int]);
                }
            }
        }
        t = t + 1;
    }
    proof {
        assert forall|x: int| 0 <= x < n implies (#[trigger] inv@[x]) < n && sa@[inv@[x] as int]
            == x by {
            lemma_permutation_onto(sa@, x as usize);
            let u = choose|u: int| 0 <= u < n && sa@[u] == x as usize;
            assert(inv@[sa@[u] as int] == u);
        }
    }
    let mut lcparr: Vec<usize> = Vec::new();
    let mut z2: usize = 0;
    while z2 < n
        invariant
            z2 <= n,
            lcparr@.len() == z2,
            forall|u: int| 0 <= u < z2 ==> (#[trigger] lcparr@[u]) == 0,
        decreases n - z2,
    {
        lcparr.push(0);
        z2 = z2 + 1;
    }
    let mut k: usize = 0;
    let mut i: usize = 0;
    while i < n
        invariant
            i <= n,
            n == arr@.len(),
            s == arr@,
            n + 1 <= usize::MAX / 2,
            sa@.len() == n,
            inv@.len() == n,
            lcparr@.len() == n,
            is_permutation(sa@),
            forall|u: int| 0 <= u < n ==> inv@[#[trigger] sa@[u] as int] == u,
            forall|x: int| 0 <= x < n ==> (#[trigger] inv@[x]) < n && sa@[inv@[x] as int] == x,
            forall|u: int|
                0 <= u < n - 1 ==> lex_le(
                    s.skip(#[trigger] sa@[u] as int),
                    s.skip(sa@[u + 1] as int),
                ),
            n > 0 ==> lcparr@[0] == 0,
            i < n && inv@[i as int] < n - 1 ==> k <= common_prefix_len(
                s.skip(i as int),
                s.skip(sa@[inv@[i as int] + 1] as int),
            ),
            k <= n,
            forall|u: int|
                1 <= u < n && (#[trigger] sa@[u - 1]) < i ==> lcparr@[u] == common_prefix_len(
                    s.skip(sa@[u - 1] as int),
                    s.skip(sa@[u] as int),
                ),
            forall|u: int|
                1 <= u < n && sa@[u - 1] >= i ==> (#[trigger] lcparr@[u]) == 0,
        decreases n - i,
    {
        let rank: usize = inv[i];
        if rank == n - 1 {
            k = 0;
        } else {
            let j: usize = sa[rank + 1];
            proof {
                assert(sa@[rank as int] == i);
                assert(j != i);
            }
            k = extend_match(arr, i, j, k);
            proof {
                lemma_common_prefix_len(s.skip(i as int), s.skip(j as int));
            }
            let slot: usize = rank + 1;
            let ghost before = lcparr@;
            lcparr[slot] = k;
            proof {
                assert forall|u: int|
                    1 <= u < n && (#[trigger] sa@[u - 1]) < i + 1 implies lcparr@[u]
                    == common_prefix_len(s.skip(sa@[u - 1] as int), s.skip(sa@[u] as int)) by {
                    if sa@[u - 1] < i {
                        assert(u != slot);
                        assert(lcparr@[u] == before[u]);
                    } else {
                        assert(sa@[u - 1] == i);
                        assert(inv@[sa@[u - 1] as int] == u - 1);
                        assert(u == slot);
                    }
                }
                assert forall|u: int|
                    1 <= u < n && sa@[u - 1] >= i + 1 implies (#[trigger] lcparr@[u]) == 0 by {
                    assert(u != slot);
                }
            }
            // carry the matched length, shortened by one, to the next position
            let ghost kex = k as int;
            if k > 0 {
                k = k - 1;
            }
            proof {
                if i + 1 < n && inv@[i + 1] < n - 1 && kex >= 2 {
                    assert(lex_le(s.skip(i as int), s.skip(j as int))) by {
                        assert(sa@[rank as int] == i);
                    }
                    lemma_kasai_carry(s, sa@, inv@, i as int, j as int, kex);
                }
            }
        }
        i = i + 1;
    }
    (sa, lcparr)
}

/// Tests whether the elements of `arr` at indices `a` and `b` are equal.
fn slice_eq_at<T: EqAlphabet>(arr: &[T], a: usize, b: usize) -> (r: bool)
    requires
        a < arr@.len(),
        b < arr@.len(),
    ensures
        r == (arr@[a as int] == arr@[b as int]),
{
    vstd::slice::slice_index_get(arr, a).eq_elem(vstd::slice::slice_index_get(arr, b))
}

} // verus!
