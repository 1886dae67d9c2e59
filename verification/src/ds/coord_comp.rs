//! Coordinate compression over a totally ordered alphabet.

use vstd::prelude::*;

use crate::ds::sorted_vec::{sorted_strict, SortedVec};
use crate::order::OrdAlphabet;

verus! {

/// A sorted, duplicate-free list of coordinates, mapping each coordinate
/// to its rank and back.
pub struct CoordinateCompressor<T> {
    coords: SortedVec<T>,
}

impl<T> View for CoordinateCompressor<T> {
    type V = Seq<T>;

    closed spec fn view(&self) -> Seq<T> {
        self.coords@
    }
}

impl<T> CoordinateCompressor<T> where T: OrdAlphabet + Copy {
    /// The stored coordinates are strictly sorted.
    pub open spec fn wf(self) -> bool {
        sorted_strict(self@)
    }

    /// Creates a compressor from a list of coordinates.
    ///
    /// The compressor holds each distinct coordinate of the list once, in
    /// increasing order.
    pub fn from_coords(coords: Vec<T>) -> (c: Self)
        ensures
            c.wf(),
            c@.to_set() == coords@.to_set(),
    {
        let ghost orig = coords@;
        let mut sorted: SortedVec<T> = SortedVec::from_vec(coords);
        proof {
            sorted@.to_multiset_ensures();
            orig.to_multiset_ensures();
            assert(sorted@.to_set() =~= orig.to_set()) by {
                assert forall|y: T| #[trigger] sorted@.to_set().contains(y)
                    == orig.to_set().contains(y) by {
                    assert(sorted@.contains(y) == (sorted@.to_multiset().count(y) > 0));
                    assert(orig.contains(y) == (orig.to_multiset().count(y) > 0));
                }
            }
        }
        sorted.make_unique();
        Self { coords: sorted }
    }

    /// Number of stored coordinates.
    pub fn size(&self) -> (n: usize)
        ensures
            n == self@.len(),
    {
        self.coords.len()
    }

    /// Compresses a coordinate to its rank among the stored coordinates.
    ///
    /// The coordinate must be one of those the compressor was built from.
    pub fn compress(&self, coord: &T) -> (rank: usize)
        requires
            self.wf(),
            self@.contains(*coord),
            self@.len() <= usize::MAX / 2,
        ensures
            rank < self@.len(),
            self@[rank as int] == *coord,
    {
        proof {
            assert forall|a: int, b: int| 0 <= a <= b < self@.len() implies #[trigger] self@[a].le(
                self@[b],
            ) by {
                if a == b {
                    T::le_reflexive(self@[a]);
                }
            }
        }
        let rank: usize = self.coords.lower_bound(coord);
        proof {
            let t = choose|t: int| 0 <= t < self@.len() && self@[t] == *coord;
            T::le_reflexive(*coord);
            assert(coord.le(self@[t]));
            assert(t >= rank);
            if rank < t {
                assert(self@[rank as int].le(self@[t]));
                T::le_antisymmetric(*coord, self@[rank as int]);
            }
        }
        rank
    }

    /// Decompresses a rank back to the coordinate it stands for.
    pub fn decompress(&self, rank: usize) -> (coord: T)
        requires
            rank < self@.len(),
        ensures
            coord == self@[rank as int],
    {
        self.coords.get(rank)
    }
}

} // verus!
