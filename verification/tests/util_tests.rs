use cp_library::binsearch::{first_none, first_some, first_true};
use cp_library::ds::segtree::SegTree;
use cp_library::ds::coord_comp::CoordinateCompressor;
use cp_library::ds::sorted_vec::SortedVec;
use cp_library::math::algebra::{Group, Magma, Monoid};
use cp_library::math::nt::{gcd, lcm, IsZero};

#[test]
fn first_true_finds_threshold() {
    let check = |val: i64| val > 6;
    assert_eq!(first_true(-5i64, 15, check), 7);
    assert_eq!(first_true(-5i64, 5, check), 5);
    assert_eq!(first_true(0usize, 10, |v: usize| v >= 3), 3);
}

#[test]
fn first_some_finds_threshold_with_witness() {
    let check = |val: i64| if val * val > 6 { Some(val * val) } else { None };
    assert_eq!(first_some(0i64, 15, check), (3, Some(9)));
    assert_eq!(first_some(0i64, 2, check), (2, None));
}

#[test]
fn first_none_finds_threshold_with_last_witness() {
    let check = |val: i64| if val * val < 6 { Some(val * val) } else { None };
    assert_eq!(first_none(0i64, 15, check), (3, Some(4)));
    assert_eq!(first_none(5i64, 15, check), (5, None));
}

#[test]
fn gcd_and_lcm() {
    assert_eq!(gcd(120, 42), 6);
    assert_eq!(lcm(120, 42), 840);
    assert_eq!(gcd(0, 5), 5);
    assert_eq!(gcd(5, 0), 5);
    assert_eq!(gcd(7, 13), 1);
    assert_eq!(lcm(4, 6), 12);
}

#[test]
fn is_zero_on_integers() {
    assert!(0u64.is_zero());
    assert!(!3u64.is_zero());
    assert!(0i64.is_zero());
    assert!(!(-2i64).is_zero());
    assert!(0usize.is_zero());
}

#[test]
fn sorted_vec_from_sorted_slice() {
    let arr = SortedVec::from_sorted_slice(&[1u8, 2, 2, 3]);
    assert_eq!(arr.len(), 4);
    assert_eq!(arr.get(0), 1);
    assert_eq!(arr.get(2), 2);
}

#[test]
fn sorted_vec_from_vec_sorts() {
    let arr = SortedVec::from_vec(vec![2u8, 3, 1]);
    assert_eq!(arr.len(), 3);
    assert_eq!((arr.get(0), arr.get(1), arr.get(2)), (1, 2, 3));
}

#[test]
fn sorted_vec_make_unique() {
    let mut arr = SortedVec::from_vec(vec![1u8, 2, 2, 3, 4, 4]);
    arr.make_unique();
    assert_eq!(arr.len(), 4);
    assert_eq!(
        (arr.get(0), arr.get(1), arr.get(2), arr.get(3)),
        (1, 2, 3, 4)
    );
}

#[test]
fn sorted_vec_bounds() {
    let arr = SortedVec::from_vec(vec![1u8, 2, 2, 3, 4, 4]);
    assert_eq!(arr.lower_bound(&4), 4);
    assert_eq!(arr.lower_bound(&5), 6);
    assert_eq!(arr.upper_bound(&2), 3);
    assert_eq!(arr.upper_bound(&5), 6);
    let empty = SortedVec::from_vec(Vec::<u8>::new());
    assert_eq!(empty.lower_bound(&1), 0);
    assert_eq!(empty.upper_bound(&1), 0);
}

#[test]
fn coordinate_compressor_round_trip() {
    let comp = CoordinateCompressor::from_coords(vec![100usize, 200, 300]);
    assert_eq!(comp.size(), 3);
    assert_eq!(comp.compress(&200), 1);
    assert_eq!(comp.decompress(2), 300);
    for (rank, coord) in [(0, 100), (1, 200), (2, 300)] {
        assert_eq!(comp.compress(&comp.decompress(rank)), rank);
        assert_eq!(comp.decompress(comp.compress(&coord)), coord);
    }
}

#[test]
fn coordinate_compressor_collapses_duplicates() {
    let comp = CoordinateCompressor::from_coords(vec![5usize, 1, 5, 3, 1]);
    assert_eq!(comp.size(), 3);
    assert_eq!(comp.compress(&1), 0);
    assert_eq!(comp.compress(&3), 1);
    assert_eq!(comp.compress(&5), 2);
}

#[test]
fn segtree_query_and_update() {
    let mut x = SegTree::from(&[1i64, 2, 3, 4]);
    assert_eq!(x.query(1, 3), 5);
    x.update(2, &4);
    assert_eq!(x.query(1, 3), 6);
    assert_eq!(x.query(0, 4), 11);
    assert_eq!(x.query(2, 2), 0);
}

#[test]
fn segtree_new_is_all_identity() {
    let x: SegTree<i64> = SegTree::new(10);
    assert_eq!(x.query(0, 10), 0);
    assert_eq!(x.query(3, 7), 0);
}

#[test]
fn segtree_matches_prefix_sums() {
    let vals: Vec<i64> = vec![5, -2, 7, 0, 3, 3, -9, 1, 4];
    let tree = SegTree::from(&vals);
    for l in 0..=vals.len() {
        for r in l..=vals.len() {
            let expect: i64 = vals[l..r].iter().sum();
            assert_eq!(tree.query(l, r), expect, "range {l}..{r}");
        }
    }
}

#[test]
fn segtree_of_options() {
    let vals: Vec<Option<i64>> = vec![None, Some(2), Some(3), None];
    let tree = SegTree::from(&vals);
    assert_eq!(tree.query(0, 4), Some(5));
    assert_eq!(tree.query(0, 1), None);
    assert_eq!(tree.query(1, 2), Some(2));
}

#[test]
fn algebra_on_integers() {
    assert_eq!(3i64.op(4), 7);
    assert_eq!(<i64 as Monoid>::id(), 0);
    assert_eq!(5i64.inv(), -5);
    assert_eq!(3u64.op(4), 7);
    assert_eq!(<u64 as Monoid>::id(), 0);
}
