use cp_library::string::{lcp, suffix_array, z_array, DBF};

fn brute_z(s: &[u8]) -> Vec<usize> {
    let n = s.len();
    let mut z = vec![0; n];
    if n == 0 {
        return z;
    }
    z[0] = n;
    for i in 1..n {
        let mut k = 0;
        while i + k < n && s[i + k] == s[k] {
            k += 1;
        }
        z[i] = k;
    }
    z
}

fn brute_suffix_array(s: &[u8]) -> Vec<usize> {
    let mut sa: Vec<usize> = (0..s.len()).collect();
    sa.sort_by(|&a, &b| s[a..].cmp(&s[b..]));
    sa
}

fn brute_lcp_len(a: &[u8], b: &[u8]) -> usize {
    let mut k = 0;
    while k < a.len() && k < b.len() && a[k] == b[k] {
        k += 1;
    }
    k
}

#[test]
fn z_array_anananasso() {
    let z = z_array("anananasso".as_bytes());
    assert_eq!(z, vec![10, 0, 5, 0, 3, 0, 1, 0, 0, 0]);
}

#[test]
fn z_array_empty_and_single() {
    assert_eq!(z_array::<u8>(&[]), Vec::<usize>::new());
    assert_eq!(z_array(&[42u8]), vec![1]);
}

#[test]
fn z_array_matches_brute_force() {
    for s in ["abacabadabacaba", "aaaaaa", "abcabcab", "banana", "ba"] {
        assert_eq!(z_array(s.as_bytes()), brute_z(s.as_bytes()), "input {s}");
    }
}

#[test]
fn suffix_array_banana() {
    assert_eq!(suffix_array("banana".as_bytes()), vec![5, 3, 1, 0, 4, 2]);
}

#[test]
fn suffix_array_edge_cases() {
    assert_eq!(suffix_array::<u8>(&[]), Vec::<usize>::new());
    assert_eq!(suffix_array(&[9u8]), vec![0]);
    assert_eq!(suffix_array("aaaa".as_bytes()), vec![3, 2, 1, 0]);
}

#[test]
fn suffix_array_is_sorted_permutation() {
    for s in ["mississippi", "abracadabra", "aabbaabb", "zyxwv"] {
        let b = s.as_bytes();
        let sa = suffix_array(b);
        let mut seen = vec![false; b.len()];
        for &p in &sa {
            assert!(p < b.len());
            assert!(!seen[p], "duplicate start in suffix array of {s}");
            seen[p] = true;
        }
        for w in sa.windows(2) {
            assert!(b[w[0]..] <= b[w[1]..], "order violated for {s}");
        }
        assert_eq!(sa, brute_suffix_array(b), "input {s}");
    }
}

#[test]
fn lcp_banana() {
    let (sa, lcp_arr) = lcp("banana".as_bytes());
    assert_eq!(sa, vec![5, 3, 1, 0, 4, 2]);
    assert_eq!(lcp_arr, vec![0, 1, 3, 0, 0, 2]);
}

#[test]
fn lcp_matches_brute_force() {
    for s in ["mississippi", "abracadabra", "aaaaaa", "abcdefgh"] {
        let b = s.as_bytes();
        let (sa, lcp_arr) = lcp(b);
        assert_eq!(lcp_arr.len(), b.len());
        if !b.is_empty() {
            assert_eq!(lcp_arr[0], 0);
        }
        for t in 1..b.len() {
            assert_eq!(
                lcp_arr[t],
                brute_lcp_len(&b[sa[t - 1]..], &b[sa[t]..]),
                "input {s} index {t}"
            );
        }
    }
}

#[test]
fn lcp_edge_cases() {
    assert_eq!(lcp::<u8>(&[]), (Vec::new(), Vec::new()));
    assert_eq!(lcp(&[7u8]), (vec![0], vec![0]));
    let (sa, lcp_arr) = lcp("aaaa".as_bytes());
    assert_eq!(sa, vec![3, 2, 1, 0]);
    assert_eq!(lcp_arr, vec![0, 1, 2, 3]);
}

#[test]
fn dbf_last_row_of_banana() {
    let dbf = DBF::from("banana".as_bytes());
    assert_eq!(dbf.last_row(), vec![3, 2, 5, 1, 4, 0]);
}

#[test]
fn dbf_last_row_of_padded_banana() {
    let b = "banana".as_bytes();
    let padded: Vec<Option<&u8>> = b.iter().map(Some).chain(std::iter::once(None)).collect();
    let dbf = DBF::from(&padded);
    let row = dbf.last_row();
    assert_eq!(row, vec![4, 3, 6, 2, 5, 1, 0]);
    // dropping the sentinel's own rotation and shifting ranks down by one
    // gives the rotation order of the genuine suffixes
    let shifted: Vec<usize> = row[..b.len()].iter().map(|&x| x - 1).collect();
    assert_eq!(shifted, vec![3, 2, 5, 1, 4, 0]);
}

#[test]
fn dbf_repr_banana() {
    let dbf = DBF::from("banana".as_bytes());
    assert_eq!(dbf.get_repr(1, 4), (1, 3));
}

#[test]
fn dbf_repr_fingerprints_substrings() {
    let b = "banana".as_bytes();
    let dbf = DBF::from(b);
    for len in 1..=b.len() {
        for l1 in 0..=(b.len() - len) {
            for l2 in 0..=(b.len() - len) {
                let same = dbf.get_repr(l1, l1 + len) == dbf.get_repr(l2, l2 + len);
                assert_eq!(
                    same,
                    b[l1..l1 + len] == b[l2..l2 + len],
                    "len {len} starts {l1} {l2}"
                );
            }
        }
    }
}

#[test]
fn dbf_cmp_banana_example() {
    let dbf = DBF::from("banana".as_bytes());
    assert_eq!(dbf.cmp(1, 4, 0, 2), std::cmp::Ordering::Less);
}

#[test]
fn dbf_cmp_matches_brute_force() {
    for s in ["banana", "abcab", "aabaa"] {
        let b = s.as_bytes();
        let dbf = DBF::from(b);
        for l1 in 0..b.len() {
            for r1 in (l1 + 1)..=b.len() {
                for l2 in 0..b.len() {
                    for r2 in (l2 + 1)..=b.len() {
                        assert_eq!(
                            dbf.cmp(l1, r1, l2, r2),
                            b[l1..r1].cmp(&b[l2..r2]),
                            "input {s} ranges {l1}..{r1} {l2}..{r2}"
                        );
                    }
                }
            }
        }
    }
}
