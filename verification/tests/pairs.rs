use pairwise_distance::pairs::{can_enumerate, canonical_pair, canonical_pairs, enumerate_pairs};

#[test]
fn three_documents_give_three_pairs_in_order() {
    assert_eq!(enumerate_pairs(3), vec![(0, 1), (0, 2), (1, 2)]);
}

#[test]
fn four_documents_give_six_pairs_in_order() {
    assert_eq!(
        enumerate_pairs(4),
        vec![(0, 1), (0, 2), (0, 3), (1, 2), (1, 3), (2, 3)]
    );
}

#[test]
fn two_documents_give_one_pair() {
    assert_eq!(enumerate_pairs(2), vec![(0, 1)]);
}

#[test]
fn fewer_than_two_documents_give_no_pair() {
    assert_eq!(enumerate_pairs(0), vec![]);
    assert_eq!(enumerate_pairs(1), vec![]);
}

#[test]
fn pair_count_is_n_choose_two() {
    for n in 0..30usize {
        assert_eq!(enumerate_pairs(n).len(), n * n.saturating_sub(1) / 2);
    }
}

#[test]
fn no_self_pair_and_no_duplicate() {
    let n = 12usize;
    let pairs = enumerate_pairs(n);
    for (k, &(i, j)) in pairs.iter().enumerate() {
        assert!(i < j && j < n);
        for &(a, b) in &pairs[k + 1..] {
            assert!((a, b) != (i, j));
            assert!((b, a) != (i, j));
        }
    }
}

#[test]
fn every_unordered_pair_is_enumerated() {
    let n = 9usize;
    let pairs = enumerate_pairs(n);
    for i in 0..n {
        for j in 0..n {
            if i != j {
                assert!(pairs.contains(&canonical_pair(i, j)));
            }
        }
    }
}

#[test]
fn canonical_pair_puts_smaller_first() {
    assert_eq!(canonical_pair(1, 2), (1, 2));
    assert_eq!(canonical_pair(2, 1), (1, 2));
    assert_eq!(canonical_pair(5, 5), (5, 5));
    assert_eq!(canonical_pair(usize::MAX, 0), (0, usize::MAX));
}

#[test]
fn canonical_pairs_merges_mirrored_pairs() {
    assert_eq!(
        canonical_pairs(vec![(1, 0), (0, 1), (2, 0), (0, 2), (1, 0)]),
        vec![(0, 1), (0, 2)]
    );
}

#[test]
fn canonical_pairs_drops_self_pairs() {
    assert_eq!(canonical_pairs(vec![(2, 2), (3, 1), (0, 0)]), vec![(1, 3)]);
    assert_eq!(canonical_pairs(vec![(7, 7)]), vec![]);
    assert_eq!(canonical_pairs(vec![]), vec![]);
}

#[test]
fn canonical_pairs_keeps_first_occurrences_in_order() {
    assert_eq!(
        canonical_pairs(vec![(4, 5), (0, 1), (5, 4), (2, 3), (1, 0), (3, 2)]),
        vec![(4, 5), (0, 1), (2, 3)]
    );
}

#[test]
fn can_enumerate_up_to_the_largest_list() {
    assert!(can_enumerate(0));
    assert!(can_enumerate(3));
    assert!(can_enumerate(1_000_000));
    assert!(!can_enumerate(usize::MAX));
    let mut largest: u128 = 0;
    while (largest + 1) * (largest + 2) / 2 <= usize::MAX as u128 {
        largest += 1 << 20;
    }
    while largest * (largest + 1) / 2 > usize::MAX as u128 {
        largest -= 1;
    }
    assert!(can_enumerate(largest as usize));
    assert!(!can_enumerate(largest as usize + 1));
}
