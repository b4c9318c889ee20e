use spin_tracker_op::solver::preflop::tri::{compatible, n_triples, rank_index, ranks_of, tri_index, N, RANKS};

#[test]
fn index_is_dense() {
    let mut k = 0;
    for a in 0..N {
        for b in a..N {
            for c in b..N {
                assert_eq!(tri_index(a, b, c), k);
                k += 1;
            }
        }
    }
    assert_eq!(k, n_triples());
}

#[test]
fn ranks_and_payoffs() {
    assert_eq!(ranks_of([5, 9, 5]), [1, 0, 1]);
    assert_eq!(ranks_of([7, 7, 7]), [0, 0, 0]);
}

#[test]
fn every_ranking_is_listed() {
    assert_eq!(n_triples(), 169 * 170 * 171 / 6);
    assert_eq!(ranks_of([3, 2, 1]), [0, 1, 2]);
    assert_eq!(ranks_of([1, 2, 3]), [2, 1, 0]);
    assert_eq!(ranks_of([4, 4, 1]), [0, 0, 1]);
    assert_eq!(ranks_of([1, 4, 4]), [1, 0, 0]);
    for (k, r) in RANKS.iter().enumerate() {
        assert_eq!(rank_index(*r), k);
    }
    assert_eq!(rank_index(ranks_of([9, 1, 9])), 7);
    assert_eq!(tri_index(0, 0, 0), 0);
    assert_eq!(tri_index(0, 0, 1), 1);
    assert_eq!(tri_index(0, 1, 1), 169);
    assert_eq!(tri_index(168, 168, 168), n_triples() - 1);
}

#[test]
fn hands_sharing_cards() {
    assert!(compatible((0, 1), (2, 3)));
    assert!(!compatible((0, 1), (1, 3)));
    assert!(!compatible((0, 1), (3, 0)));
}
