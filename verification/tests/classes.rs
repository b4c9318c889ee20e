use spin_tracker_op::solver::preflop::classes::{canon_pair, class_combos, combos, compatible_count, N};
use spin_tracker_op::solver::ranges::cell_name;

fn idx(name: &str) -> usize {
    (0..N).find(|&c| cell_name(c) == name).unwrap()
}

#[test]
fn classes_and_counts() {
    let cs = combos();
    assert_eq!(cs.iter().map(|c| c.len()).sum::<usize>(), 1326);
    assert_eq!(cs[idx("AA")].len(), 6);
    assert_eq!(cs[idx("AKs")].len(), 4);
    assert_eq!(cs[idx("AKo")].len(), 12);
    // AA against AA: one compatible combo per combo; AA against KK: six
    let cnt = |h: usize, v: usize| compatible_count(&cs[h], &cs[v]) as f64 / cs[h].len() as f64;
    assert!((cnt(idx("AA"), idx("AA")) - 1.0).abs() < 1e-6);
    assert!((cnt(idx("AA"), idx("KK")) - 6.0).abs() < 1e-6);
}

#[test]
fn class_sizes() {
    let cs = combos();
    for h in 0..N {
        let (i, j) = (h / 13, h % 13);
        let want = if i == j { 6 } else if i < j { 4 } else { 12 };
        assert_eq!(cs[h].len(), want, "{}", cell_name(h));
        for &(a, b) in &cs[h] {
            assert!(b < a);
        }
    }
    assert_eq!(class_combos(0), vec![(49, 48), (50, 48), (50, 49), (51, 48), (51, 49), (51, 50)]);
    // AK against AK offsuit: card removal leaves 9 of 12 hands... per combo
    let ako = idx("AKo");
    assert_eq!(compatible_count(&cs[ako], &cs[ako]), 12 * 7);
}

#[test]
fn suit_symmetry() {
    // As Ks against Qh Qd
    assert_eq!(canon_pair((51, 47), (42, 41)), [48, 44, 42, 41]);
    // the same spot with the suits renamed
    assert_eq!(canon_pair((48, 44), (43, 42)), [48, 44, 42, 41]);
    assert_eq!(canon_pair((47, 51), (41, 42)), [48, 44, 42, 41]);
    assert_ne!(canon_pair((51, 46), (42, 41)), [48, 44, 42, 41]);
}
