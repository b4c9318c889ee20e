use spin_tracker_op::solver::preflop::oracle::{canonical_flops, flop_subset};

#[test]
fn flops_are_canonical_and_weighted() {
    let all = canonical_flops();
    assert_eq!(all.len(), 1755);
    assert_eq!(all.iter().map(|x| x.1).sum::<u32>(), 22100);
    let sub = flop_subset(20);
    assert_eq!(sub.len(), 20);
    // the three textures show up roughly in proportion (rainbow about 40 %)
    let rainbow = sub
        .iter()
        .filter(|f| {
            let mut s: Vec<u8> = f.iter().map(|c| c & 3).collect();
            s.dedup();
            s.len() == 3 && f[0] & 3 != f[2] & 3
        })
        .count();
    assert!((6..=10).contains(&rainbow), "{rainbow}");
}

#[test]
fn flop_subset_edges() {
    assert!(flop_subset(0).is_empty());
    // one sample lands in the middle of the texture order
    assert_eq!(flop_subset(1).len(), 1);
    // the first canonical flop is 2c2d2h (codes sorted decreasing: 2h 2d 2c, as codes 2 1 0)
    let all = canonical_flops();
    assert_eq!(all[0].0, [2, 1, 0]);
    assert_eq!(all[0].1, 4);
}
