use spin_tracker_op::solver::lab::outcomes;

// cards: rank * 4 + suit (c, d, h, s)
const AH: u8 = 50;
const KH: u8 = 46;
const QH: u8 = 42;
const JH: u8 = 38;
const TH: u8 = 34;
const C2: u8 = 0;
const D3: u8 = 5;
const D7: u8 = 21;

#[test]
fn rivers_of_a_turn() {
    let (street, c) = outcomes((AH, KH), &[QH, JH, C2, D3], 0);
    assert_eq!(street, "à la river");
    assert_eq!(c.total, 46);
    assert_eq!(c.made[0], 1); // the ten of hearts
    assert_eq!(c.made[3], 8); // another heart
    assert_eq!(c.made[4], 3); // another ten
    assert_eq!(c.made.iter().sum::<u64>(), 46);
    assert!(c.draws.iter().all(|&d| d == 0));
}

#[test]
fn dead_cards_do_not_come() {
    let (_, c) = outcomes((AH, KH), &[QH, JH, C2, D3], 1u64 << TH);
    assert_eq!(c.total, 45);
    assert_eq!(c.made[0], 0);
    assert_eq!(c.made[3], 8);
}

#[test]
fn every_flop_is_counted() {
    let (street, c) = outcomes((C2, D7), &[], 0);
    assert_eq!(street, "au flop");
    assert_eq!(c.total, 19600);
    assert_eq!(c.made.iter().sum::<u64>(), 19600);
}

#[test]
fn runouts_of_a_flop_and_a_full_board() {
    let (street, c) = outcomes((AH, KH), &[QH, JH, C2], 0);
    assert_eq!(street, "à la river");
    assert_eq!(c.total, 47 * 46 / 2);
    let (street, c) = outcomes((AH, KH), &[QH, JH, TH, C2, D3], 0);
    assert_eq!(street, "sur ce board");
    assert_eq!(c.total, 1);
    assert_eq!(c.made[0], 1);
}
