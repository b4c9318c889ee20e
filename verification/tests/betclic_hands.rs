use spin_tracker_op::model::ActKind;
use spin_tracker_op::parser::betclic_hand::{betclic_blocks, block_fits, read_block};
use spin_tracker_op::parser::Decimal;

fn dec(d: &Decimal) -> (bool, Vec<u8>, usize) {
    (d.negative, d.digits.clone(), d.scale)
}

const SPIN: &str = "*** HEADER ***
Site: Betclic.fr
Game Mode: Spin
Game Name: Spin & Rush 2\u{20ac}
Game ID: 01KV6M4YDEAKQ5HX5Q0B4AC1C2
Prize pool: 6.00\u{20ac}
Multiplier: x3
Buy In: 2.00\u{20ac}
Hand ID: 01KV6M5BBCK4NDX130BV07J12V
Date & Time: 2026-06-15 21:49:19 (UTC)
Blinds: 10/20
*** PLAYERS ***
Seat 1: Autre (500) [BTN]
Seat 2: Pseudo (500) [SB Hero]
Seat 3: Tiers (500) [BB]
*** HOLE CARDS ***
Pseudo: [Qh As]
*** PRE-FLOP ***
21:49:24 - Pseudo: Posts SB 10
21:49:24 - Tiers: Posts BB 20
21:49:25 - Autre: Folds
21:49:26 - Pseudo: Raises to 50
21:49:27 - Tiers: Calls 30
*** FLOP *** [As Kc 8d]
21:49:30 - Pseudo: Bets 60 and is all-in
21:49:31 - Tiers: Calls 60
*** SHOWDOWN ***
Pseudo shows [Qh As] (High Card) [As Kc Qh 8d 5s]
Tiers shows [Kd Kh] (Three of a kind)
*** SUMMARY ***
Tiers wins main pot of 1000
Pseudo finished 3rd
Autre finished 1st and wins 6.00 EUR
------------
";

const OLD: &str = "Hand ID: 123456
Game ID: 987654
Game Name: Twister 5\u{20ac}
Buy In: 4.75\u{20ac} + 0.25\u{20ac}
Date & Time: 2025-06-11 00:29:42
Ante: 0
Blinds: 10/20
*** PLAYERS ***
Seat 1: Pseudo (500) [BTN Hero]
Seat 2: Autre (500)
*** PRE-FLOP ***
00:29:43 - Pseudo: Posts SB 10
00:29:44 - Autre: Posts BB 20
00:29:45 - Pseudo: Raises to 40
00:29:46 - Autre: Folds
---
";

#[test]
fn betclic_spin_hand() {
    assert!(block_fits(SPIN));
    let h = read_block(SPIN).unwrap();
    assert_eq!(h.tid, "bcl:01KV6M4YDEAKQ5HX5Q0B4AC1C2");
    assert_eq!(h.id, "bcl:01KV6M5BBCK4NDX130BV07J12V");
    assert_eq!(h.name, "Spin & Rush 2\u{20ac}");
    assert_eq!(h.buyin, "2.00\u{20ac}");
    // 21:49:19 UTC is 23:49:19 in Paris in June
    assert_eq!(h.ts, 1781567359);
    assert_eq!(dec(&h.ante), (false, vec![], 0));
    assert_eq!(dec(&h.sb), (false, vec![1, 0], 0));
    assert_eq!(dec(&h.bb), (false, vec![2, 0], 0));
    assert_eq!(dec(&h.prize), (false, vec![6, 0, 0], 2));
    assert_eq!(dec(&h.mult), (false, vec![3], 0));
    assert_eq!(h.seats.len(), 3);
    assert_eq!(h.seats[1].name, "Pseudo");
    assert_eq!(h.seats[2].seat, 3);
    assert_eq!(dec(&h.seats[0].stack), (false, vec![5, 0, 0], 0));
    assert_eq!(h.seats[0].cards, None);
    assert_eq!(h.seats[1].cards, Some([42, 51]));
    assert_eq!(h.seats[2].cards, Some([45, 46]));
    assert_eq!(h.button, 0);
    assert_eq!(h.hero, 1);
    assert_eq!(h.board, vec![51, 44, 25]);
    let acts: Vec<(u8, u8, ActKind, Vec<u8>, bool, usize)> =
        h.actions.iter().map(|a| (a.street, a.p, a.kind, a.amount.digits.clone(), a.allin, a.part)).collect();
    assert_eq!(
        acts,
        vec![
            (0, 1, ActKind::SmallBlind, vec![1, 0], false, 0),
            (0, 2, ActKind::BigBlind, vec![2, 0], false, 0),
            (0, 0, ActKind::Fold, vec![], false, 0),
            (0, 1, ActKind::Raise, vec![5, 0], false, 0),
            (0, 2, ActKind::Call, vec![3, 0], false, 0),
            (1, 1, ActKind::Bet, vec![6, 0], true, 1),
            (1, 2, ActKind::Call, vec![6, 0], false, 1),
        ]
    );
    assert_eq!(h.wins.len(), 1);
    assert_eq!(h.wins[0].0, 2);
    assert_eq!(dec(&h.wins[0].1), (false, vec![1, 0, 0, 0], 0));
    assert!(h.had_wins);
    assert_eq!(h.hero_place, 3);
    assert_eq!(dec(&h.hero_prize), (false, vec![], 0));
}

#[test]
fn betclic_older_hand() {
    assert!(block_fits(OLD));
    let h = read_block(OLD).unwrap();
    assert_eq!(h.tid, "bcl:987654");
    assert_eq!(h.id, "bcl:123456");
    assert_eq!(h.name, "Twister 5\u{20ac}");
    assert_eq!(h.buyin, "4.75\u{20ac} + 0.25\u{20ac}");
    // no time zone: the time is kept as written
    assert_eq!(h.ts, 1749601782);
    assert_eq!(dec(&h.ante), (false, vec![0], 0));
    assert_eq!(h.hero, 0);
    assert_eq!(h.button, 0);
    assert_eq!(h.seats.len(), 2);
    assert!(h.board.is_empty());
    assert!(!h.had_wins);
    assert_eq!(h.hero_place, 0);
    let kinds: Vec<ActKind> = h.actions.iter().map(|a| a.kind).collect();
    assert_eq!(kinds, vec![ActKind::SmallBlind, ActKind::BigBlind, ActKind::Raise, ActKind::Fold]);
    assert_eq!(h.actions[2].amount.digits, vec![4, 0]);
}

#[test]
fn betclic_needs_hero_and_two_seats() {
    let no_hero = OLD.replace(" Hero]", "]");
    assert!(read_block(&no_hero).is_none());
    let one_seat = OLD.replace("Seat 2: Autre (500)\n", "");
    assert!(read_block(&one_seat).is_none());
    let no_game = OLD.replace("Game ID: 987654\n", "");
    assert!(read_block(&no_game).is_none());
    let table = OLD.replace("Game ID:", "Table ID:");
    assert_eq!(read_block(&table).unwrap().tid, "bcl:987654");
}

#[test]
fn betclic_longest_name_speaks() {
    let t = OLD.replace("Seat 2: Autre (500)", "Seat 2: Pseudo Bis (500)").replace("Autre:", "Pseudo Bis:");
    let h = read_block(&t).unwrap();
    let who: Vec<u8> = h.actions.iter().map(|a| a.p).collect();
    assert_eq!(who, vec![0, 1, 0, 1]);
}

#[test]
fn betclic_blocks_split() {
    let two = format!("{}{}", SPIN, OLD);
    let bs = betclic_blocks(&two);
    assert_eq!(bs.len(), 2);
    assert!(bs[0].starts_with("*** HEADER ***\n"));
    assert!(bs[1].starts_with("Hand ID: 123456\n"));
    // a second "Hand ID:" starts a new hand without a separating line
    let joined = format!("{}{}", OLD.replace("---\n", ""), OLD.replace("---\n", ""));
    let bs = betclic_blocks(&joined);
    assert_eq!(bs.len(), 2);
    assert_eq!(bs[0], OLD.replace("---\n", ""));
    // separators alone give no hand
    assert!(betclic_blocks("---\n   \n-----\n").is_empty());
}

#[test]
fn betclic_date_must_fit() {
    let t = OLD.replace("2025-06-11 00:29:42", "99999999999999-06-11 00:29:42");
    assert!(!block_fits(&t));
}
