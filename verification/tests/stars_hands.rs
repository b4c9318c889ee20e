use spin_tracker_op::model::ActKind;
use spin_tracker_op::parser::stars_hand::{is_summary, read_head, read_stars_hand, stars_blocks, stars_fits};
use spin_tracker_op::parser::Decimal;

fn dec(d: &Decimal) -> (bool, Vec<u8>, usize) {
    (d.negative, d.digits.clone(), d.scale)
}

const PST: &str = "PokerStars Hand #250000000001: Tournament #3500000001, \u{20ac}4.60+\u{20ac}0.40 EUR Hold'em No Limit - Level I (10/20) - 2025/01/01 20:00:00 CET [2025/01/01 14:00:00 ET]
Table '3500000001 1' 3-max Seat #1 is the button
Seat 1: Alice (500 in chips)
Seat 2: Bob (500 in chips)
Seat 3: HeroP (500 in chips)
Bob: posts small blind 10
HeroP: posts big blind 20
*** HOLE CARDS ***
Dealt to HeroP [Ah Kd]
Alice: raises 20 to 40
Bob: folds
HeroP: calls 20
*** FLOP *** [7c 2d 9h]
HeroP: checks
Alice: bets 40
HeroP: raises 80 to 120
Alice: calls 80 and is all-in
*** TURN *** [7c 2d 9h] [Ks]
*** RIVER *** [7c 2d 9h Ks] [3s]
*** SHOW DOWN ***
HeroP: shows [Ah Kd] (a pair of Kings)
Alice: shows [Qs Qd] (a pair of Queens)
HeroP collected 330 from pot
*** SUMMARY ***
Total pot 330 | Rake 0
Seat 1: Alice (button) showed [Qs Qd] and lost with a pair of Queens
";

const UNB: &str = "Unibet Hand #123456789, Tournament #987654, \u{20ac}0.93 + \u{20ac}0.07 - 25.00/50.00 - No Limit Hold'Em - Total prize \u{20ac}4 - UTC 21:59:56 2026/06/05
Table 'Spin' 3-max
Seat 1: Villain One (1500)
Seat 2: HeroU [Unibet_28204e] (1500)
Seat 3: Villain (1500)
HeroU [Unibet_28204e]: posts small blind 25.00
Villain: posts big blind 50.00
Dealt to HeroU [Unibet_28204e] [Ah Kd]
Villain One: folds
HeroU: raises 100.00 to 150.00
Villain: folds
Uncalled bet (100) returned to HeroU
HeroU wins 100.00
";

fn lines(s: &str) -> Vec<String> {
    s.lines().map(|l| l.to_string()).collect()
}

#[test]
fn stars_header() {
    let h = read_head(PST.lines().next().unwrap()).unwrap();
    assert!(!h.unibet);
    assert_eq!(h.hid, "250000000001");
    assert_eq!(h.tcode, "3500000001");
    let b: Vec<(bool, Vec<u8>, usize)> = h.buyin.iter().map(dec).collect();
    assert_eq!(b, vec![(false, vec![4, 6, 0], 2), (false, vec![0, 4, 0], 2)]);
    assert_eq!(dec(&h.sb), (false, vec![1, 0], 0));
    assert_eq!(dec(&h.bb), (false, vec![2, 0], 0));
    assert_eq!(dec(&h.prize), (false, vec![], 0));
    assert_eq!(h.ts, 1735761600);
    let u = read_head(UNB.lines().next().unwrap()).unwrap();
    assert!(u.unibet);
    assert_eq!(u.tcode, "987654");
    let b: Vec<(bool, Vec<u8>, usize)> = u.buyin.iter().map(dec).collect();
    assert_eq!(b, vec![(false, vec![0, 9, 3], 2), (false, vec![0, 0, 7], 2)]);
    assert_eq!(dec(&u.sb), (false, vec![2, 5, 0, 0], 2));
    assert_eq!(dec(&u.bb), (false, vec![5, 0, 0, 0], 2));
    assert_eq!(dec(&u.prize), (false, vec![4], 0));
    // 21:59:56 UTC is 23:59:56 in Paris in June
    assert_eq!(u.ts, 1780703996);
    assert!(read_head("PokerStars Hand #: Tournament #1, x").is_none());
    assert!(read_head("PokerStars Hand #12: Tournament #abc, x").is_none());
}

#[test]
fn stars_hand_read() {
    let ls = lines(PST);
    assert!(stars_fits(&ls));
    let h = read_stars_hand(&ls).unwrap();
    assert_eq!(h.tid, "pst:3500000001");
    assert_eq!(h.id, "pst:3500000001:250000000001");
    assert_eq!(h.max_seats, 3);
    assert_eq!(h.seats.len(), 3);
    assert_eq!(h.seats[2].name, "HeroP");
    assert_eq!(dec(&h.seats[0].stack), (false, vec![5, 0, 0], 0));
    assert_eq!(h.hero, 2);
    assert_eq!(h.button, 0);
    assert_eq!(h.seats[2].cards, Some([50, 45]));
    assert_eq!(h.seats[0].cards, Some([43, 41]));
    assert_eq!(h.seats[1].cards, None);
    assert_eq!(h.board, vec![20, 1, 30, 47, 7]);
    let acts: Vec<(u8, u8, ActKind, Vec<u8>, bool, usize)> =
        h.actions.iter().map(|a| (a.street, a.p, a.kind, a.amount.digits.clone(), a.allin, a.part)).collect();
    assert_eq!(
        acts,
        vec![
            (0, 1, ActKind::SmallBlind, vec![1, 0], false, 0),
            (0, 2, ActKind::BigBlind, vec![2, 0], false, 0),
            (0, 0, ActKind::Raise, vec![4, 0], false, 0),
            (0, 1, ActKind::Fold, vec![], false, 0),
            (0, 2, ActKind::Call, vec![2, 0], false, 0),
            (1, 2, ActKind::Check, vec![], false, 1),
            (1, 0, ActKind::Bet, vec![4, 0], false, 1),
            (1, 2, ActKind::Raise, vec![1, 2, 0], false, 1),
            (1, 0, ActKind::Call, vec![8, 0], true, 1),
        ]
    );
    assert_eq!(h.wins.len(), 1);
    assert_eq!(h.wins[0].0, 2);
    assert_eq!(dec(&h.wins[0].1), (false, vec![3, 3, 0], 0));
    assert!(h.had_wins);
}

#[test]
fn unibet_hand_read() {
    let ls = lines(UNB);
    assert!(stars_fits(&ls));
    let h = read_stars_hand(&ls).unwrap();
    assert!(h.unibet);
    assert_eq!(h.tid, "unb:987654");
    assert_eq!(h.id, "unb:987654:123456789");
    let names: Vec<&str> = h.seats.iter().map(|s| s.name.as_str()).collect();
    assert_eq!(names, vec!["Villain One", "HeroU", "Villain"]);
    assert_eq!(h.hero, 1);
    // no button seat in the table line: the seat before the small blind
    assert_eq!(h.button, 0);
    assert_eq!(h.seats[1].cards, Some([50, 45]));
    let who: Vec<u8> = h.actions.iter().map(|a| a.p).collect();
    // the longest name speaks: "Villain One" folds, "Villain" posts and folds
    assert_eq!(who, vec![1, 2, 0, 1, 2]);
    assert_eq!(h.actions[3].amount.digits, vec![1, 5, 0, 0, 0]);
    assert_eq!(h.wins.len(), 1);
    assert_eq!(dec(&h.wins[0].1), (false, vec![1, 0, 0, 0, 0], 2));
}

#[test]
fn stars_hand_refused() {
    // no hero dealt cards
    let no_hero = lines(&PST.replace("Dealt to HeroP [Ah Kd]\n", ""));
    assert!(read_stars_hand(&no_hero).is_none());
    // a seat line without '(' after its ':'
    let bad_seat = lines(&PST.replace("Seat 2: Bob (500 in chips)", "Seat (2): Bob 500"));
    assert!(read_stars_hand(&bad_seat).is_none());
    // one seat
    let one = lines(&PST.replace("Seat 1: Alice (500 in chips)\nSeat 2: Bob (500 in chips)\n", ""));
    assert!(read_stars_hand(&one).is_none());
}

#[test]
fn stars_blocks_and_summary() {
    let file = format!("\u{feff}junk line\n{}{}", PST, UNB);
    let bs = stars_blocks(&file);
    assert_eq!(bs.len(), 2);
    assert!(bs[0][0].starts_with("PokerStars Hand #250000000001"));
    assert!(bs[1][0].starts_with("Unibet Hand #123456789"));
    assert_eq!(bs[1].len(), UNB.lines().count());
    assert!(is_summary("\u{feff}  PokerStars Tournament #3500000001, Spin & Go"));
    assert!(!is_summary(PST));
}
