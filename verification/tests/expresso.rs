use spin_tracker_op::model::ActKind;
use spin_tracker_op::parser::expresso::{hand_blocks, head_date_in_range, read_hand};
use spin_tracker_op::parser::Decimal;

fn dec(d: &Decimal) -> (bool, Vec<u8>, usize) {
    (d.negative, d.digits.clone(), d.scale)
}

const HAND: &str = "Winamax Poker - Tournament \"Expresso\" buyIn: 4.60\u{20ac} + 0.40\u{20ac} level: 1 - HandId: #1234567-1-1600000000 - Holdem no limit (10/20) - 2024/05/01 10:00:00 UTC
Table: 'Expresso(603548617)#0' 3-max (real money) Seat #1 is the button
Seat 1: Alice (500)
Seat 2: Bob (500)
Seat 3: Hero (500)
*** ANTE/BLINDS ***
Bob posts small blind 10
Hero posts big blind 20
Dealt to Hero [Ah Kd]
*** PRE-FLOP *** 
Alice raises 20 to 40
Bob folds
Hero calls 20
*** FLOP *** [7c 2d 9h]
Hero checks
Alice bets 40
Hero raises 80 to 120 and is all-in
Alice calls 80
*** TURN *** [7c 2d 9h][Ks]
*** RIVER *** [7c 2d 9h Ks][3s]
*** SHOW DOWN ***
Alice shows [Qs Qd] (One pair : Queens)
Hero shows [Ah Kd] (One pair : Kings)
Hero collected 250 from pot
*** SUMMARY ***
Total pot 250 | No rake
Seat 3: Hero won 250
";

fn lines(s: &str) -> Vec<String> {
    s.lines().map(|l| l.trim_end().to_string()).collect()
}

#[test]
fn expresso_hand() {
    let ls = lines(HAND);
    assert!(head_date_in_range(&ls));
    let h = read_hand(&ls).unwrap();
    assert_eq!(h.tid, "wmx:603548617");
    assert_eq!(h.id, "wmx:1234567-1-1600000000");
    assert_eq!(h.name, "Expresso");
    assert_eq!(h.buy, "4.60\u{20ac} + 0.40\u{20ac}");
    assert_eq!(dec(&h.ante), (false, vec![], 0));
    assert_eq!(dec(&h.sb), (false, vec![1, 0], 0));
    assert_eq!(dec(&h.bb), (false, vec![2, 0], 0));
    assert_eq!(h.ts, 1714557600);
    assert_eq!(h.button, 0);
    assert_eq!(h.hero, 2);
    assert_eq!(h.hero_name, "Hero");
    assert_eq!(h.seats.len(), 3);
    assert_eq!(h.seats[1].name, "Bob");
    assert_eq!(h.seats[1].seat, 2);
    assert_eq!(dec(&h.seats[1].stack), (false, vec![5, 0, 0], 0));
    assert_eq!(h.seats[0].cards, Some([43, 41]));
    assert_eq!(h.seats[1].cards, None);
    assert_eq!(h.seats[2].cards, Some([50, 45]));
    assert_eq!(h.board, vec![20, 1, 30, 47, 7]);
    let acts: Vec<(u8, u8, ActKind, Vec<u8>, bool, usize)> =
        h.actions.iter().map(|a| (a.street, a.p, a.kind, a.amount.digits.clone(), a.allin, a.part)).collect();
    assert_eq!(
        acts,
        vec![
            (0, 1, ActKind::SmallBlind, vec![1, 0], false, 0),
            (0, 2, ActKind::BigBlind, vec![2, 0], false, 0),
            (0, 0, ActKind::Raise, vec![4, 0], false, 0),
            (0, 1, ActKind::Fold, vec![], false, 0),
            (0, 2, ActKind::Call, vec![2, 0], false, 0),
            (1, 2, ActKind::Check, vec![], false, 1),
            (1, 0, ActKind::Bet, vec![4, 0], false, 1),
            (1, 2, ActKind::Raise, vec![1, 2, 0], true, 1),
            (1, 0, ActKind::Call, vec![8, 0], false, 1),
        ]
    );
    assert_eq!(h.collects.len(), 1);
    assert_eq!(h.collects[0].0, 2);
    assert_eq!(dec(&h.collects[0].1), (false, vec![2, 5, 0], 0));
}

#[test]
fn expresso_rejects() {
    // not a tournament
    let mut ls = lines(HAND);
    ls[0] = ls[0].replace("Tournament", "CashGame");
    assert!(read_hand(&ls).is_none());
    // no tournament number in the table line
    let mut ls = lines(HAND);
    ls[1] = "Table: 'Expresso' 3-max".to_string();
    assert!(read_hand(&ls).is_none());
    // a seat line without '('
    let mut ls = lines(HAND);
    ls[3] = "Seat 2: Bob".to_string();
    assert!(read_hand(&ls).is_none());
    // only one seat
    let ls: Vec<String> = lines(HAND).into_iter().enumerate().filter(|(i, _)| *i != 3 && *i != 4).map(|(_, l)| l).collect();
    assert!(read_hand(&ls).is_none());
    // hero never dealt
    let ls: Vec<String> = lines(HAND).into_iter().filter(|l| !l.starts_with("Dealt to")).collect();
    assert!(read_hand(&ls).is_none());
    assert!(read_hand(&vec![]).is_none());
    // a date too large to compute
    let mut ls = lines(HAND);
    ls[0] = ls[0].replace("2024/05/01", "9999999999999/05/01");
    assert!(!head_date_in_range(&ls));
}

#[test]
fn expresso_file_blocks() {
    let text = format!("junk line\r\n{HAND}\r\n{HAND}");
    let b = hand_blocks(&text);
    assert_eq!(b.len(), 2);
    assert_eq!(b[0].len(), lines(HAND).len() + 1);
    assert_eq!(b[0][0], lines(HAND)[0]);
    assert_eq!(b[0][9], "*** PRE-FLOP ***");
    assert_eq!(b[1].len(), lines(HAND).len());
    assert_eq!(read_hand(&b[1]).unwrap().tid, "wmx:603548617");
    assert_eq!(hand_blocks("").len(), 0);
    assert_eq!(hand_blocks("no hand\n").len(), 0);
}

#[test]
fn buyin_parts_read_each_amount() {
    let p = spin_tracker_op::parser::expresso::buyin_parts("4,60€ + 0,40€");
    assert_eq!(p.len(), 2);
    assert_eq!((p[0].negative, p[0].digits.clone(), p[0].scale), (false, vec![4, 6, 0], 2));
    assert_eq!((p[1].negative, p[1].digits.clone(), p[1].scale), (false, vec![0, 4, 0], 2));
    assert_eq!(spin_tracker_op::parser::expresso::buyin_parts("").len(), 1);
}
