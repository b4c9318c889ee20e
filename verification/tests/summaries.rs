use spin_tracker_op::parser::summaries::{ps_fits, read_ps_summary, read_wm_summary, wm_fits};
use spin_tracker_op::parser::Decimal;

fn dec(d: &Decimal) -> (bool, Vec<u8>, usize) {
    (d.negative, d.digits.clone(), d.scale)
}

const WM: &str = "Winamax Poker - Tournament summary : Expresso(603548617)
Player : MrTest
Buy-In : 4.60\u{20ac} + 0.40\u{20ac}
Registered players : 3
Prizepool : 10\u{20ac}
Tournament started 2024/05/01 10:00:00 UTC
You played 3min 20s
You finished in 1st place
You won 10\u{20ac}
";

const PS: &str = "\u{feff}PokerStars Tournament #3500000001, Spin & Go Hold'em No Limit
Buy-In: \u{20ac}4.60/\u{20ac}0.40 EUR
3 players
Total Prize Pool: \u{20ac}10.00 EUR
Tournament started 2025/01/01 20:00:00 CET [2025/01/01 14:00:00 ET]
1: MrTest (France), \u{20ac}10.00 (100%)
2: Other (Spain),
You finished in 1st place.
";

#[test]
fn winamax_summary() {
    assert!(wm_fits(WM));
    let s = read_wm_summary(WM).unwrap();
    assert_eq!(s.code, "603548617");
    assert_eq!(s.name, "Expresso");
    assert_eq!(s.hero, "MrTest");
    let b: Vec<(bool, Vec<u8>, usize)> = s.buyin.iter().map(dec).collect();
    assert_eq!(b, vec![(false, vec![4, 6, 0], 2), (false, vec![0, 4, 0], 2)]);
    let r: Vec<(bool, Vec<u8>, usize)> = s.rake.iter().map(dec).collect();
    assert_eq!(r, vec![(false, vec![0, 4, 0], 2)]);
    assert_eq!(dec(&s.prize), (false, vec![1, 0], 0));
    assert_eq!(s.start, 1714557600);
    // 3 minutes and 20 seconds
    assert_eq!(s.duration, 200);
    assert_eq!(s.place, 1);
    assert_eq!(dec(&s.won), (false, vec![1, 0], 0));
    assert_eq!(s.players, 3);
    assert!(read_wm_summary("no code here\nYou won 3").is_none());
}

#[test]
fn winamax_summary_times_add_up() {
    let t = "Tournament summary : Spin (1)\nYou played 1h 2m 3s\nYou played 10s\nRegistered players : many\n";
    let s = read_wm_summary(t).unwrap();
    assert_eq!(s.duration, 3600 + 120 + 3 + 10);
    assert_eq!(s.players, 3);
    assert!(s.buyin.is_empty());
    // a number too large to read counts as zero
    let big = "Tournament summary : Spin (1)\nYou played 9999999999999999999h 5s\n";
    assert!(wm_fits(big));
    assert_eq!(read_wm_summary(big).unwrap().duration, 5);
    // more seconds than an i64 holds
    assert!(!wm_fits("Tournament summary : Spin (1)\nYou played 3000000000000000h\n"));
}

#[test]
fn pokerstars_summary() {
    assert!(ps_fits(PS));
    let s = read_ps_summary(PS).unwrap();
    assert_eq!(s.code, "3500000001");
    let b: Vec<(bool, Vec<u8>, usize)> = s.buyin.iter().map(dec).collect();
    assert_eq!(b, vec![(false, vec![4, 6, 0], 2), (false, vec![0, 4, 0], 2)]);
    assert_eq!(s.split.len(), 2);
    assert_eq!(dec(&s.prize), (false, vec![1, 0, 0, 0], 2));
    assert_eq!(s.players.as_ref().map(dec), Some((false, vec![3], 0)));
    assert_eq!(s.place, 1);
    assert_eq!(s.start, 1735761600);
    assert_eq!(dec(&s.won), (false, vec![1, 0, 0, 0], 2));
    // the winnings count only for the first place
    let second = PS.replace("You finished in 1st place.", "You finished in 2nd place.");
    let s = read_ps_summary(&second).unwrap();
    assert_eq!(s.place, 2);
    assert_eq!(dec(&s.won), (false, vec![], 0));
    assert!(read_ps_summary("PokerStars Tournament #, x").is_none());
}

#[test]
fn winamax_summary_is_recognised() {
    assert!(spin_tracker_op::parser::summaries::is_wm_summary("Winamax Poker - Tournament summary : Spin (123)"));
    assert!(!spin_tracker_op::parser::summaries::is_wm_summary("Winamax Poker - Tournament \"Spin\" buyIn: 5€"));
}
