use spin_tracker_op::analysis::{positions, Pos, Scenario};
use spin_tracker_op::commands::{combo_class, hand_combo, hero_line, PlayerQuery};
use spin_tracker_op::model::{card_str, ActKind, Action};
use spin_tracker_op::solver::preflop::run;
use spin_tracker_op::solver::spot;
use spin_tracker_op::stats::breakdown::civil;
use spin_tracker_op::stats::leaks::{combo, pos_label};
use spin_tracker_op::stats::weekday;

fn act(street: u8, p: u8, kind: ActKind, allin: bool) -> Action {
    Action { street, p, kind, allin }
}

#[test]
fn action_kinds() {
    assert!(ActKind::Call.is_voluntary() && ActKind::Bet.is_voluntary() && ActKind::Raise.is_voluntary());
    assert!(!ActKind::Check.is_voluntary() && !ActKind::BigBlind.is_voluntary());
    assert!(ActKind::Raise.is_aggressive() && !ActKind::Call.is_aggressive());
    assert!(ActKind::Ante.is_post() && ActKind::SmallBlind.is_post() && !ActKind::Fold.is_post());
    assert_eq!(card_str(50), "Ah");
    assert_eq!(card_str(0), "2c");
    assert_eq!(card_str(35), "Ts");
}

#[test]
fn hand_classes() {
    assert_eq!(combo_class(50, 45), "AKo");
    assert_eq!(combo_class(45, 49), "AKs");
    assert_eq!(combo_class(20, 23), "77");
    assert_eq!(hand_combo(Some([0, 7])), "32o");
    assert_eq!(hand_combo(None), "");
    assert_eq!(combo(Some([51, 47])), Some("AKs".to_string()));
    assert_eq!(combo(None), None);
}

#[test]
fn hero_lines() {
    let acts = vec![
        act(0, 0, ActKind::SmallBlind, false),
        act(0, 1, ActKind::BigBlind, false),
        act(0, 0, ActKind::Raise, false),
        act(0, 1, ActKind::Call, false),
        act(1, 1, ActKind::Check, false),
        act(1, 0, ActKind::Bet, false),
        act(1, 1, ActKind::Raise, true),
        act(1, 0, ActKind::Call, true),
    ];
    assert_eq!(hero_line(0, &acts), "R / BC");
    assert_eq!(hero_line(1, &acts), "C / XA");
    assert_eq!(hero_line(2, &acts), "");
    // a street without hero action ends the line
    let gap = vec![act(0, 0, ActKind::Call, false), act(2, 0, ActKind::Bet, false)];
    assert_eq!(hero_line(0, &gap), "C");
}

#[test]
fn seat_positions() {
    let blinds = vec![act(0, 2, ActKind::SmallBlind, false), act(0, 0, ActKind::BigBlind, false)];
    assert_eq!(positions(3, 1, &blinds), vec![Pos::Bb, Pos::Btn, Pos::Sb]);
    // no blinds recorded: the seats after the button
    assert_eq!(positions(3, 0, &vec![]), vec![Pos::Btn, Pos::Sb, Pos::Bb]);
    // heads-up: the button posts the small blind
    assert_eq!(positions(2, 1, &vec![]), vec![Pos::Bb, Pos::Sb]);
    assert_eq!(positions(2, 1, &vec![act(0, 0, ActKind::SmallBlind, false)]), vec![Pos::Sb, Pos::Bb]);
    assert_eq!(Scenario::SbVsBtn.label(), "SB vs BTN");
    assert_eq!(Scenario::HuBb.label(), "HU BB");
    assert_eq!(pos_label(Pos::Btn, 3), "BTN");
    assert_eq!(pos_label(Pos::Sb, 2), "SB");
    assert_eq!(spot::pos_name(Pos::Bb, 3), "BB");
    assert_eq!(spot::post_order(Pos::Sb, 3), 0);
    assert_eq!(spot::post_order(Pos::Sb, 2), 2);
    assert_eq!(spot::post_order(Pos::Bb, 2), 1);
    assert_eq!(spot::post_order(Pos::Btn, 3), 2);
    assert_eq!(run::post_order(&vec!["BTN", "SB", "BB"], 0, 1), (1, 0));
    assert_eq!(run::post_order(&vec!["BTN", "SB", "BB"], 2, 0), (2, 0));
    assert_eq!(run::post_order(&vec!["SB", "BB"], 0, 1), (1, 0));
    let q = PlayerQuery::default();
    assert_eq!(q.limit, 0);
}

#[test]
fn calendar() {
    assert_eq!(civil(0), (1970, 1, 1));
    assert_eq!(civil(-1), (1969, 12, 31));
    assert_eq!(civil(19782), (2024, 2, 29));
    assert_eq!(civil(10957), (2000, 1, 1));
    assert_eq!(weekday(0), 3);
    assert_eq!(weekday(19782), 3);
    assert_eq!(weekday(-1), 2);
    assert_eq!(weekday(4), 0);
}

#[test]
fn dates_and_day_numbers_round_trip() {
    for (y, m, d) in [(2024, 2, 29), (1900, 2, 28), (2000, 2, 29), (1969, 12, 31), (-400, 3, 1), (2100, 12, 31)] {
        assert_eq!(civil(spin_tracker_op::parser::days_from_civil(y, m, d)), (y, m, d));
    }
    for z in [-1_000_000i64, -1, 0, 59, 60, 10957, 19782, 1_000_000] {
        let (y, m, d) = civil(z);
        assert_eq!(spin_tracker_op::parser::days_from_civil(y, m, d), z);
    }
}
