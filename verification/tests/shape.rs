use spin_tracker_op::analysis::{shape, Pos, Scenario};
use spin_tracker_op::model::{ActKind, Action};

fn act(street: u8, p: u8, kind: ActKind, allin: bool) -> Action {
    Action { street, p, kind, allin }
}

#[test]
fn folded_to_the_flop_bet() {
    let acts = vec![
        act(0, 1, ActKind::SmallBlind, false),
        act(0, 2, ActKind::BigBlind, false),
        act(0, 0, ActKind::Raise, false),
        act(0, 1, ActKind::Fold, false),
        act(0, 2, ActKind::Call, false),
        act(1, 2, ActKind::Check, false),
        act(1, 0, ActKind::Bet, false),
        act(1, 2, ActKind::Fold, false),
    ];
    let pos = vec![Pos::Btn, Pos::Sb, Pos::Bb];
    let s = shape(3, &pos, &acts, 3, &vec![true, false, false]);
    assert_eq!(s.folded, vec![false, true, true]);
    assert_eq!(s.saw_flop, vec![true, false, true]);
    assert!(!s.showdown);
    assert_eq!(s.last_street, 1);
    assert!(!s.any_allin && !s.adjusted);
    assert_eq!(s.scenarios, vec![Scenario::Btn, Scenario::SbVsBtn, Scenario::BbVsBtn]);
}

#[test]
fn preflop_all_in_is_adjusted() {
    let acts = vec![
        act(0, 1, ActKind::SmallBlind, false),
        act(0, 2, ActKind::BigBlind, false),
        act(0, 0, ActKind::Raise, true),
        act(0, 1, ActKind::Fold, false),
        act(0, 2, ActKind::Call, true),
    ];
    let pos = vec![Pos::Btn, Pos::Sb, Pos::Bb];
    let s = shape(3, &pos, &acts, 5, &vec![true, false, true]);
    assert!(s.showdown && s.any_allin && s.adjusted);
    assert_eq!(s.last_street, 0);
    // the board has a flop: those who did not fold preflop saw it
    assert_eq!(s.saw_flop, vec![true, false, true]);
    // a player left with unknown cards: no adjustment
    let s = shape(3, &pos, &acts, 5, &vec![true, true, false]);
    assert!(!s.adjusted);
    // the board was not dealt to the river: no adjustment
    let s = shape(3, &pos, &acts, 3, &vec![true, false, true]);
    assert!(!s.adjusted);
}

#[test]
fn button_folds_first_and_heads_up() {
    let acts = vec![
        act(0, 1, ActKind::SmallBlind, false),
        act(0, 2, ActKind::BigBlind, false),
        act(0, 0, ActKind::Fold, false),
        act(0, 1, ActKind::Call, false),
        act(0, 2, ActKind::Check, false),
    ];
    let s = shape(3, &vec![Pos::Btn, Pos::Sb, Pos::Bb], &acts, 0, &vec![false, false, false]);
    assert_eq!(s.scenarios, vec![Scenario::Btn, Scenario::SbVsBb, Scenario::BbVsSb]);
    assert!(s.showdown);
    assert_eq!(s.saw_flop, vec![false, false, false]);
    let hu = vec![act(0, 0, ActKind::SmallBlind, false), act(0, 1, ActKind::BigBlind, false), act(0, 0, ActKind::Fold, false)];
    let s = shape(2, &vec![Pos::Sb, Pos::Bb], &hu, 0, &vec![false, false]);
    assert_eq!(s.scenarios, vec![Scenario::HuSb, Scenario::HuBb]);
    assert!(!s.showdown);
    // only forced posts but the fold: the last street is preflop
    assert_eq!(s.last_street, 0);
}
