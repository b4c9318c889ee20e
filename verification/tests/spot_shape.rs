use spin_tracker_op::analysis::Pos;
use spin_tracker_op::model::{ActKind, Action};
use spin_tracker_op::solver::spot::{spot_shape, SpotRefusal};

fn act(street: u8, p: u8, kind: ActKind, allin: bool) -> Action {
    Action { street, p, kind, allin }
}

fn three() -> Vec<Pos> {
    vec![Pos::Btn, Pos::Sb, Pos::Bb]
}

#[test]
fn heads_up_spot_after_a_three_handed_preflop() {
    let acts = vec![
        act(0, 1, ActKind::SmallBlind, false),
        act(0, 2, ActKind::BigBlind, false),
        act(0, 0, ActKind::Raise, false),
        act(0, 1, ActKind::Fold, false),
        act(0, 2, ActKind::Call, false),
        act(1, 2, ActKind::Check, false),
    ];
    assert_eq!(spot_shape(3, &three(), &acts, 3, true), Ok((2, 0)));
    assert_eq!(spot_shape(3, &three(), &acts, 0, true), Err(SpotRefusal::NoFlop));
    assert_eq!(spot_shape(3, &three(), &acts, 3, false), Err(SpotRefusal::NoBigBlind));
}

#[test]
fn heads_up_button_speaks_last() {
    let acts = vec![
        act(0, 0, ActKind::SmallBlind, false),
        act(0, 1, ActKind::BigBlind, false),
        act(0, 0, ActKind::Call, false),
        act(0, 1, ActKind::Check, false),
    ];
    assert_eq!(spot_shape(2, &vec![Pos::Sb, Pos::Bb], &acts, 5, true), Ok((1, 0)));
}

#[test]
fn refused_spots() {
    let limp3 = vec![
        act(0, 1, ActKind::SmallBlind, false),
        act(0, 2, ActKind::BigBlind, false),
        act(0, 0, ActKind::Call, false),
        act(0, 1, ActKind::Call, false),
        act(0, 2, ActKind::Check, false),
    ];
    assert_eq!(spot_shape(3, &three(), &limp3, 3, true), Err(SpotRefusal::ThreeWay));
    let walk = vec![act(0, 0, ActKind::Fold, false), act(0, 1, ActKind::Fold, false)];
    assert_eq!(spot_shape(3, &three(), &walk, 3, true), Err(SpotRefusal::OnePlayer));
    let shove = vec![
        act(0, 0, ActKind::Fold, false),
        act(0, 1, ActKind::Raise, true),
        act(0, 2, ActKind::Call, false),
    ];
    assert_eq!(spot_shape(3, &three(), &shove, 5, true), Err(SpotRefusal::PreflopAllIn));
}
