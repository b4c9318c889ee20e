use spin_tracker_op::model::{ActKind, Action};
use spin_tracker_op::stats::leaks::{post_key, postflop, Post};

fn act(street: u8, p: u8, kind: ActKind) -> Action {
    Action { street, p, kind, allin: false }
}

fn hand() -> Vec<Action> {
    vec![
        act(0, 1, ActKind::SmallBlind),
        act(0, 2, ActKind::BigBlind),
        act(0, 0, ActKind::Raise),
        act(0, 1, ActKind::Call),
        act(0, 2, ActKind::Call),
        act(1, 1, ActKind::Check),
        act(1, 2, ActKind::Check),
        act(1, 0, ActKind::Bet),
        act(1, 1, ActKind::Fold),
        act(1, 2, ActKind::Call),
        act(2, 2, ActKind::Check),
        act(2, 0, ActKind::Bet),
        act(2, 2, ActKind::Fold),
    ]
}

#[test]
fn continuation_bet_and_barrel() {
    let mut p = Post { key: "3-way".to_string(), ..Default::default() };
    postflop(&hand(), 0, true, false, false, true, &mut p);
    assert_eq!(p.flops, 1);
    assert_eq!(p.cbet, [1, 1]);
    assert_eq!(p.donk, [0, 0]);
    assert_eq!(p.fold_cbet, [0, 0]);
    assert_eq!(p.barrel, [1, 1]);
    assert_eq!(p.wtsd, [0, 1]);
    assert_eq!(p.wsd, [0, 0]);
    assert_eq!(p.agg, 2);
    assert_eq!(p.calls, 0);
    assert_eq!(p.bets_raises_flop, [1, 1]);
    assert_eq!(p.key, "3-way");
}

#[test]
fn facing_the_continuation_bet() {
    let mut p = Post::default();
    postflop(&hand(), 2, true, true, false, true, &mut p);
    assert_eq!(p.cbet, [0, 0]);
    assert_eq!(p.donk, [0, 1]);
    assert_eq!(p.fold_cbet, [0, 1]);
    assert_eq!(p.raise_cbet, [0, 1]);
    assert_eq!(p.check_raise, [0, 1]);
    assert_eq!(p.barrel, [0, 0]);
    assert_eq!(p.wtsd, [1, 1]);
    assert_eq!(p.wsd, [1, 1]);
    assert_eq!(p.calls, 1);
    assert_eq!(p.agg, 0);
    assert_eq!(p.bets_raises_flop, [0, 2]);
    // the player who folded to the bet
    let mut q = Post::default();
    postflop(&hand(), 1, true, true, true, false, &mut q);
    assert_eq!(q.fold_cbet, [1, 1]);
    assert_eq!(q.wtsd, [0, 1]);
    // nothing counted without a flop
    let mut r = Post::default();
    postflop(&hand(), 1, false, true, false, true, &mut r);
    assert_eq!(r.flops, 0);
    assert_eq!(r.wtsd, [0, 0]);
}

#[test]
fn spot_keys() {
    assert_eq!(post_key(&vec![true, true, true]), "3-way");
    assert_eq!(post_key(&vec![true, false, true]), "HU");
    assert_eq!(post_key(&vec![]), "HU");
}

use spin_tracker_op::analysis::{Pos, Scenario};
use spin_tracker_op::stats::leaks::{act_label, decisions};

#[test]
fn action_labels() {
    let a = |kind: ActKind, allin: bool| Action { street: 0, p: 0, kind, allin };
    assert_eq!(act_label(&a(ActKind::Call, false), 0), "Limp");
    assert_eq!(act_label(&a(ActKind::Call, false), 2), "Call");
    assert_eq!(act_label(&a(ActKind::Raise, true), 0), "Shove");
    assert_eq!(act_label(&a(ActKind::Bet, false), 0), "Open");
    assert_eq!(act_label(&a(ActKind::Raise, true), 1), "3B all-in");
    assert_eq!(act_label(&a(ActKind::Raise, false), 1), "3-bet");
    assert_eq!(act_label(&a(ActKind::Raise, true), 2), "4B all-in");
    assert_eq!(act_label(&a(ActKind::Raise, false), 5), "4-bet");
    assert_eq!(act_label(&a(ActKind::Check, false), 0), "Check");
    assert_eq!(act_label(&a(ActKind::Fold, false), 0), "?");
}

#[test]
fn preflop_decisions() {
    let pos = vec![Pos::Btn, Pos::Sb, Pos::Bb];
    let d = decisions(&hand(), 2, &pos, Scenario::BbVsBtn, 7);
    assert_eq!(d.len(), 1);
    assert_eq!(d[0].label, "vs BTN Open + SB Call");
    assert_eq!(d[0].key, "BB vs BTN|vs BTN Open + SB Call");
    assert_eq!(d[0].kind, "vs_raise");
    assert_eq!(d[0].class, 2);
    assert_eq!(d[0].bucket, 7);
    assert_eq!(d[0].scenario, Scenario::BbVsBtn);
    let d = decisions(&hand(), 0, &pos, Scenario::Btn, 0);
    assert_eq!(d.len(), 1);
    assert_eq!((d[0].label.as_str(), d[0].kind, d[0].class), ("Open", "open", 1));
    // limp, then call a raise
    let acts = vec![
        act(0, 1, ActKind::SmallBlind),
        act(0, 2, ActKind::BigBlind),
        act(0, 0, ActKind::Call),
        act(0, 1, ActKind::Call),
        act(0, 2, ActKind::Raise),
        act(0, 0, ActKind::Call),
        act(0, 1, ActKind::Fold),
    ];
    let d = decisions(&acts, 0, &pos, Scenario::Btn, 0);
    assert_eq!(d.len(), 2);
    assert_eq!((d[0].label.as_str(), d[0].kind, d[0].class), ("Open", "open", 2));
    assert_eq!(d[1].label, "Limp \u{2192} vs SB Limp + BB Open");
    assert_eq!(d[1].kind, "vs_raise");
    // the big blind checks behind the limps
    let acts2 = vec![act(0, 0, ActKind::Call), act(0, 1, ActKind::Call), act(0, 2, ActKind::Check)];
    let d = decisions(&acts2, 2, &pos, Scenario::BbVsSb, 0);
    assert_eq!((d[0].label.as_str(), d[0].kind, d[0].class), ("vs BTN Limp + SB Limp", "vs_limp", 2));
}

#[test]
fn decision_nodes_of_the_documentation() {
    let pos = vec![Pos::Btn, Pos::Sb, Pos::Bb];
    let acts = vec![
        act(0, 1, ActKind::SmallBlind),
        act(0, 2, ActKind::BigBlind),
        act(0, 0, ActKind::Raise),
        Action { street: 0, p: 1, kind: ActKind::Raise, allin: true },
        act(0, 2, ActKind::Fold),
        act(0, 0, ActKind::Fold),
    ];
    let d = decisions(&acts, 0, &pos, Scenario::Btn, 3);
    assert_eq!(d.len(), 2);
    assert_eq!(d[0].label, "Open");
    assert_eq!(d[1].label, "Open \u{2192} vs SB 3B all-in");
    assert_eq!(d[1].kind, "vs_shove");
    assert_eq!(d[1].class, 3);
    assert_eq!(d[1].key, "BTN|Open \u{2192} vs SB 3B all-in");
    let d = decisions(&acts, 2, &pos, Scenario::BbVsBtn, 3);
    assert_eq!(d[0].label, "vs BTN Open + SB 3B all-in");
}
