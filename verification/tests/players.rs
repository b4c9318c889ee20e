use spin_tracker_op::analysis::Pos;
use spin_tracker_op::model::{ActKind, Action};
use spin_tracker_op::stats::players::{hand_stats, HandRows, PStats, PlayerTable, SeatRow};

fn act(street: u8, p: u8, kind: ActKind, allin: bool) -> Action {
    Action { street, p, kind, allin }
}

fn positions3() -> Vec<Pos> {
    vec![Pos::Btn, Pos::Sb, Pos::Bb]
}

#[test]
fn open_and_continuation_bet() {
    let acts = vec![
        act(0, 1, ActKind::SmallBlind, false),
        act(0, 2, ActKind::BigBlind, false),
        act(0, 0, ActKind::Raise, false),
        act(0, 1, ActKind::Fold, false),
        act(0, 2, ActKind::Call, false),
        act(1, 2, ActKind::Check, false),
        act(1, 0, ActKind::Bet, false),
        act(1, 2, ActKind::Fold, false),
    ];
    let s = hand_stats(3, &positions3(), &acts);
    assert_eq!(s.len(), 3);
    // the button opens with a raise and bets the flop
    assert!(s[0].vpip && s[0].pfr);
    assert!(s[0].btn_opp && s[0].btn_raise && !s[0].btn_limp && !s[0].btn_shove);
    assert!(!s[0].threebet_opp);
    assert!(s[0].cbet_opp && s[0].cbet);
    assert_eq!(s[0].post_agg, 1);
    // the small blind folds to the raise: a chance to 3-bet, not taken
    assert!(!s[1].vpip && s[1].threebet_opp && !s[1].threebet);
    // the big blind calls, then folds to the continuation bet
    assert!(s[2].vpip && !s[2].pfr && s[2].threebet_opp && !s[2].threebet);
    assert!(s[2].fcbet_opp && s[2].fcbet && !s[2].cbet_opp);
    assert_eq!(s[2].post_calls, 0);
    assert!(!s[2].bb_vs_shove_opp);
}

#[test]
fn shove_and_call() {
    let acts = vec![
        act(0, 1, ActKind::SmallBlind, false),
        act(0, 2, ActKind::BigBlind, false),
        act(0, 0, ActKind::Raise, true),
        act(0, 1, ActKind::Fold, false),
        act(0, 2, ActKind::Call, true),
    ];
    let s = hand_stats(3, &positions3(), &acts);
    assert!(s[0].btn_opp && s[0].btn_shove && !s[0].btn_raise);
    assert!(s[2].bb_vs_shove_opp && s[2].bb_vs_shove_call);
    assert!(!s[1].bb_vs_shove_opp);
    // nobody saw a flop: no continuation bet
    assert!(!s[0].cbet_opp);
}

#[test]
fn three_bet_and_donk_bet() {
    let acts = vec![
        act(0, 1, ActKind::SmallBlind, false),
        act(0, 2, ActKind::BigBlind, false),
        act(0, 0, ActKind::Call, false),
        act(0, 1, ActKind::Raise, false),
        act(0, 2, ActKind::Raise, false),
        act(0, 0, ActKind::Fold, false),
        act(0, 1, ActKind::Call, false),
        // the preflop raiser is seat 2; seat 1 bets first: no continuation bet
        act(1, 1, ActKind::Bet, false),
        act(1, 2, ActKind::Call, false),
    ];
    let s = hand_stats(3, &positions3(), &acts);
    assert!(s[0].btn_opp && s[0].btn_limp);
    assert!(s[2].threebet_opp && s[2].threebet);
    assert!(!s[0].threebet_opp || !s[0].threebet);
    assert!(!s[2].cbet_opp && !s[2].cbet);
    assert!(!s[1].fcbet_opp);
    assert_eq!(s[1].post_agg, 1);
    assert_eq!(s[2].post_calls, 1);
}

#[test]
fn counters_over_hands() {
    let acts = vec![
        act(0, 1, ActKind::SmallBlind, false),
        act(0, 2, ActKind::BigBlind, false),
        act(0, 0, ActKind::Raise, false),
        act(0, 1, ActKind::Fold, false),
        act(0, 2, ActKind::Call, false),
        act(1, 2, ActKind::Check, false),
        act(1, 0, ActKind::Bet, false),
        act(1, 2, ActKind::Call, false),
    ];
    let s = hand_stats(3, &positions3(), &acts);
    let mut st = PStats::new();
    assert!(st.room_for(&s[0]));
    st.add_hand(&s[0], true, true, false, true, 1000, false);
    st.add_hand(&s[0], true, false, false, false, 500, false);
    assert_eq!(st.hands, 2);
    assert_eq!(st.vpip, 2);
    assert_eq!(st.pfr, 2);
    assert_eq!(st.btn_opp, 2);
    assert_eq!(st.btn_raise, 2);
    assert_eq!(st.cbet_opp, 2);
    assert_eq!(st.cbet, 2);
    assert_eq!(st.post_agg, 2);
    assert_eq!(st.saw_flop, 2);
    assert_eq!(st.wtsd, 1);
    assert_eq!(st.wsd, 1);
    assert_eq!(st.vs_hero_hands, 2);
    assert_eq!(st.last_ts, 1000);
    assert_eq!(st.first_ts, 500);
    // each rate stays at most 100 %
    assert!(st.pfr <= st.vpip && st.vpip <= st.hands);
    assert!(st.wsd <= st.wtsd && st.wtsd <= st.saw_flop);
    let mut hero = PStats::new();
    hero.add_hand(&s[2], true, true, true, false, 7, true);
    assert_eq!(hero.vs_hero_hands, 0);
    assert_eq!(hero.wtsd, 0);
    assert_eq!(hero.post_calls, 1);
    let full = PStats { post_agg: u32::MAX, ..PStats::new() };
    assert!(!full.room_for(&s[0]));
}

#[test]
fn table_sums_players_by_name() {
    let acts = vec![
        act(0, 1, ActKind::SmallBlind, false),
        act(0, 2, ActKind::BigBlind, false),
        act(0, 0, ActKind::Raise, false),
        act(0, 1, ActKind::Fold, false),
        act(0, 2, ActKind::Call, false),
    ];
    let s = hand_stats(3, &positions3(), &acts);
    let names = ["Alice".to_string(), "Bob".to_string(), "Hero".to_string()];
    let mut t = PlayerTable::new();
    // two hands of tournament 7, then one of tournament 8
    for (tour, ts) in [(7u64, 100i64), (7, 200), (8, 50)] {
        for i in 0..3 {
            assert!(t.lookup(&names[i]).room_for(&s[i]));
            t.add_seat(&names[i], tour, &s[i], false, false, false, false, ts, i == 2);
        }
    }
    assert_eq!(t.names.len(), 3);
    let a = t.lookup(&names[0]);
    assert_eq!(a.hands, 3);
    assert_eq!(a.pfr, 3);
    assert_eq!(a.btn_raise, 3);
    assert_eq!(a.vs_hero_hands, 3);
    assert_eq!(a.last_ts, 200);
    assert_eq!(a.first_ts, 50);
    assert_eq!(t.lookup(&names[2]).vs_hero_hands, 0);
    assert_eq!(t.lookup(&names[1]).vpip, 0);
    assert_eq!(t.tournaments(&names[0]), 2);
    assert_eq!(t.tournaments(&"Nobody".to_string()), 0);
    assert_eq!(t.lookup(&"Nobody".to_string()), PStats::new());
}

#[test]
fn table_counts_the_seats_of_a_hand() {
    let acts = vec![
        act(0, 0, ActKind::SmallBlind, false),
        act(0, 1, ActKind::BigBlind, false),
        act(0, 0, ActKind::Call, false),
        act(0, 1, ActKind::Check, false),
        act(1, 1, ActKind::Bet, false),
        act(1, 0, ActKind::Call, false),
    ];
    let s = hand_stats(2, &vec![Pos::Sb, Pos::Bb], &acts);
    let rows = vec![
        SeatRow { name: "Hero".to_string(), stats: s[0], saw_flop: true, folded: false, won: false },
        SeatRow { name: "Villain".to_string(), stats: s[1], saw_flop: true, folded: false, won: true },
    ];
    let mut t = PlayerTable::new();
    assert_eq!(t.add_hand_rows(&rows, true, 1000, 0, 3), 2);
    assert_eq!(t.add_hand_rows(&rows, true, 900, 0, 4), 2);
    let h = t.lookup(&"Hero".to_string());
    let v = t.lookup(&"Villain".to_string());
    assert_eq!(h.hands, 2);
    assert_eq!(h.vs_hero_hands, 0);
    assert_eq!(v.vs_hero_hands, 2);
    assert_eq!(h.vpip, 2);
    assert_eq!(h.post_calls, 2);
    assert_eq!(v.post_agg, 2);
    assert_eq!((v.saw_flop, v.wtsd, v.wsd), (2, 2, 2));
    assert_eq!((h.wtsd, h.wsd), (2, 0));
    assert_eq!((h.first_ts, h.last_ts), (900, 1000));
    assert_eq!(t.tournaments(&"Villain".to_string()), 2);
}

#[test]
fn store_of_hands_counts_like_each_hand_in_turn() {
    let acts = vec![
        act(0, 0, ActKind::SmallBlind, false),
        act(0, 1, ActKind::BigBlind, false),
        act(0, 0, ActKind::Call, false),
        act(0, 1, ActKind::Check, false),
        act(1, 1, ActKind::Bet, false),
        act(1, 0, ActKind::Call, false),
    ];
    let s = hand_stats(2, &vec![Pos::Sb, Pos::Bb], &acts);
    let rows = || {
        vec![
            SeatRow { name: "Hero".to_string(), stats: s[0], saw_flop: true, folded: false, won: false },
            SeatRow { name: "Villain".to_string(), stats: s[1], saw_flop: true, folded: false, won: true },
        ]
    };
    let hands = vec![
        HandRows { rows: rows(), showdown: true, ts: 1000, hero: 0, t: 3 },
        HandRows { rows: rows(), showdown: true, ts: 900, hero: 0, t: 4 },
    ];
    let mut store = PlayerTable::new();
    assert_eq!(store.add_hands(&hands), (2, 0));
    let mut each = PlayerTable::new();
    assert_eq!(each.add_hand_rows(&rows(), true, 1000, 0, 3), 2);
    assert_eq!(each.add_hand_rows(&rows(), true, 900, 0, 4), 2);
    for name in ["Hero", "Villain", "Nobody"] {
        assert_eq!(store.lookup(&name.to_string()), each.lookup(&name.to_string()));
        assert_eq!(store.tournaments(&name.to_string()), each.tournaments(&name.to_string()));
    }
    let v = store.lookup(&"Villain".to_string());
    assert_eq!((v.hands, v.vs_hero_hands, v.wsd), (2, 2, 2));
    assert_eq!(store.add_hands(&vec![]), (0, 0));
}
