use spin_tracker_op::stats::versus::{tour_opponents, vs_hero, HandSeats, VsRow};

fn seats(names: &[&str], hero: usize) -> HandSeats {
    HandSeats { names: names.iter().map(|s| s.to_string()).collect(), hero }
}

fn s(x: &str) -> String {
    x.to_string()
}

#[test]
fn opponents_in_order_and_head_to_head() {
    let hands = vec![seats(&["A", "Me", "B"], 1), seats(&["A", "Me", "B"], 1), seats(&["Me", "B"], 0), seats(&["A", "Me"], 1)];
    let (opp, hu) = tour_opponents(&hands);
    assert_eq!(opp, vec![s("A"), s("B")]);
    assert_eq!(hu, Some(s("B")));
    let (opp, hu) = tour_opponents(&vec![]);
    assert!(opp.is_empty());
    assert_eq!(hu, None);
}

#[test]
fn counters_against_the_hero() {
    let rows = vec![
        VsRow { opponents: vec![s("A"), s("B")], hero_won: true, hu_opp: Some(s("A")), winner: None },
        VsRow { opponents: vec![s("A"), s("C")], hero_won: false, hu_opp: Some(s("C")), winner: Some(s("C")) },
        VsRow { opponents: vec![s("B")], hero_won: false, hu_opp: None, winner: Some(s("B")) },
    ];
    let v = vs_hero(&vec![s("A"), s("B"), s("C"), s("Z")], &rows);
    assert_eq!((v[0].tournaments, v[0].hero_wins, v[0].hu_matches, v[0].their_wins), (2, 1, 1, 0));
    assert_eq!((v[1].tournaments, v[1].hero_wins, v[1].hu_matches, v[1].their_wins), (2, 1, 0, 1));
    assert_eq!((v[2].tournaments, v[2].hero_wins, v[2].hu_matches, v[2].their_wins), (1, 0, 1, 1));
    assert_eq!((v[3].tournaments, v[3].hero_wins, v[3].hu_matches, v[3].their_wins), (0, 0, 0, 0));
}
