use spin_tracker_op::parser::{betclic, common, ipoker, stars, winamax};

#[test]
fn common_cards() {
    assert_eq!(common::card("Ah"), Some(50));
    assert_eq!(common::card("AH"), Some(50));
    assert_eq!(common::card("10h"), Some(34));
    assert_eq!(common::card("Th"), Some(34));
    assert_eq!(common::card("A\u{2665}"), Some(50));
    assert_eq!(common::card(" [Ah, "), Some(50));
    assert_eq!(common::card("X"), None);
    assert_eq!(common::card("1h"), None);
    assert_eq!(common::card("Ax"), None);
    assert_eq!(common::cards_in_brackets("Board [Ah, Kd] and [10c]"), vec![50, 45, 32]);
    assert_eq!(common::cards_in_brackets("no cards [here"), Vec::<u8>::new());
}

#[test]
fn ipoker_cards() {
    assert!(ipoker::looks_like("<session sessioncode=\"x\">"));
    assert!(ipoker::looks_like("<session>\n<game gamecode=\"1\">"));
    assert!(!ipoker::looks_like("<session>"));
    assert_eq!(ipoker::parse_card("HA"), Some(50));
    assert_eq!(ipoker::parse_card(" S10 "), Some(35));
    assert_eq!(ipoker::parse_card("cq"), Some(40));
    assert_eq!(ipoker::parse_card("X2"), None);
    assert_eq!(ipoker::parse_card("H"), None);
    assert_eq!(ipoker::parse_cards("HA S10 X2 D2"), vec![50, 35, 1]);
}

#[test]
fn winamax_lines() {
    assert!(winamax::looks_like("Winamax Poker - Tournament"));
    assert!(winamax::looks_like("junk\nWinamax Poker - Tournament"));
    assert!(!winamax::looks_like("PokerStars Hand #1"));
    assert_eq!(winamax::card("Ah"), Some(50));
    assert_eq!(winamax::card("ah"), Some(50));
    assert_eq!(winamax::card("10h"), None);
    assert_eq!(winamax::cards_in_brackets("Dealt to X [Ah Kd] [7c]"), vec![50, 45, 20]);
    assert_eq!(winamax::between("a'b'c", "'", "'"), Some("b".to_string()));
    assert_eq!(winamax::between("a'b", "'", "'"), None);
    assert_eq!(winamax::tid_from_table("Table: 'Expresso(603548617)#0' 3-max"), Some("603548617".to_string()));
    assert_eq!(winamax::tid_from_table("Table: 'Expresso' 3-max"), None);
}

#[test]
fn stars_lines() {
    assert!(stars::looks_like("PokerStars Hand #123: Tournament #9"));
    assert!(stars::looks_like("  Unibet Hand #5"));
    assert!(stars::looks_like("PokerStars Tournament #5, Spin"));
    assert!(!stars::looks_like("PokerStars Game"));
    assert_eq!(stars::room_of("Unibet Hand #5"), "Unibet");
    assert_eq!(stars::room_of("PokerStars Hand #5"), "PokerStars");
    assert_eq!(stars::clean_name("  Pseudo [Unibet_28204e]  "), "Pseudo");
    assert_eq!(stars::clean_name("a [b"), "a [b");
    assert_eq!(stars::between("x=1;y", "=", ";"), Some("1".to_string()));
    assert_eq!(stars::between("x=1", "=", ";"), Some("1".to_string()));
    assert_eq!(stars::between("abc", "z", ";"), None);
    assert_eq!(stars::find_date_raw("started 2024/05/01 10:00:00 CET"), Some(1714557600));
    assert_eq!(stars::find_date_raw("10:00:00 2024/05/01 at"), Some(1714557600));
    assert_eq!(stars::find_date_raw("no date"), None);
    assert_eq!(stars::find_date("started 2024/05/01 10:00:00 UTC"), Some(1714564800));
    assert_eq!(stars::find_date("started 2024/05/01 10:00:00 CET"), Some(1714557600));
    assert!(stars::find_date_in_range("started 2024/05/01 10:00:00 CET"));
}

#[test]
fn betclic_headers() {
    assert!(betclic::looks_like("Hand ID: 12\n*** PLAYERS ***\n"));
    assert!(!betclic::looks_like("Hand ID: 12\n"));
    let block = "Hand ID: 123 \n  table: Spin #4\n";
    assert_eq!(betclic::header(block, "hand id:"), Some("123".to_string()));
    assert_eq!(betclic::header(block, "Table:"), Some("Spin #4".to_string()));
    assert_eq!(betclic::header(block, "Level:"), None);
}
