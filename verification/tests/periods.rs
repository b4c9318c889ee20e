use spin_tracker_op::stats::breakdown::period_key;

#[test]
fn period_keys() {
    assert_eq!(period_key("day", 19782, 0), Some(("29/02/2024".to_string(), 19782)));
    assert_eq!(period_key("week", 19782, 0), Some(("Sem. 26/02/2024".to_string(), 19779)));
    assert_eq!(period_key("year", 19782, 0), Some(("2024".to_string(), 2024)));
    assert_eq!(period_key("hour", 19782, 1719835200), Some(("12h".to_string(), 12)));
    assert_eq!(period_key("hour", 0, 5 * 3600 + 59), Some(("05h".to_string(), 5)));
    assert_eq!(period_key("hour", 0, -1), Some(("23h".to_string(), 23)));
    assert_eq!(period_key("weekday", 19782, 0), Some(("Jeudi".to_string(), 3)));
    assert_eq!(period_key("month", 19782, 0), Some(("F\u{e9}vr 24".to_string(), 2024 * 12 + 2)));
    assert_eq!(period_key("", -1, 0), Some(("D\u{e9}c 69".to_string(), 1969 * 12 + 12)));
    assert_eq!(period_key("day", 0, 0), Some(("01/01/1970".to_string(), 0)));
    for g in ["buyin", "multiplier", "room", "tables"] {
        assert_eq!(period_key(g, 19782, 0), None);
    }
}

use spin_tracker_op::stats::summary::union_seconds;

#[test]
fn time_played_with_several_tables() {
    assert_eq!(union_seconds(&vec![]), 0);
    assert_eq!(union_seconds(&vec![(0, 10), (5, 20), (30, 40)]), 30);
    assert_eq!(union_seconds(&vec![(30, 40), (0, 10), (5, 20)]), 30);
    assert_eq!(union_seconds(&vec![(0, 100), (10, 20)]), 100);
    assert_eq!(union_seconds(&vec![(0, 10), (10, 20)]), 20);
    // a tournament whose end is before its start counts for nothing
    assert_eq!(union_seconds(&vec![(10, 5)]), 0);
    assert_eq!(union_seconds(&vec![(10, 5), (0, 3)]), 3);
    assert_eq!(union_seconds(&vec![(-50, -20), (-30, 0)]), 50);
}
