use spin_tracker_op::parser::{
    date_in_range, days_from_civil, detect_format, first_num, parse_date, parse_date_tz, parse_num, read_text, utc_to_paris,
    Decimal, Format, RawSource,
};

/// Value of a decimal read from a history, through the same float literal parsing as a
/// plain `str::parse`.
fn val(d: &Decimal) -> f64 {
    if d.digits.is_empty() {
        return 0.0;
    }
    let mut s = String::new();
    if d.negative {
        s.push('-');
    }
    let n = d.digits.len();
    for (i, x) in d.digits.iter().enumerate() {
        if i == n - d.scale {
            s.push('.');
        }
        s.push((b'0' + x) as char);
    }
    if d.scale == n {
        s.insert(if d.negative { 1 } else { 0 }, '0');
    }
    s.parse().unwrap()
}

#[test]
fn nums() {
    assert_eq!(val(&parse_num("1 010")), 1010.0);
    assert_eq!(val(&parse_num("0,35€")), 0.35);
    assert_eq!(val(&parse_num("N/A")), 0.0);
    assert_eq!(parse_date("1970-01-02 00:00:01"), Some(86401));
}

#[test]
fn number_text() {
    assert_eq!(val(&parse_num("€4.65")), 4.65);
    assert_eq!(val(&parse_num("1.234.56")), 1234.56);
    assert_eq!(val(&parse_num("-3,5")), -3.5);
    assert_eq!(val(&parse_num("--3")), 0.0);
    assert_eq!(val(&parse_num("1-2")), 0.0);
    assert_eq!(val(&parse_num(".5")), 0.5);
    let d = parse_num("12,50 €");
    assert_eq!((d.negative, d.digits.clone(), d.scale), (false, vec![1, 2, 5, 0], 2));
    let z = parse_num("");
    assert!(z.digits.is_empty());
}

#[test]
fn first_numbers() {
    assert_eq!(first_num("to 40 and is all-in").map(|d| val(&d)), Some(40.0));
    assert_eq!(first_num("raises 1 000 to 2 000").map(|d| val(&d)), Some(1000.0));
    assert_eq!(first_num("bets 12,5 chips").map(|d| val(&d)), Some(12.5));
    assert_eq!(first_num("x 3.5. y").map(|d| val(&d)), Some(35.0));
    assert_eq!(first_num("no digits"), None);
}

#[test]
fn calendar_days() {
    assert_eq!(days_from_civil(1970, 1, 1), 0);
    assert_eq!(days_from_civil(1969, 12, 31), -1);
    assert_eq!(days_from_civil(2000, 1, 1), 10957);
    assert_eq!(days_from_civil(2024, 2, 29), 19782);
    assert_eq!(days_from_civil(2024, 3, 1), 19783);
}

#[test]
fn dates() {
    assert_eq!(parse_date("2026-09-19 22:26:13"), Some(1789856773));
    assert_eq!(parse_date("2026/09/19 22:26:13"), Some(1789856773));
    assert_eq!(parse_date("  2024-07-01  "), Some(1719792000));
    assert_eq!(parse_date("12-05"), None);
    assert_eq!(parse_date("hello"), None);
    assert!(date_in_range("2026-09-19 22:26:13"));
    assert!(!date_in_range("99999999999999 1 1"));
    // the bound is what `i64` arithmetic allows
    assert!(date_in_range("5000000000 1 1"));
    assert!(date_in_range("2024 99999999999 1"));
    assert_eq!(parse_date("1970 1 1 2000000000000"), Some(7200000000000000));
    assert!(!date_in_range("1970 1 1 3000000000000000"));
}

#[test]
fn paris_time() {
    // winter: UTC+1, summer: UTC+2, switching at 01:00 UTC on the last Sundays of March
    // and October
    assert_eq!(utc_to_paris(1705276800), 1705276800 + 3600);
    assert_eq!(utc_to_paris(1719835200), 1719835200 + 7200);
    assert_eq!(utc_to_paris(1711846800 - 1), 1711846800 - 1 + 3600);
    assert_eq!(utc_to_paris(1711846800), 1711846800 + 7200);
    assert_eq!(utc_to_paris(1729990800 - 1), 1729990800 - 1 + 7200);
    assert_eq!(utc_to_paris(1729990800), 1729990800 + 3600);
    assert_eq!(parse_date_tz("2024-07-01 12:00:00 UTC"), Some(1719835200 + 7200));
    assert_eq!(parse_date_tz("2024-07-01 12:00:00 gmt"), Some(1719835200 + 7200));
    assert_eq!(parse_date_tz("2024-07-01 12:00:00 CET"), Some(1719835200));
    assert_eq!(parse_date_tz("nothing"), None);
}

#[test]
fn formats() {
    let src = |c: &str| RawSource { name: "f.txt".to_string(), content: c.to_string() };
    assert_eq!(detect_format(&src("\u{feff}Winamax Poker - Tournament")), Some(Format::Winamax));
    assert_eq!(detect_format(&src("<session sessioncode=\"1\">")), Some(Format::IPoker));
    assert_eq!(detect_format(&src("Hand ID: 1\n*** PLAYERS ***\n")), Some(Format::Betclic));
    assert_eq!(detect_format(&src("PokerStars Hand #1: Tournament")), Some(Format::Stars));
    assert_eq!(detect_format(&src("nothing here")), None);
}

#[test]
fn text_bytes() {
    assert_eq!(read_text("héllo".as_bytes().to_vec()), "héllo");
    assert_eq!(read_text(vec![0x68, 0xe9]), "h\u{e9}");
    assert_eq!(read_text(vec![]), "");
}
