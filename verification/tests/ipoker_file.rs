use spin_tracker_op::model::ActKind;
use spin_tracker_op::parser::ipoker_file::{ipk_room, read_ipoker, IpkFile};
use spin_tracker_op::parser::Decimal;

fn dec(d: &Decimal) -> (bool, Vec<u8>, usize) {
    (d.negative, d.digits.clone(), d.scale)
}

const IPK: &str = r#"<?xml version="1.0" encoding="UTF-8"?>
<session sessioncode="123">
<general>
<nickname>HeroU</nickname>
<tournamentcode>987654</tournamentcode>
<tournamentname>Spin 5</tournamentname>
<tablename>Table 1</tablename>
<tablesize>3</tablesize>
<tournamentcurrency>EUR</tournamentcurrency>
<buyin>0€ + 0,35€ + 4,65€</buyin>
<totalbuyin>5€</totalbuyin>
<rewarddrawn>10€</rewarddrawn>
<place>1</place>
<win>10€</win>
<startdate>2025-01-01 20:00:00</startdate>
<duration>00:12:30</duration>
</general>
<game gamecode="111">
<general>
<startdate>2025-01-01 20:01:00</startdate>
<smallblind>10</smallblind>
<bigblind>20</bigblind>
<ante>0</ante>
<players>
<player seat="3" name="HeroU" chips="500" dealer="0" win="0" bet="20" reg_code="x"/>
<player seat="1" name="Alice" chips="500" dealer="1" win="60" bet="40"/>
<player seat="2" name="Bob" chips="480,5" dealer="0" win="0" bet="10"/>
</players>
</general>
<round no="1">
<cards type="Pocket" player="HeroU">SA DK</cards>
<action no="5" player="Alice" sum="40" type="23"/>
<action no="6" player="Bob" sum="0" type="0"/>
<action no="7" player="HeroU" sum="20" type="3"/>
<action no="8" player="Nobody" sum="20" type="3"/>
<action no="9" player="HeroU" sum="0" type="99"/>
</round>
<round no="0">
<action no="2" player="HeroU" sum="20" type="2"/>
<action no="1" player="Bob" sum="10" type="1"/>
</round>
<round no="2">
<cards type="Flop">H2 C10 S9</cards>
<action no="10" player="HeroU" sum="0" type="4"/>
<action no="11" player="Alice" sum="440" type="7"/>
</round>
</game>
<game gamecode="112">
<general>
<smallblind>10</smallblind>
<bigblind>20</bigblind>
<players>
<player seat="1" name="Alice" chips="500"/>
<player seat="2" name="Bob" chips="500"/>
</players>
</general>
</game>
<game gamecode="113">
<general>
<smallblind>15</smallblind>
<bigblind>30</bigblind>
<players>
<player seat="2" name="Bob" chips="600" dealer="1"/>
<player seat="1" name="HeroU" chips="400"/>
</players>
</general>
</game>
</session>
"#;

fn read(s: &str) -> IpkFile {
    match read_ipoker(s) {
        Some(Ok(f)) => f,
        _ => panic!("file not read"),
    }
}

#[test]
fn ipoker_reads_tournament_general() {
    let f = read(IPK);
    let h = &f.head;
    assert_eq!(h.hero, "HeroU");
    assert_eq!(h.tcode, "987654");
    assert_eq!(h.name, "Spin 5");
    assert_eq!(h.table_size, 3);
    assert_eq!(h.currency, "EUR");
    assert_eq!(h.buyin.len(), 3);
    assert_eq!(dec(&h.buyin[0]), (false, vec![0], 0));
    assert_eq!(dec(&h.buyin[1]), (false, vec![0, 3, 5], 2));
    assert_eq!(dec(&h.buyin[2]), (false, vec![4, 6, 5], 2));
    assert_eq!(dec(&h.total), (false, vec![5], 0));
    assert_eq!(dec(&h.prize), (false, vec![1, 0], 0));
    assert_eq!(h.place, 1);
    assert_eq!(dec(&h.win), (false, vec![1, 0], 0));
    assert_eq!(h.start, 1735761600);
    assert_eq!(h.duration, 750);
}

#[test]
fn ipoker_keeps_games_with_the_hero() {
    let f = read(IPK);
    // the second game has no hero and is left out
    assert_eq!(f.games.len(), 2);
    assert_eq!(f.games[0].id, "ipk:111");
    assert_eq!(f.games[1].id, "ipk:113");
    // a game without start date takes the tournament's
    assert_eq!(f.games[0].ts, 1735761660);
    assert_eq!(f.games[1].ts, 1735761600);
    assert_eq!(dec(&f.games[1].sb), (false, vec![1, 5], 0));
}

#[test]
fn ipoker_orders_seats_and_finds_button_and_hero() {
    let f = read(IPK);
    let g = &f.games[0];
    let names: Vec<&str> = g.seats.iter().map(|s| s.name.as_str()).collect();
    assert_eq!(names, vec!["Alice", "Bob", "HeroU"]);
    assert_eq!(g.button, 0);
    assert_eq!(g.hero, 2);
    assert!(g.seats[2].hero);
    assert_eq!(dec(&g.seats[1].chips), (false, vec![4, 8, 0, 5], 1));
    assert_eq!(dec(&g.seats[0].win), (false, vec![6, 0], 0));
    let g2 = &f.games[1];
    assert_eq!(g2.seats[0].name, "HeroU");
    assert_eq!(g2.hero, 0);
    assert_eq!(g2.button, 1);
}

#[test]
fn ipoker_reads_cards() {
    let f = read(IPK);
    let g = &f.games[0];
    assert_eq!(g.board, vec![2, 32, 31]);
    assert_eq!(g.hole, vec![None, None, Some([51, 45])]);
}

#[test]
fn ipoker_orders_rounds_and_actions() {
    let f = read(IPK);
    let a = &f.games[0].actions;
    let seen: Vec<(u8, u8, Option<ActKind>, usize)> = a.iter().map(|x| (x.street, x.p, x.kind, x.part)).collect();
    // only the type 23 raise is written as a street total
    let totals: Vec<bool> = a.iter().map(|x| x.to_total).collect();
    assert_eq!(totals, vec![false, false, true, false, false, false, false]);
    assert_eq!(
        seen,
        vec![
            (0, 1, Some(ActKind::SmallBlind), 0),
            (0, 2, Some(ActKind::BigBlind), 0),
            (0, 0, Some(ActKind::Raise), 0),
            (0, 1, Some(ActKind::Fold), 0),
            (0, 2, Some(ActKind::Call), 0),
            (1, 2, Some(ActKind::Check), 1),
            (1, 0, None, 1),
        ]
    );
    assert_eq!(dec(&a[2].amount), (false, vec![4, 0], 0));
    assert_eq!(dec(&a[3].amount), (false, vec![], 0));
    assert_eq!(dec(&a[6].amount), (false, vec![4, 4, 0], 0));
}

#[test]
fn ipoker_refuses_cash_game() {
    let x = "<session><general><nickname>H</nickname></general></session>";
    match read_ipoker(x) {
        Some(Err(m)) => assert_eq!(m, "pas un tournoi (cash game ignoré)"),
        _ => panic!("not refused"),
    }
}

#[test]
fn ipoker_refuses_without_general() {
    let x = "<session><game gamecode=\"1\"/></session>";
    match read_ipoker(x) {
        Some(Err(m)) => assert_eq!(m, "balise <general> manquante"),
        _ => panic!("not refused"),
    }
}

#[test]
fn ipoker_refuses_bad_xml() {
    match read_ipoker("<session><general></session>") {
        Some(Err(m)) => assert!(m.starts_with("XML invalide: ")),
        _ => panic!("not refused"),
    }
}

#[test]
fn ipoker_table_name_when_no_tournament_name() {
    let x = "<session><general><tournamentcode>5</tournamentcode><tablename>T 9</tablename><tablesize>x</tablesize></general></session>";
    let f = read(x);
    assert_eq!(f.head.name, "T 9");
    assert_eq!(f.head.table_size, 3);
    assert_eq!(f.head.place, 0);
    assert_eq!(f.head.start, 0);
    assert_eq!(f.head.duration, 0);
    assert_eq!(f.games.len(), 0);
}

#[test]
fn ipoker_room_from_path_and_text() {
    assert_eq!(ipk_room("C:/Users/x/PMU/hist.xml", "<session>"), "PMU");
    assert_eq!(ipk_room("hist.xml", "<session> BetClic poker"), "Betclic");
    assert_eq!(ipk_room("UNIBET/x.xml", "<session>"), "Unibet");
    assert_eq!(ipk_room("x.xml", "<session>"), "");
    assert_eq!(ipk_room("Barriere/x.xml", ""), "Barrière");
    assert_eq!(ipk_room("netbet-bwin.xml", ""), "NetBet");
}

#[test]
fn ipoker_type_6_raise_adds_chips() {
    let x = "<session><general><nickname>H</nickname><tournamentcode>T</tournamentcode></general><game gamecode='G'><general><players><player name='H' chips='500'/><player name='V' chips='500'/></players></general><round><action player='H' type='1' sum='10'/><action player='V' type='2' sum='20'/><action player='H' type='6' sum='50'/></round></game></session>";
    let f = read(x);
    let a = &f.games[0].actions;
    assert_eq!(a.len(), 3);
    assert_eq!(a[2].kind, Some(ActKind::Raise));
    assert!(!a[2].to_total);
    assert_eq!(dec(&a[2].amount), (false, vec![5, 0], 0));
}
