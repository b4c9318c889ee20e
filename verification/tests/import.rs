use spin_tracker_op::import::{plan_import, ImportTour, KnownTour};

fn tour(id: &str, hero: &str, room: &str, is_spin: bool, complete: bool, hands: &[&str]) -> ImportTour {
    ImportTour {
        id: id.to_string(),
        hero: hero.to_string(),
        room: room.to_string(),
        is_spin,
        complete,
        hand_ids: hands.iter().map(|h| h.to_string()).collect(),
    }
}

fn known(id: &str, hero: &str, room: &str, complete: bool) -> KnownTour {
    KnownTour { id: id.to_string(), hero: hero.to_string(), room: room.to_string(), complete }
}

#[test]
fn reimport_adds_no_duplicates() {
    let existing = vec!["w1".to_string(), "w2".to_string()];
    let files = vec![Some(vec![tour("wmx:1", "Me", "Winamax", true, true, &["w1", "w2", "w3", "w3"])])];
    let p = plan_import(&existing, &vec![], &files, None);
    assert_eq!(p.hands, 4);
    assert_eq!(p.duplicates, 3);
    assert_eq!(p.new_hands, vec!["w3".to_string()]);
}

#[test]
fn only_spins_are_kept_and_failures_counted() {
    let files = vec![
        None,
        Some(vec![tour("wmx:1", "Me", "Winamax", false, true, &["a", "b"]), tour("wmx:2", "Me", "Winamax", true, true, &["c"])]),
        None,
    ];
    let p = plan_import(&vec![], &vec![], &files, None);
    assert_eq!(p.invalid, 2);
    assert_eq!(p.skipped, 1);
    assert_eq!(p.hands, 1);
    assert_eq!(p.new_hands, vec!["c".to_string()]);
    assert_eq!(p.rooms, vec!["Winamax".to_string()]);
}

#[test]
fn incomplete_betclic_tournament_is_refreshed() {
    let existing = vec!["b1".to_string()];
    let k = vec![known("bcl:9", "Me", "Betclic", false), known("bcl:8", "Me", "Betclic", true)];
    let files = vec![Some(vec![tour("bcl:9", "Me", "Betclic", true, true, &["b1", "b2"]), tour("bcl:8", "Me", "Betclic", true, true, &["x"])])];
    let p = plan_import(&existing, &k, &files, None);
    assert_eq!(p.refreshed, vec!["bcl:9".to_string()]);
    assert_eq!(p.new_hands, vec!["b1".to_string(), "b2".to_string(), "x".to_string()]);
    assert_eq!(p.duplicates, 0);
}

#[test]
fn ipoker_room_rule() {
    // imposed room for iPoker files
    let files = vec![Some(vec![tour("ipk:1", "Me", "", true, true, &[])])];
    let p = plan_import(&vec![], &vec![], &files, Some("Betclic".to_string()));
    assert_eq!(p.rooms, vec!["Betclic".to_string()]);
    // the single room where the hero was seen
    let k = vec![known("bcl:1", "Me", "Betclic", true)];
    let p = plan_import(&vec![], &k, &files, None);
    assert_eq!(p.rooms, vec!["Betclic".to_string()]);
    // two rooms for the hero: PMU
    let k2 = vec![known("bcl:1", "Me", "Betclic", true), known("wmx:1", "Me", "Winamax", true)];
    let p = plan_import(&vec![], &k2, &files, None);
    assert_eq!(p.rooms, vec!["PMU".to_string()]);
    // an iPoker tournament's room is not evidence
    let k3 = vec![known("ipk:7", "Me", "Unibet", true)];
    let p = plan_import(&vec![], &k3, &files, None);
    assert_eq!(p.rooms, vec!["PMU".to_string()]);
}

#[test]
fn second_import_of_the_same_files_keeps_nothing() {
    let existing = vec!["b1".to_string()];
    let k = vec![known("bcl:9", "Me", "Betclic", false)];
    let files = vec![Some(vec![
        tour("bcl:9", "Me", "Betclic", true, true, &["b1", "b2"]),
        tour("wmx:3", "Me", "Winamax", true, true, &["w1", "w1"]),
    ])];
    let p1 = plan_import(&existing, &k, &files, None);
    assert_eq!(p1.new_hands.len(), 3);
    let mut existing2 = existing.clone();
    existing2.extend(p1.new_hands.iter().cloned());
    let k2 = vec![known("bcl:9", "Me", "Betclic", true), known("wmx:3", "Me", "Winamax", true)];
    let p2 = plan_import(&existing2, &k2, &files, None);
    assert_eq!(p2.new_hands, Vec::<String>::new());
    assert_eq!(p2.duplicates, p2.hands);
    assert_eq!(p2.hands, p1.hands);
    assert_eq!(p2.refreshed, Vec::<String>::new());
}

#[test]
fn empty_imposed_room_falls_back_to_the_hero_room_or_pmu() {
    let files = vec![Some(vec![tour("ipk:1", "Me", "Winamax", true, true, &[])])];
    // the file's own room is where the hero was seen
    let p = plan_import(&vec![], &vec![], &files, Some(String::new()));
    assert_eq!(p.rooms, vec!["Winamax".to_string()]);
    // seen in two rooms: PMU
    let k = vec![known("bcl:1", "Me", "Betclic", true)];
    let p = plan_import(&vec![], &k, &files, Some(String::new()));
    assert_eq!(p.rooms, vec!["PMU".to_string()]);
}
