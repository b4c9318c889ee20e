use spin_tracker_op::store::{merge_tournament, sort_order, tour_hands, tour_position, SortKey, TourRecord};

fn key(major: i64, minor: i64, id: &str) -> SortKey {
    SortKey { major, minor, id: id.to_string() }
}

#[test]
fn tournaments_sorted_by_start_then_id() {
    let keys = vec![key(300, 0, "b"), key(100, 0, "z"), key(300, 0, "a"), key(200, 0, "m")];
    assert_eq!(sort_order(&keys), vec![1, 3, 2, 0]);
    assert_eq!(sort_order(&vec![]), Vec::<usize>::new());
}

#[test]
fn hands_sorted_by_tournament_time_and_id_stably() {
    let keys = vec![
        key(1, 50, "h2"),
        key(0, 70, "h1"),
        key(1, 50, "h10"),
        key(0, 70, "h1"),
        key(0, 20, "h9"),
    ];
    // "h10" < "h2" as strings; equal keys keep their order.
    assert_eq!(sort_order(&keys), vec![4, 1, 3, 2, 0]);
}

#[test]
fn ids_compare_as_strings() {
    let keys = vec![key(0, 0, "ab"), key(0, 0, "a"), key(0, 0, "B"), key(0, 0, "é"), key(0, 0, "")];
    let mut ids: Vec<&str> = keys.iter().map(|k| k.id.as_str()).collect();
    ids.sort();
    let ord: Vec<&str> = sort_order(&keys).iter().map(|&i| keys[i].id.as_str()).collect();
    assert_eq!(ord, ids);
}

#[test]
fn hands_are_indexed_by_tournament() {
    let ids = vec!["t1".to_string(), "t2".to_string(), "t3".to_string()];
    assert_eq!(tour_position(&ids, &"t2".to_string()), Some(1));
    assert_eq!(tour_position(&ids, &"t9".to_string()), None);
    let dup = vec!["t1".to_string(), "t1".to_string()];
    assert_eq!(tour_position(&dup, &"t1".to_string()), Some(1));
    let hand_tour = vec![0, 0, 2, 0, 2];
    assert_eq!(tour_hands(&hand_tour, 3), vec![vec![0, 1, 3], vec![], vec![2, 4]]);
}

fn rec(name: &str, hero: &str, start: i64, end: i64, place: u8, hands: u32) -> TourRecord {
    TourRecord { name: name.to_string(), hero: hero.to_string(), start, end, place, hands }
}

#[test]
fn merging_two_records_of_a_tournament() {
    let mut a = rec("", "Me", 0, 500, 0, 12);
    merge_tournament(&mut a, rec("Spin 5", "Other", 200, 400, 2, 30));
    assert_eq!((a.name.as_str(), a.hero.as_str(), a.start, a.end, a.place, a.hands), ("Spin 5", "Me", 200, 500, 2, 30));
    merge_tournament(&mut a, rec("X", "", 100, 600, 1, 3));
    assert_eq!((a.name.as_str(), a.start, a.end, a.place, a.hands), ("Spin 5", 100, 600, 2, 30));
    merge_tournament(&mut a, rec("", "", 0, 0, 0, 0));
    assert_eq!((a.start, a.end), (100, 600));
}
