use spin_tracker_op::analysis::Scenario;
use spin_tracker_op::stats::leaks::Decision;
use spin_tracker_op::stats::tally::{reference_seats, scenario_hands, DecisionTally};

fn dec(key: &str, class: usize, bucket: usize) -> Decision {
    Decision {
        scenario: Scenario::Btn,
        key: key.to_string(),
        label: String::new(),
        kind: "open",
        class,
        bucket,
    }
}

fn s(x: &str) -> String {
    x.to_string()
}

#[test]
fn tally_counts_by_key_class_and_bucket() {
    let mut t = DecisionTally::new();
    t.add_decisions(&vec![dec("BTN|open", 1, 2), dec("BTN|open", 3, 2), dec("BB|vs BTN", 2, 5)]);
    t.add_decisions(&vec![dec("BTN|open", 1, 7)]);
    assert_eq!(t.total, 4);
    assert_eq!(t.keys, vec![s("BTN|open"), s("BB|vs BTN")]);
    assert_eq!(t.count_of(&s("BTN|open"), 1), 2);
    assert_eq!(t.count_of(&s("BTN|open"), 3), 1);
    assert_eq!(t.count_of(&s("BTN|open"), 0), 0);
    assert_eq!(t.count_of(&s("BB|vs BTN"), 2), 1);
    assert_eq!(t.count_of(&s("SB|open"), 2), 0);
    assert_eq!(t.bucket_count_of(&s("BTN|open"), 2, 1), 1);
    assert_eq!(t.bucket_count_of(&s("BTN|open"), 7, 1), 1);
    assert_eq!(t.bucket_count_of(&s("BTN|open"), 2, 3), 1);
    assert_eq!(t.bucket_count_of(&s("BB|vs BTN"), 5, 2), 1);
    assert_eq!(t.bucket_count_of(&s("BB|vs BTN"), 2, 2), 0);
}

#[test]
fn tally_of_two_hands_equals_tally_of_both_at_once() {
    let a = vec![dec("k", 0, 0), dec("j", 1, 9)];
    let b = vec![dec("k", 0, 3), dec("k", 2, 0)];
    let mut one = DecisionTally::new();
    one.add_decisions(&a);
    one.add_decisions(&b);
    let mut both = DecisionTally::new();
    let mut all = a;
    all.extend(b);
    both.add_decisions(&all);
    for key in ["k", "j", "x"] {
        for c in 0..4 {
            assert_eq!(one.count_of(&s(key), c), both.count_of(&s(key), c));
            for bk in 0..10 {
                assert_eq!(one.bucket_count_of(&s(key), bk, c), both.bucket_count_of(&s(key), bk, c));
            }
        }
    }
    assert_eq!(one.count_of(&s("k"), 0), 2);
}

#[test]
fn reference_population_leaves_out_the_player_and_the_heroes() {
    let names = vec![s("Hero"), s("Alt"), s("Villain")];
    let heroes = vec![s("Hero"), s("Alt")];
    assert_eq!(reference_seats(&names, Some(0), &heroes, true, &None), vec![2]);
    assert_eq!(reference_seats(&names, Some(2), &heroes, false, &None), vec![0, 1]);
    assert_eq!(reference_seats(&names, None, &vec![], false, &None), vec![0, 1, 2]);
    let tagged = Some(vec![s("Villain"), s("Alt")]);
    assert_eq!(reference_seats(&names, Some(0), &heroes, false, &tagged), vec![1, 2]);
    assert_eq!(reference_seats(&names, Some(0), &heroes, true, &tagged), vec![2]);
}

#[test]
fn hands_are_counted_per_scenario_panel() {
    let scs = vec![Scenario::HuBb, Scenario::Btn, Scenario::HuBb, Scenario::BbVsSb];
    assert_eq!(scenario_hands(&scs), vec![1, 0, 0, 0, 1, 0, 2]);
    assert_eq!(scenario_hands(&vec![]), vec![0; 7]);
}
