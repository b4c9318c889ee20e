use spin_tracker_op::solver::ranges::{cell_name, cell_of, classify, combo_name, mask, parse_cards, DRAWS, MADE};

#[test]
fn cells() {
    let c = |s: &str| parse_cards(s).unwrap();
    assert_eq!(cell_name(cell_of(c("As")[0], c("Ks")[0])), "AKs");
    assert_eq!(cell_name(cell_of(c("Kd")[0], c("As")[0])), "AKo");
    assert_eq!(cell_name(cell_of(c("7d")[0], c("7s")[0])), "77");
    assert_eq!(cell_name(0), "AA");
    assert_eq!(cell_name(168), "22");
}

#[test]
fn categories() {
    let b = parse_cards("Kh7d2c").unwrap();
    let c = |s: &str| parse_cards(s).unwrap();
    let k = |s: &str| classify(c(s)[0], c(s)[1], &b);
    assert_eq!(MADE[k("AsAd").0], "Overpair");
    assert_eq!(MADE[k("KsQd").0], "Top paire");
    assert_eq!(MADE[k("7s7c").0], "Brelan (set)");
    assert_eq!(MADE[k("9s9c").0], "Paire sous la top");
    assert_eq!(MADE[k("7s6s").0], "Paire moyenne");
    assert_eq!(MADE[k("AsQd").0], "Hauteur as");
    let b2 = parse_cards("9h8h2c").unwrap();
    let (_, d) = classify(c("Th")[0], c("Jh")[0], &b2);
    assert!(d.contains(&0) && d.contains(&1) && d.contains(&3), "{d:?}");
    let (_, d) = classify(c("Tc")[0], c("6d")[0], &b2);
    assert!(d.contains(&2) && !d.contains(&1), "{d:?}");
}

#[test]
fn cell_layout() {
    // pairs on the diagonal, suited above it, offsuit below it
    assert_eq!(cell_of(50, 51), 0);
    assert_eq!(cell_of(0, 1), 168);
    // As Ks: row 0 (ace), column 1 (king)
    assert_eq!(cell_of(51, 47), 1);
    // Kd As: row 1, column 0
    assert_eq!(cell_of(45, 51), 13);
    assert_eq!(cell_of(45, 51), cell_of(51, 45));
    assert_eq!(cell_name(1), "AKs");
    assert_eq!(cell_name(13), "AKo");
    assert_eq!(cell_name(12 * 13 + 11), "32o");
    assert_eq!(cell_name(11 * 13 + 12), "32s");
}

#[test]
fn combo_names() {
    assert_eq!(combo_name(45, 50), "AhKd");
    assert_eq!(combo_name(50, 45), "AhKd");
    assert_eq!(combo_name(0, 3), "2s2c");
}

#[test]
fn card_lists() {
    assert_eq!(parse_cards("Ah Kd, 7c").unwrap(), vec![50, 45, 20]);
    assert_eq!(parse_cards("ahKD").unwrap(), vec![50, 45]);
    assert_eq!(parse_cards("").unwrap(), Vec::<u8>::new());
    assert_eq!(parse_cards(" , ").unwrap(), Vec::<u8>::new());
    assert_eq!(parse_cards("AhK").unwrap_err(), "cartes invalides : AhK");
    assert_eq!(parse_cards("Ah dK").unwrap_err(), "rang inconnu : d");
    assert_eq!(parse_cards("Xh").unwrap_err(), "rang inconnu : X");
    assert_eq!(parse_cards("Ax").unwrap_err(), "couleur inconnue : x");
    assert_eq!(parse_cards("AhAh").unwrap_err(), "carte en double : Ah");
    assert_eq!(parse_cards("Ahah").unwrap_err(), "carte en double : Ah");
    // multi-byte characters count by their bytes
    assert_eq!(parse_cards("\u{e9}A").unwrap_err(), "cartes invalides : \u{e9}A");
    assert_eq!(parse_cards("\u{e9}").unwrap_err(), "rang inconnu : \u{c3}");
}

#[test]
fn card_mask() {
    assert_eq!(mask(&[]), 0);
    assert_eq!(mask(&[0, 63]), 1 | (1u64 << 63));
    assert_eq!(mask(&[5, 5, 2]), (1 << 5) | (1 << 2));
}

#[test]
fn made_hands_and_draws() {
    let c = |s: &str| parse_cards(s).unwrap();
    let b = c("Kh7d2c");
    // two pair with both hole cards
    let (m, d) = classify(c("Ks")[0], c("7s")[0], &b);
    assert_eq!(MADE[m], "Deux paires");
    assert!(d.is_empty());
    // nothing, no draw
    let (m, d) = classify(c("Qs")[0], c("Jd")[0], &b);
    assert_eq!(MADE[m], "Rien");
    assert!(d.is_empty());
    // two overcards to a low board
    let b3 = c("7h5d2c");
    let (m, d) = classify(c("As")[0], c("Kd")[0], &b3);
    assert_eq!(MADE[m], "Hauteur as");
    assert_eq!(d, vec![5]);
    assert_eq!(DRAWS[5], "Deux overcards");
    // backdoor flush on the flop
    let (_, d) = classify(c("Ah")[0], c("Qh")[0], &c("Kh7d2c"));
    assert!(d.contains(&4), "{d:?}");
    // no draws on the river
    let (_, d) = classify(c("Th")[0], c("Jh")[0], &c("9h8h2c3d4s"));
    assert!(d.is_empty());
    // straight made: category 4, no draws
    let (m, d) = classify(c("Th")[0], c("Jd")[0], &c("9h8c7s"));
    assert_eq!(MADE[m], "Quinte");
    assert!(d.is_empty());
    // small pair and paired board
    let (m, _) = classify(c("3s")[0], c("4d")[0], &c("Kh7d3c"));
    assert_eq!(MADE[m], "Petite paire");
}
