use spin_tracker_op::eval::eval;
use spin_tracker_op::model::Card;

fn c(s: &str) -> Card {
    let r = b"23456789TJQKA".iter().position(|&x| x == s.as_bytes()[0]).unwrap() as u8;
    let su = b"cdhs".iter().position(|&x| x == s.as_bytes()[1]).unwrap() as u8;
    r * 4 + su
}

fn h(s: &str) -> Vec<Card> {
    s.split(' ').map(c).collect()
}

#[test]
fn ranks() {
    let sf = eval(&h("Ah Kh Qh Jh Th 2c 3d"));
    let quads = eval(&h("Ac Ad Ah As Kd 2c 3d"));
    let fh = eval(&h("Ac Ad Ah Ks Kd 2c 3d"));
    let fl = eval(&h("Ah 9h 7h 4h 2h Kc Kd"));
    let st = eval(&h("5c 6d 7h 8s 9d Kc Kd"));
    let wheel = eval(&h("Ac 2d 3h 4s 5d Kc Qd"));
    let trips = eval(&h("Ac Ad Ah 9s 5d Kc 2d"));
    let tp = eval(&h("Ac Ad Kh Ks 5d 7c 2d"));
    let p = eval(&h("Ac Ad Kh Js 5d 7c 2d"));
    let hc = eval(&h("Ac Qd Kh Js 5d 7c 2d"));
    assert!(sf > quads && quads > fh && fh > fl && fl > st && st > wheel && wheel > trips);
    assert!(trips > tp && tp > p && p > hc);
    // kicker
    assert!(eval(&h("Ac Ad Kh 9s 5d 7c 2d")) > eval(&h("Ac Ad Qh 9s 5d 7c 2d")));
    // two sets make a full house
    assert_eq!(eval(&h("Ac Ad Ah Ks Kd Kc 3d")) >> 26, 6);
}

#[test]
fn eval_exact_values() {
    // royal flush: category 8, top card ace (12)
    assert_eq!(eval(&h("Ah Kh Qh Jh Th 2c 3d")), (8 << 26) | 12);
    // wheel straight: category 4, top card five (3)
    assert_eq!(eval(&h("Ac 2d 3h 4s 5d Kc Qd")), (4 << 26) | 3);
    // quad aces, king kicker
    assert_eq!(eval(&h("Ac Ad Ah As Kd 2c 3d")), (7 << 26) | (12 << 16) | (1 << 11));
    // order of the cards does not matter
    assert_eq!(eval(&h("2c 3d Kd As Ah Ad Ac")), eval(&h("Ac Ad Ah As Kd 2c 3d")));
    // high card: the five highest ranks as a mask
    assert_eq!(eval(&h("Ac Qd Kh Js 5d 7c 2d")), (1 << 12) | (1 << 11) | (1 << 10) | (1 << 9) | (1 << 5));
}

#[test]
fn suits_relabelled_keep_the_strength() {
    let hands: Vec<Vec<u8>> = vec![vec![48, 44, 40, 36, 32, 0, 5], vec![51, 50, 49, 47, 46, 0], vec![0, 5, 10, 15, 19]];
    for cards in hands {
        for p in [[1u8, 0, 3, 2], [3, 2, 1, 0], [2, 3, 0, 1]] {
            let r: Vec<u8> = cards.iter().map(|&c| (c & !3) | p[(c & 3) as usize]).collect();
            assert_eq!(eval(&r), eval(&cards));
        }
    }
}

fn best_of_fives(cards: &[Card]) -> u32 {
    // every five-card subset, by bit masks
    let n = cards.len();
    let mut best = 0;
    for m in 0u32..(1 << n) {
        if m.count_ones() == 5 {
            let five: Vec<Card> = (0..n).filter(|&i| m >> i & 1 == 1).map(|i| cards[i]).collect();
            best = best.max(eval(&five));
        }
    }
    best
}

#[test]
fn seven_cards_are_worth_their_best_five() {
    let hands = [
        "Ah Kh Qh Jh Th 2c 3d",
        "Ac Ad Ah As Kd 2c 3d",
        "Ac Ad Ah Ks Kd Kc 3d",
        "Ah 9h 7h 4h 2h Kh Kd",
        "5c 6d 7h 8s 9d Tc Kd",
        "Ac 2d 3h 4s 5d Kc Qd",
        "Ac Ad Ah 9s 5d Kc 2d",
        "Ac Ad Kh Ks 5d 5c 2d",
        "Ac Ad Kh Js 5d 7c 2d",
        "Ac Qd Kh Js 5d 7c 2d",
        "2c 3d 4h 5s 6d 7c 8d",
        "Ac Ad Kh Js 5d 7c",
    ];
    for s in hands {
        let cards = h(s);
        let all = eval(&cards);
        let best = best_of_fives(&cards);
        assert_eq!(all, best, "{s}");
        assert_eq!(all >> 26, best >> 26, "{s}");
    }
}
