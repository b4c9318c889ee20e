//! The category of a hand of six or seven cards is that of its best five cards.
use vstd::prelude::*;
use crate::eval::{
    bit, bits_count, category, count_suit, holds, lemma_bits_five, lemma_count_total, lemma_eval_category,
    lemma_pop_bits, lemma_pop_count, lemma_ranks_in_suit_bits, lemma_suit_mask_bit, lemma_suit_mask_bound,
    rank_straight, ranks_in_suit, run_rank, spec_eval, suit_count, suit_mask, suit_straight, valid_cards,
};

verus! {

/// Every card of `sub` is among `cs`.
pub open spec fn cards_within(sub: Seq<u8>, cs: Seq<u8>) -> bool {
    forall|x: u8| #[trigger] sub.contains(x) ==> cs.contains(x)
}

/// `sub` is five different cards taken from `cs`.
pub open spec fn five_of(sub: Seq<u8>, cs: Seq<u8>) -> bool {
    &&& sub.len() == 5
    &&& sub.no_duplicates()
    &&& cards_within(sub, cs)
}

proof fn lemma_ris_mono(sub: Seq<u8>, cs: Seq<u8>, s: int, k: int)
    requires
        cards_within(sub, cs),
    ensures
        ranks_in_suit(sub, s, k) <= ranks_in_suit(cs, s, k),
    decreases k,
{
    if k > 0 {
        lemma_ris_mono(sub, cs, s, k - 1);
        if holds(sub, k - 1, s) {
            assert(holds(cs, k - 1, s));
        }
    }
}

/// Two different ranks held in suit `s` count twice.
proof fn lemma_ris_pair(cs: Seq<u8>, s: int, k: int, t: int, p: int)
    requires
        t != p,
    ensures
        ranks_in_suit(cs, s, k) >= (if 0 <= t < k && holds(cs, t, s) { 1int } else { 0int }) + (if 0 <= p
            < k && holds(cs, p, s) {
            1int
        } else {
            0int
        }),
    decreases k,
{
    if k > 0 {
        lemma_ris_pair(cs, s, k - 1, t, p);
    }
}

/// The ranks held in the four suits are at most the cards.
proof fn lemma_ris_total(cs: Seq<u8>)
    requires
        valid_cards(cs),
    ensures
        ranks_in_suit(cs, 0, 13) + ranks_in_suit(cs, 1, 13) + ranks_in_suit(cs, 2, 13) + ranks_in_suit(cs, 3, 13)
            <= cs.len(),
{
    assert forall|s: int| 0 <= s < 4 implies ranks_in_suit(cs, s, 13) <= count_suit(cs, s) by {
        lemma_ranks_in_suit_bits(cs, s, 13);
        lemma_suit_mask_bound(cs, s);
        lemma_pop_bits(suit_mask(cs, s));
        lemma_pop_count(cs, s);
    }
    lemma_count_total(cs);
}

/// Seven cards cannot hold both a flush and four of a kind, nor a flush and a full house.
pub(crate) proof fn lemma_no_flush_with_groups(cs: Seq<u8>, s: int, t: int, p: int)
    requires
        valid_cards(cs),
        cs.len() <= 7,
        0 <= s < 4,
        ranks_in_suit(cs, s, 13) >= 5,
        0 <= t < 13,
        0 <= p < 13,
    ensures
        suit_count(cs, t) != 4,
        t != p ==> !(suit_count(cs, t) >= 3 && suit_count(cs, p) >= 2),
{
    lemma_ris_total(cs);
    if t != p {
        lemma_ris_pair(cs, 0, 13, t, p);
        lemma_ris_pair(cs, 1, 13, t, p);
        lemma_ris_pair(cs, 2, 13, t, p);
        lemma_ris_pair(cs, 3, 13, t, p);
    } else {
        lemma_ris_pair(cs, 0, 13, t, -1);
        lemma_ris_pair(cs, 1, 13, t, -1);
        lemma_ris_pair(cs, 2, 13, t, -1);
        lemma_ris_pair(cs, 3, 13, t, -1);
    }
    assert(holds(cs, t, 0) == cs.contains((4 * t) as u8));
    assert(holds(cs, p, 0) == cs.contains((4 * p) as u8));
}

/// Taking some of the cards never gives a better category, with at most seven cards.
pub proof fn lemma_category_mono(sub: Seq<u8>, cs: Seq<u8>)
    requires
        valid_cards(cs),
        cs.len() <= 7,
        cards_within(sub, cs),
    ensures
        category(sub) <= category(cs),
{
    let c = category(sub);
    if c == 8 {
        let (s, t) = choose|s: int, t: int| 0 <= s < 4 && 3 <= t < 13 && #[trigger] suit_straight(sub, s, t);
        assert(suit_straight(cs, s, t));
    } else if c == 5 {
        let s = choose|s: int| 0 <= s < 4 && #[trigger] ranks_in_suit(sub, s, 13) >= 5;
        lemma_ris_mono(sub, cs, s, 13);
        assert(ranks_in_suit(cs, s, 13) >= 5);
    } else if c == 7 {
        let r = choose|r: int| 0 <= r < 13 && #[trigger] suit_count(sub, r) == 4;
        assert(suit_count(cs, r) == 4);
        if exists|s: int| 0 <= s < 4 && #[trigger] ranks_in_suit(cs, s, 13) >= 5 {
            let s = choose|s: int| 0 <= s < 4 && #[trigger] ranks_in_suit(cs, s, 13) >= 5;
            lemma_no_flush_with_groups(cs, s, r, r);
        }
    } else if c == 6 {
        let (t, p) = choose|t: int, p: int|
            0 <= t < 13 && 0 <= p < 13 && t != p && #[trigger] suit_count(sub, t) >= 3 && #[trigger] suit_count(sub, p) >= 2;
        assert(suit_count(cs, t) >= 3 && suit_count(cs, p) >= 2);
        if exists|s: int| 0 <= s < 4 && #[trigger] ranks_in_suit(cs, s, 13) >= 5 {
            let s = choose|s: int| 0 <= s < 4 && #[trigger] ranks_in_suit(cs, s, 13) >= 5;
            lemma_no_flush_with_groups(cs, s, t, p);
        }
    } else if c == 4 {
        let t = choose|t: int| 3 <= t < 13 && #[trigger] rank_straight(sub, t);
        assert(rank_straight(cs, t));
    } else if c == 3 {
        let r = choose|r: int| 0 <= r < 13 && #[trigger] suit_count(sub, r) >= 3;
        assert(suit_count(cs, r) >= 3);
    } else if c == 2 {
        let (a, b) = choose|a: int, b: int|
            0 <= a < 13 && 0 <= b < 13 && a != b && #[trigger] suit_count(sub, a) >= 2 && #[trigger] suit_count(sub, b) >= 2;
        assert(suit_count(cs, a) >= 2 && suit_count(cs, b) >= 2);
    } else if c == 1 {
        let r = choose|r: int| 0 <= r < 13 && #[trigger] suit_count(sub, r) >= 2;
        assert(suit_count(cs, r) >= 2);
    }
}

// ---------------------------------------------------------------- five cards with the category

/// Number of suits below `k` in which rank `r` is held.
pub open spec fn held_count(cs: Seq<u8>, r: int, k: int) -> int
    decreases k,
{
    if k <= 0 {
        0
    } else {
        held_count(cs, r, k - 1) + if holds(cs, r, k - 1) { 1int } else { 0int }
    }
}

/// The suits below `k` in which rank `r` is held, in increasing order.
pub open spec fn held_suits(cs: Seq<u8>, r: int, k: int) -> Seq<int>
    decreases k,
{
    if k <= 0 {
        Seq::empty()
    } else if holds(cs, r, k - 1) {
        held_suits(cs, r, k - 1).push(k - 1)
    } else {
        held_suits(cs, r, k - 1)
    }
}

/// The ranks below `k` held in suit `s`, in increasing order.
pub open spec fn suit_ranks(cs: Seq<u8>, s: int, k: int) -> Seq<int>
    decreases k,
{
    if k <= 0 {
        Seq::empty()
    } else if holds(cs, k - 1, s) {
        suit_ranks(cs, s, k - 1).push(k - 1)
    } else {
        suit_ranks(cs, s, k - 1)
    }
}

pub open spec fn increasing(l: Seq<int>) -> bool {
    forall|i: int, j: int| 0 <= i < j < l.len() ==> l[i] < l[j]
}

pub(crate) proof fn lemma_held_suits(cs: Seq<u8>, r: int, k: int)
    requires
        0 <= k,
    ensures
        held_suits(cs, r, k).len() == held_count(cs, r, k),
        increasing(held_suits(cs, r, k)),
        forall|i: int| 0 <= i < held_suits(cs, r, k).len() ==> 0 <= #[trigger] held_suits(cs, r, k)[i] < k
            && holds(cs, r, held_suits(cs, r, k)[i]),
    decreases k,
{
    if k > 0 {
        lemma_held_suits(cs, r, k - 1);
    }
}

pub(crate) proof fn lemma_suit_ranks(cs: Seq<u8>, s: int, k: int)
    requires
        0 <= k,
    ensures
        suit_ranks(cs, s, k).len() == ranks_in_suit(cs, s, k),
        increasing(suit_ranks(cs, s, k)),
        forall|i: int| 0 <= i < suit_ranks(cs, s, k).len() ==> 0 <= #[trigger] suit_ranks(cs, s, k)[i] < k
            && holds(cs, suit_ranks(cs, s, k)[i], s),
    decreases k,
{
    if k > 0 {
        lemma_suit_ranks(cs, s, k - 1);
    }
}

pub(crate) proof fn lemma_held_count_four(cs: Seq<u8>, r: int)
    ensures
        held_count(cs, r, 4) == suit_count(cs, r),
{
    assert(held_count(cs, r, 4) == held_count(cs, r, 3) + if holds(cs, r, 3) { 1int } else { 0int });
    assert(held_count(cs, r, 3) == held_count(cs, r, 2) + if holds(cs, r, 2) { 1int } else { 0int });
    assert(held_count(cs, r, 2) == held_count(cs, r, 1) + if holds(cs, r, 1) { 1int } else { 0int });
    assert(held_count(cs, r, 1) == held_count(cs, r, 0) + if holds(cs, r, 0) { 1int } else { 0int });
    assert(holds(cs, r, 0) == cs.contains((4 * r) as u8));
}

/// Suits `ks` (increasing, below `k`) all holding rank `r` count at least their number.
proof fn lemma_held_count_ge(x: Seq<u8>, r: int, ks: Seq<int>, k: int)
    requires
        increasing(ks),
        forall|i: int| 0 <= i < ks.len() ==> 0 <= #[trigger] ks[i] < k && holds(x, r, ks[i]),
    ensures
        held_count(x, r, k) >= ks.len(),
    decreases k,
{
    if k > 0 {
        if ks.len() > 0 && ks.last() == k - 1 {
            let d = ks.drop_last();
            assert forall|i: int| 0 <= i < d.len() implies 0 <= #[trigger] d[i] < k - 1 && holds(x, r, d[i]) by {
                assert(ks[i] < ks[ks.len() - 1]);
            }
            lemma_held_count_ge(x, r, d, k - 1);
        } else {
            assert forall|i: int| 0 <= i < ks.len() implies 0 <= #[trigger] ks[i] < k - 1 && holds(x, r, ks[i]) by {
                if ks[i] == k - 1 {
                    assert(ks[i] <= ks[ks.len() - 1]) by {
                        if i < ks.len() - 1 {
                            assert(ks[i] < ks[ks.len() - 1]);
                        }
                    }
                }
            }
            lemma_held_count_ge(x, r, ks, k - 1);
        }
    } else {
        if ks.len() > 0 {
            assert(0 <= ks[0] < k);
        }
    }
}

/// Ranks `rs` (increasing, below `k`) all held in suit `s` count at least their number.
pub(crate) proof fn lemma_ris_ge(x: Seq<u8>, s: int, rs: Seq<int>, k: int)
    requires
        increasing(rs),
        forall|i: int| 0 <= i < rs.len() ==> 0 <= #[trigger] rs[i] < k && holds(x, rs[i], s),
    ensures
        ranks_in_suit(x, s, k) >= rs.len(),
    decreases k,
{
    if k > 0 {
        if rs.len() > 0 && rs.last() == k - 1 {
            let d = rs.drop_last();
            assert forall|i: int| 0 <= i < d.len() implies 0 <= #[trigger] d[i] < k - 1 && holds(x, d[i], s) by {
                assert(rs[i] < rs[rs.len() - 1]);
            }
            lemma_ris_ge(x, s, d, k - 1);
        } else {
            assert forall|i: int| 0 <= i < rs.len() implies 0 <= #[trigger] rs[i] < k - 1 && holds(x, rs[i], s) by {
                if rs[i] == k - 1 {
                    assert(rs[i] <= rs[rs.len() - 1]) by {
                        if i < rs.len() - 1 {
                            assert(rs[i] < rs[rs.len() - 1]);
                        }
                    }
                }
            }
            lemma_ris_ge(x, s, rs, k - 1);
        }
    } else {
        if rs.len() > 0 {
            assert(0 <= rs[0] < k);
        }
    }
}


/// What the cards show of category `k`: the fact that puts a hand in that category when no
/// better-tested one holds.
pub open spec fn shows(x: Seq<u8>, k: int) -> bool {
    if k == 8 {
        exists|s: int, t: int| 0 <= s < 4 && 3 <= t < 13 && #[trigger] suit_straight(x, s, t)
    } else if k == 5 {
        exists|s: int| 0 <= s < 4 && #[trigger] ranks_in_suit(x, s, 13) >= 5
    } else if k == 7 {
        exists|r: int| 0 <= r < 13 && #[trigger] suit_count(x, r) == 4
    } else if k == 6 {
        exists|t: int, p: int|
            0 <= t < 13 && 0 <= p < 13 && t != p && #[trigger] suit_count(x, t) >= 3 && #[trigger] suit_count(x, p) >= 2
    } else if k == 4 {
        exists|t: int| 3 <= t < 13 && #[trigger] rank_straight(x, t)
    } else if k == 3 {
        exists|r: int| 0 <= r < 13 && #[trigger] suit_count(x, r) >= 3
    } else if k == 2 {
        exists|a: int, b: int|
            0 <= a < 13 && 0 <= b < 13 && a != b && #[trigger] suit_count(x, a) >= 2 && #[trigger] suit_count(x, b) >= 2
    } else if k == 1 {
        exists|r: int| 0 <= r < 13 && #[trigger] suit_count(x, r) >= 2
    } else {
        true
    }
}

/// The cards of rank `r` in the suits `ks`.
pub open spec fn rank_cards(r: int, ks: Seq<int>) -> Seq<u8> {
    Seq::new(ks.len(), |i: int| (4 * r + ks[i]) as u8)
}

/// The cards of suit `s` of the ranks `rs`.
pub open spec fn suit_cards(rs: Seq<int>, s: int) -> Seq<u8> {
    Seq::new(rs.len(), |i: int| (4 * rs[i] + s) as u8)
}

pub(crate) proof fn lemma_concat_distinct(a: Seq<u8>, b: Seq<u8>)
    requires
        a.no_duplicates(),
        b.no_duplicates(),
        forall|i: int, j: int| 0 <= i < a.len() && 0 <= j < b.len() ==> a[i] != b[j],
    ensures
        (a + b).no_duplicates(),
{
    let c = a + b;
    assert forall|i: int, j: int| 0 <= i < c.len() && 0 <= j < c.len() && i != j implies c[i] != c[j] by {
        if i < a.len() && j < a.len() {
            assert(c[i] == a[i] && c[j] == a[j]);
        } else if i >= a.len() && j >= a.len() {
            assert(c[i] == b[i - a.len()] && c[j] == b[j - a.len()]);
        } else if i < a.len() {
            assert(c[i] == a[i] && c[j] == b[j - a.len()]);
        } else {
            assert(c[j] == a[j] && c[i] == b[i - a.len()]);
        }
    }
}

/// Cards of one rank in increasing suits held by `cs`: different, among `cs`, and whoever
/// holds them holds the rank in those suits.
proof fn lemma_rank_cards(cs: Seq<u8>, r: int, ks: Seq<int>)
    requires
        0 <= r < 13,
        increasing(ks),
        forall|i: int| 0 <= i < ks.len() ==> 0 <= #[trigger] ks[i] < 4 && holds(cs, r, ks[i]),
    ensures
        rank_cards(r, ks).no_duplicates(),
        cards_within(rank_cards(r, ks), cs),
        forall|x: Seq<u8>| cards_within(rank_cards(r, ks), x) ==> #[trigger] held_count(x, r, 4) >= ks.len(),
        forall|i: int| 0 <= i < ks.len() ==> #[trigger] rank_cards(r, ks)[i] / 4 == r,
{
    let w = rank_cards(r, ks);
    assert forall|i: int, j: int| 0 <= i < w.len() && 0 <= j < w.len() && i != j implies w[i] != w[j] by {
        if i < j {
            assert(ks[i] < ks[j]);
        } else {
            assert(ks[j] < ks[i]);
        }
    }
    assert forall|y: u8| #[trigger] w.contains(y) implies cs.contains(y) by {
        let i = choose|i: int| 0 <= i < w.len() && w[i] == y;
        assert(holds(cs, r, ks[i]));
    }
    assert forall|x: Seq<u8>| cards_within(w, x) implies #[trigger] held_count(x, r, 4) >= ks.len() by {
        assert forall|i: int| 0 <= i < ks.len() implies 0 <= #[trigger] ks[i] < 4 && holds(x, r, ks[i]) by {
            assert(w[i] == (4 * r + ks[i]) as u8);
            assert(w.contains(w[i]));
        }
        lemma_held_count_ge(x, r, ks, 4);
    }
}

/// Cards of one suit in increasing ranks held by `cs`: different, among `cs`, and whoever
/// holds them holds that many ranks in the suit.
pub(crate) proof fn lemma_suit_cards(cs: Seq<u8>, rs: Seq<int>, s: int)
    requires
        0 <= s < 4,
        increasing(rs),
        forall|i: int| 0 <= i < rs.len() ==> 0 <= #[trigger] rs[i] < 13 && holds(cs, rs[i], s),
    ensures
        suit_cards(rs, s).no_duplicates(),
        cards_within(suit_cards(rs, s), cs),
        forall|x: Seq<u8>| cards_within(suit_cards(rs, s), x) ==> #[trigger] ranks_in_suit(x, s, 13) >= rs.len(),
{
    let w = suit_cards(rs, s);
    assert forall|i: int, j: int| 0 <= i < w.len() && 0 <= j < w.len() && i != j implies w[i] != w[j] by {
        if i < j {
            assert(rs[i] < rs[j]);
        } else {
            assert(rs[j] < rs[i]);
        }
    }
    assert forall|y: u8| #[trigger] w.contains(y) implies cs.contains(y) by {
        let i = choose|i: int| 0 <= i < w.len() && w[i] == y;
        assert(holds(cs, rs[i], s));
    }
    assert forall|x: Seq<u8>| cards_within(w, x) implies #[trigger] ranks_in_suit(x, s, 13) >= rs.len() by {
        assert forall|i: int| 0 <= i < rs.len() implies 0 <= #[trigger] rs[i] < 13 && holds(x, rs[i], s) by {
            assert(w[i] == (4 * rs[i] + s) as u8);
            assert(w.contains(w[i]));
        }
        lemma_ris_ge(x, s, rs, 13);
    }
}

/// A card of `cs` that `w` lacks, when `cs` has more different cards than `w` has cards.
proof fn lemma_outside(w: Seq<u8>, cs: Seq<u8>) -> (x: u8)
    requires
        cs.no_duplicates(),
        w.len() < cs.len(),
    ensures
        cs.contains(x),
        !w.contains(x),
{
    broadcast use vstd::seq_lib::group_seq_properties;
    broadcast use vstd::set::group_set_axioms;
    if forall|i: int| 0 <= i < cs.len() ==> w.contains(#[trigger] cs[i]) {
        cs.unique_seq_to_set();
        w.lemma_cardinality_of_set();
        assert(cs.to_set().subset_of(w.to_set()));
        vstd::set_lib::lemma_len_subset(cs.to_set(), w.to_set());
        assert(false);
    }
    let i = choose|i: int| 0 <= i < cs.len() && !w.contains(#[trigger] cs[i]);
    cs[i]
}

/// Different cards of `cs`, at most five, completed to five different cards of `cs`.
pub(crate) proof fn extend_to_five(w: Seq<u8>, cs: Seq<u8>) -> (sub: Seq<u8>)
    requires
        w.no_duplicates(),
        cards_within(w, cs),
        w.len() <= 5,
        5 <= cs.len(),
        cs.no_duplicates(),
    ensures
        five_of(sub, cs),
        cards_within(w, sub),
    decreases 5 - w.len(),
{
    if w.len() == 5 {
        w
    } else {
        let x = lemma_outside(w, cs);
        let w2 = w.push(x);
        assert forall|i: int, j: int| 0 <= i < w2.len() && 0 <= j < w2.len() && i != j implies w2[i] != w2[j] by {
            if i == w.len() {
                assert(w2[j] == w[j] && w2[i] == x);
                assert(w.contains(w[j]));
            } else if j == w.len() {
                assert(w2[i] == w[i] && w2[j] == x);
                assert(w.contains(w[i]));
            } else {
                assert(w2[i] == w[i] && w2[j] == w[j]);
            }
        }
        assert forall|y: u8| #[trigger] w2.contains(y) implies cs.contains(y) by {
            let i = choose|i: int| 0 <= i < w2.len() && w2[i] == y;
            if i < w.len() {
                assert(w[i] == y);
                assert(w.contains(y));
            }
        }
        let sub = extend_to_five(w2, cs);
        assert forall|y: u8| #[trigger] w.contains(y) implies sub.contains(y) by {
            let i = choose|i: int| 0 <= i < w.len() && w[i] == y;
            assert(w2[i] == y);
            assert(w2.contains(y));
        }
        sub
    }
}


pub(crate) proof fn lemma_within_concat(a: Seq<u8>, b: Seq<u8>, x: Seq<u8>)
    requires
        cards_within(a + b, x),
    ensures
        cards_within(a, x),
        cards_within(b, x),
{
    assert forall|y: u8| #[trigger] a.contains(y) implies x.contains(y) by {
        let i = choose|i: int| 0 <= i < a.len() && a[i] == y;
        assert((a + b)[i] == y);
        assert((a + b).contains(y));
    }
    assert forall|y: u8| #[trigger] b.contains(y) implies x.contains(y) by {
        let i = choose|i: int| 0 <= i < b.len() && b[i] == y;
        assert((a + b)[a.len() + i] == y);
        assert((a + b).contains(y));
    }
}

pub(crate) proof fn lemma_within_union(a: Seq<u8>, b: Seq<u8>, cs: Seq<u8>)
    requires
        cards_within(a, cs),
        cards_within(b, cs),
    ensures
        cards_within(a + b, cs),
{
    assert forall|y: u8| #[trigger] (a + b).contains(y) implies cs.contains(y) by {
        let i = choose|i: int| 0 <= i < (a + b).len() && (a + b)[i] == y;
        if i < a.len() {
            assert(a[i] == y);
            assert(a.contains(y));
        } else {
            assert(b[i - a.len()] == y);
            assert(b.contains(y));
        }
    }
}

/// The ranks of a run of five ending at `t`, in increasing order.
pub open spec fn run_ranks(t: int) -> Seq<int> {
    if t >= 4 {
        seq![t - 4, t - 3, t - 2, t - 1, t]
    } else {
        seq![0, 1, 2, 3, 12]
    }
}

/// Four suits of rank `r` from `cs` when it holds four, `n` of them otherwise.
pub(crate) proof fn lemma_group_cards(cs: Seq<u8>, r: int, n: int) -> (w: Seq<u8>)
    requires
        0 <= r < 13,
        0 <= n <= suit_count(cs, r),
    ensures
        w.len() == n,
        w.no_duplicates(),
        cards_within(w, cs),
        forall|x: Seq<u8>| cards_within(w, x) ==> #[trigger] suit_count(x, r) >= n,
        forall|i: int| 0 <= i < w.len() ==> #[trigger] w[i] / 4 == r,
{
    lemma_held_suits(cs, r, 4);
    lemma_held_count_four(cs, r);
    let hs = held_suits(cs, r, 4);
    let ks = hs.take(n);
    assert forall|i: int| 0 <= i < ks.len() implies 0 <= #[trigger] ks[i] < 4 && holds(cs, r, ks[i]) by {
        assert(ks[i] == hs[i]);
    }
    assert(increasing(ks)) by {
        assert forall|i: int, j: int| 0 <= i < j < ks.len() implies ks[i] < ks[j] by {
            assert(ks[i] == hs[i] && ks[j] == hs[j]);
        }
    }
    lemma_rank_cards(cs, r, ks);
    let w = rank_cards(r, ks);
    assert forall|x: Seq<u8>| cards_within(w, x) implies #[trigger] suit_count(x, r) >= n by {
        assert(held_count(x, r, 4) >= ks.len());
        lemma_held_count_four(x, r);
    }
    w
}

/// The five cards of a straight flush of `cs`.
pub(crate) proof fn witness_straight_flush(cs: Seq<u8>, s: int, t: int) -> (w: Seq<u8>)
    requires
        0 <= s < 4,
        3 <= t < 13,
        suit_straight(cs, s, t),
    ensures
        w.len() <= 5,
        w.no_duplicates(),
        cards_within(w, cs),
        forall|x: Seq<u8>| cards_within(w, x) ==> #[trigger] suit_straight(x, s, t),
{
    let rs = run_ranks(t);
    assert forall|i: int| 0 <= i < rs.len() implies 0 <= #[trigger] rs[i] < 13 && holds(cs, rs[i], s) by {
        if t >= 4 {
            assert(run_rank(t, 4 - i) == rs[i]);
        } else {
            assert(run_rank(t, 0) == 3 && run_rank(t, 1) == 2 && run_rank(t, 2) == 1 && run_rank(t, 3) == 0 && run_rank(t, 4) == 12);
        }
    }
    lemma_suit_cards(cs, rs, s);
    let w = suit_cards(rs, s);
    assert forall|x: Seq<u8>| cards_within(w, x) implies #[trigger] suit_straight(x, s, t) by {
        assert forall|i: int| 0 <= i < 5 implies holds(x, #[trigger] rs[i], s) by {
            assert(w[i] == (4 * rs[i] + s) as u8);
            assert(w.contains(w[i]));
        }
        assert(holds(x, rs[0], s) && holds(x, rs[1], s) && holds(x, rs[2], s) && holds(x, rs[3], s) && holds(x, rs[4], s));
        if t >= 4 {
            assert(run_rank(t, 0) == rs[4] && run_rank(t, 1) == rs[3] && run_rank(t, 2) == rs[2] && run_rank(t, 3) == rs[1] && run_rank(t, 4) == rs[0]);
        } else {
            assert(run_rank(t, 0) == 3 && run_rank(t, 1) == 2 && run_rank(t, 2) == 1 && run_rank(t, 3) == 0 && run_rank(t, 4) == 12);
        }
    }
    w
}

/// Five cards of a flush of `cs`.
pub(crate) proof fn witness_flush(cs: Seq<u8>, s: int) -> (w: Seq<u8>)
    requires
        0 <= s < 4,
        ranks_in_suit(cs, s, 13) >= 5,
    ensures
        w.len() <= 5,
        w.no_duplicates(),
        cards_within(w, cs),
        forall|x: Seq<u8>| cards_within(w, x) ==> #[trigger] ranks_in_suit(x, s, 13) >= 5,
{
    lemma_suit_ranks(cs, s, 13);
    let all = suit_ranks(cs, s, 13);
    let rs = all.take(5);
    assert forall|i: int| 0 <= i < rs.len() implies 0 <= #[trigger] rs[i] < 13 && holds(cs, rs[i], s) by {
        assert(rs[i] == all[i]);
    }
    assert(increasing(rs)) by {
        assert forall|i: int, j: int| 0 <= i < j < rs.len() implies rs[i] < rs[j] by {
            assert(rs[i] == all[i] && rs[j] == all[j]);
        }
    }
    lemma_suit_cards(cs, rs, s);
    suit_cards(rs, s)
}

/// `n` cards of rank `t` and `m` of rank `p` from `cs`.
pub(crate) proof fn witness_two_groups(cs: Seq<u8>, t: int, n: int, p: int, m: int) -> (w: Seq<u8>)
    requires
        0 <= t < 13,
        0 <= p < 13,
        t != p,
        0 <= n <= suit_count(cs, t),
        0 <= m <= suit_count(cs, p),
        n + m <= 5,
    ensures
        w.len() <= 5,
        w.no_duplicates(),
        cards_within(w, cs),
        forall|x: Seq<u8>| cards_within(w, x) ==> #[trigger] suit_count(x, t) >= n && suit_count(x, p) >= m,
{
    let a = lemma_group_cards(cs, t, n);
    let b = lemma_group_cards(cs, p, m);
    lemma_concat_distinct(a, b);
    lemma_within_union(a, b, cs);
    let w = a + b;
    assert forall|x: Seq<u8>| cards_within(w, x) implies #[trigger] suit_count(x, t) >= n && suit_count(x, p) >= m by {
        lemma_within_concat(a, b, x);
    }
    w
}

/// One card of each rank of a straight of `cs`.
pub(crate) proof fn witness_straight(cs: Seq<u8>, t: int) -> (w: Seq<u8>)
    requires
        3 <= t < 13,
        rank_straight(cs, t),
    ensures
        w.len() <= 5,
        w.no_duplicates(),
        cards_within(w, cs),
        forall|x: Seq<u8>| cards_within(w, x) ==> #[trigger] rank_straight(x, t),
{
    let rs = run_ranks(t);
    if t >= 4 {
        assert(run_rank(t, 0) == rs[4] && run_rank(t, 1) == rs[3] && run_rank(t, 2) == rs[2] && run_rank(t, 3) == rs[1] && run_rank(t, 4) == rs[0]);
    } else {
        assert(run_rank(t, 0) == 3 && run_rank(t, 1) == 2 && run_rank(t, 2) == 1 && run_rank(t, 3) == 0 && run_rank(t, 4) == 12);
    }
    let g0 = lemma_group_cards(cs, rs[0], 1);
    let g1 = lemma_group_cards(cs, rs[1], 1);
    let g2 = lemma_group_cards(cs, rs[2], 1);
    let g3 = lemma_group_cards(cs, rs[3], 1);
    let g4 = lemma_group_cards(cs, rs[4], 1);
    assert(g0[0] / 4 == rs[0] && g1[0] / 4 == rs[1] && g2[0] / 4 == rs[2] && g3[0] / 4 == rs[3] && g4[0] / 4 == rs[4]);
    let w = seq![g0[0], g1[0], g2[0], g3[0], g4[0]];
    assert(w.no_duplicates()) by {
        assert forall|i: int, j: int| 0 <= i < 5 && 0 <= j < 5 && i != j implies w[i] != w[j] by {
            assert(w[i] / 4 == rs[i] && w[j] / 4 == rs[j]);
        }
    }
    assert(g0.contains(g0[0]) && g1.contains(g1[0]) && g2.contains(g2[0]) && g3.contains(g3[0]) && g4.contains(g4[0]));
    assert forall|y: u8| #[trigger] w.contains(y) implies cs.contains(y) by {
        let i = choose|i: int| 0 <= i < 5 && w[i] == y;
        assert(i == 0 || i == 1 || i == 2 || i == 3 || i == 4);
    }
    assert forall|x: Seq<u8>| cards_within(w, x) implies #[trigger] rank_straight(x, t) by {
        assert(w.contains(w[0]) && w.contains(w[1]) && w.contains(w[2]) && w.contains(w[3]) && w.contains(w[4]));
        assert forall|y: u8| #[trigger] g0.contains(y) implies x.contains(y) by { assert(y == w[0]); }
        assert forall|y: u8| #[trigger] g1.contains(y) implies x.contains(y) by { assert(y == w[1]); }
        assert forall|y: u8| #[trigger] g2.contains(y) implies x.contains(y) by { assert(y == w[2]); }
        assert forall|y: u8| #[trigger] g3.contains(y) implies x.contains(y) by { assert(y == w[3]); }
        assert forall|y: u8| #[trigger] g4.contains(y) implies x.contains(y) by { assert(y == w[4]); }
        assert(suit_count(x, rs[0]) >= 1 && suit_count(x, rs[1]) >= 1 && suit_count(x, rs[2]) >= 1);
        assert(suit_count(x, rs[3]) >= 1 && suit_count(x, rs[4]) >= 1);
    }
    w
}

/// Five cards from `cs` showing what puts `cs` in its category.
proof fn lemma_witness(cs: Seq<u8>) -> (w: Seq<u8>)
    requires
        valid_cards(cs),
        cs.len() <= 7,
    ensures
        w.len() <= 5,
        w.no_duplicates(),
        cards_within(w, cs),
        forall|x: Seq<u8>| cards_within(w, x) ==> #[trigger] shows(x, category(cs) as int),
{
    let k = category(cs) as int;
    if k == 8 {
        let (s, t) = choose|s: int, t: int| 0 <= s < 4 && 3 <= t < 13 && #[trigger] suit_straight(cs, s, t);
        let w = witness_straight_flush(cs, s, t);
        assert forall|x: Seq<u8>| cards_within(w, x) implies #[trigger] shows(x, k) by {
            assert(suit_straight(x, s, t));
        }
        w
    } else if k == 5 {
        let s = choose|s: int| 0 <= s < 4 && #[trigger] ranks_in_suit(cs, s, 13) >= 5;
        let w = witness_flush(cs, s);
        assert forall|x: Seq<u8>| cards_within(w, x) implies #[trigger] shows(x, k) by {
            assert(ranks_in_suit(x, s, 13) >= 5);
        }
        w
    } else if k == 7 {
        let r = choose|r: int| 0 <= r < 13 && #[trigger] suit_count(cs, r) == 4;
        let w = lemma_group_cards(cs, r, 4);
        assert forall|x: Seq<u8>| cards_within(w, x) implies #[trigger] shows(x, k) by {
            assert(suit_count(x, r) >= 4);
            assert(suit_count(x, r) == 4);
        }
        w
    } else if k == 6 {
        let (t, p) = choose|t: int, p: int|
            0 <= t < 13 && 0 <= p < 13 && t != p && #[trigger] suit_count(cs, t) >= 3 && #[trigger] suit_count(cs, p) >= 2;
        let w = witness_two_groups(cs, t, 3, p, 2);
        assert forall|x: Seq<u8>| cards_within(w, x) implies #[trigger] shows(x, k) by {
            assert(suit_count(x, t) >= 3 && suit_count(x, p) >= 2);
        }
        w
    } else if k == 4 {
        let t = choose|t: int| 3 <= t < 13 && #[trigger] rank_straight(cs, t);
        let w = witness_straight(cs, t);
        assert forall|x: Seq<u8>| cards_within(w, x) implies #[trigger] shows(x, k) by {
            assert(rank_straight(x, t));
        }
        w
    } else if k == 3 {
        let r = choose|r: int| 0 <= r < 13 && #[trigger] suit_count(cs, r) >= 3;
        let w = lemma_group_cards(cs, r, 3);
        assert forall|x: Seq<u8>| cards_within(w, x) implies #[trigger] shows(x, k) by {
            assert(suit_count(x, r) >= 3);
        }
        w
    } else if k == 2 {
        let (a, b) = choose|a: int, b: int|
            0 <= a < 13 && 0 <= b < 13 && a != b && #[trigger] suit_count(cs, a) >= 2 && #[trigger] suit_count(cs, b) >= 2;
        let w = witness_two_groups(cs, a, 2, b, 2);
        assert forall|x: Seq<u8>| cards_within(w, x) implies #[trigger] shows(x, k) by {
            assert(suit_count(x, a) >= 2 && suit_count(x, b) >= 2);
        }
        w
    } else if k == 1 {
        let r = choose|r: int| 0 <= r < 13 && #[trigger] suit_count(cs, r) >= 2;
        let w = lemma_group_cards(cs, r, 2);
        assert forall|x: Seq<u8>| cards_within(w, x) implies #[trigger] shows(x, k) by {
            assert(suit_count(x, r) >= 2);
        }
        w
    } else {
        let w = Seq::<u8>::empty();
        assert forall|y: u8| #[trigger] w.contains(y) implies cs.contains(y) by {}
        w
    }
}

pub proof fn lemma_valid_within(sub: Seq<u8>, cs: Seq<u8>)
    requires
        valid_cards(cs),
        cards_within(sub, cs),
    ensures
        valid_cards(sub),
{
    assert forall|i: int| 0 <= i < sub.len() implies sub[i] < 52 by {
        assert(sub.contains(sub[i]));
        let j = choose|j: int| 0 <= j < cs.len() && cs[j] == sub[i];
    }
}

/// Five cards that show category `k` and have no better one than `cs` are of category `k`.
pub(crate) proof fn lemma_shown_category(sub: Seq<u8>, cs: Seq<u8>)
    requires
        valid_cards(sub),
        sub.len() <= 7,
        shows(sub, category(cs) as int),
        category(sub) <= category(cs),
    ensures
        category(sub) == category(cs),
{
    let k = category(cs) as int;
    if k == 7 {
        let r = choose|r: int| 0 <= r < 13 && #[trigger] suit_count(sub, r) == 4;
        if exists|s: int| 0 <= s < 4 && #[trigger] ranks_in_suit(sub, s, 13) >= 5 {
            let s = choose|s: int| 0 <= s < 4 && #[trigger] ranks_in_suit(sub, s, 13) >= 5;
            lemma_no_flush_with_groups(sub, s, r, r);
        }
    } else if k == 6 {
        let (t, p) = choose|t: int, p: int|
            0 <= t < 13 && 0 <= p < 13 && t != p && #[trigger] suit_count(sub, t) >= 3 && #[trigger] suit_count(sub, p) >= 2;
        if exists|s: int| 0 <= s < 4 && #[trigger] ranks_in_suit(sub, s, 13) >= 5 {
            let s = choose|s: int| 0 <= s < 4 && #[trigger] ranks_in_suit(sub, s, 13) >= 5;
            lemma_no_flush_with_groups(sub, s, t, p);
        }
    }
}

/// No five of the cards make a better category than all of them.
proof fn lemma_five_no_better(cs: Seq<u8>, sub: Seq<u8>)
    requires
        valid_cards(cs),
        cs.len() <= 7,
        five_of(sub, cs),
    ensures
        category(sub) <= category(cs),
        spec_eval(sub) >> 26u32 <= spec_eval(cs) >> 26u32,
{
    lemma_category_mono(sub, cs);
    lemma_valid_within(sub, cs);
    lemma_eval_category(sub);
    lemma_eval_category(cs);
}

/// Five of the cards that make the same category as all of them.
proof fn lemma_five_as_good(cs: Seq<u8>) -> (sub: Seq<u8>)
    requires
        valid_cards(cs),
        cs.no_duplicates(),
        5 <= cs.len() <= 7,
    ensures
        five_of(sub, cs),
        category(sub) == category(cs),
        spec_eval(sub) >> 26u32 == spec_eval(cs) >> 26u32,
{
    let w = lemma_witness(cs);
    let sub = extend_to_five(w, cs);
    lemma_valid_within(sub, cs);
    lemma_category_mono(sub, cs);
    lemma_shown_category(sub, cs);
    lemma_eval_category(sub);
    lemma_eval_category(cs);
    sub
}

/// Law: the category of a hand of five to seven different cards is that of its best five
/// cards. No five of the cards make a better category than all of them, and some five make
/// the same one; the same holds of the category that `eval` gives (its bits 26 and up).
pub proof fn lemma_category_best_five(cs: Seq<u8>)
    requires
        valid_cards(cs),
        cs.no_duplicates(),
        5 <= cs.len() <= 7,
    ensures
        forall|sub: Seq<u8>|
            #[trigger] five_of(sub, cs) ==> category(sub) <= category(cs) && spec_eval(sub) >> 26u32 <= spec_eval(cs)
                >> 26u32,
        exists|sub: Seq<u8>|
            #[trigger] five_of(sub, cs) && category(sub) == category(cs) && spec_eval(sub) >> 26u32 == spec_eval(cs)
                >> 26u32,
{
    assert forall|sub: Seq<u8>| #[trigger] five_of(sub, cs) implies category(sub) <= category(cs) && spec_eval(sub)
        >> 26u32 <= spec_eval(cs) >> 26u32 by {
        lemma_five_no_better(cs, sub);
    }
    let sub = lemma_five_as_good(cs);
    assert(five_of(sub, cs));
}

} // verus!
