//! Seven-card hand evaluator working on per-suit rank masks.
use vstd::prelude::*;
use vstd::std_specs::bits::u32_leading_zeros;
use crate::model::Card;

verus! {

broadcast use vstd::std_specs::bits::axiom_u32_leading_zeros;

/// Bit `r` of mask `m` is set.
pub open spec fn bit(m: u32, r: int) -> bool {
    0 <= r < 32 && (m >> (r as u32)) & 1u32 == 1u32
}

/// Number of set bits.
pub open spec fn pop(m: u32) -> nat
    decreases m,
{
    if m == 0 {
        0
    } else {
        pop(m / 2) + (m % 2) as nat
    }
}

/// Index of the highest set bit (meaningful for a non-zero mask).
pub open spec fn hi(m: u32) -> u32 {
    (31 - u32_leading_zeros(m)) as u32
}

/// The `n` highest set bits of `m`.
pub open spec fn spec_top_bits(m: u32, n: nat) -> u32
    decreases n,
{
    if n == 0 || m == 0 {
        0
    } else {
        (1u32 << hi(m)) | spec_top_bits(m & !(1u32 << hi(m)), (n - 1) as nat)
    }
}

pub proof fn lemma_bit_ops(x: u32, y: u32, r: u32)
    requires
        r < 32,
    ensures
        ((x & y) >> r) & 1u32 == 1u32 <==> ((x >> r) & 1u32 == 1u32 && (y >> r) & 1u32 == 1u32),
        ((x | y) >> r) & 1u32 == 1u32 <==> ((x >> r) & 1u32 == 1u32 || (y >> r) & 1u32 == 1u32),
        ((!x) >> r) & 1u32 == 1u32 <==> !((x >> r) & 1u32 == 1u32),
{
    assert(((x & y) >> r) & 1u32 == 1u32 <==> ((x >> r) & 1u32 == 1u32 && (y >> r) & 1u32 == 1u32)) by (bit_vector)
        requires r < 32;
    assert(((x | y) >> r) & 1u32 == 1u32 <==> ((x >> r) & 1u32 == 1u32 || (y >> r) & 1u32 == 1u32)) by (bit_vector)
        requires r < 32;
    assert(((!x) >> r) & 1u32 == 1u32 <==> !((x >> r) & 1u32 == 1u32)) by (bit_vector)
        requires r < 32;
}

pub proof fn lemma_bit_single(q: u32, r: u32)
    requires
        q < 32,
        r < 32,
    ensures
        ((1u32 << q) >> r) & 1u32 == 1u32 <==> r == q,
{
    assert(((1u32 << q) >> r) & 1u32 == 1u32 <==> r == q) by (bit_vector)
        requires q < 32, r < 32;
}

/// Facts about the highest set bit of a non-zero mask.
pub proof fn lemma_hi(m: u32)
    requires
        m != 0,
    ensures
        hi(m) < 32,
        bit(m, hi(m) as int),
        forall|j: int| hi(m) < j < 32 ==> !bit(m, j),
{
    let h = hi(m);
    assert(h == (31 - u32_leading_zeros(m)) as u32);
    let t = m >> h;
    assert(t & 1u32 != 0u32 ==> t & 1u32 == 1u32) by (bit_vector);
    assert forall|j: int| hi(m) < j < 32 implies !bit(m, j) by {
        let ju = j as u32;
        assert((m >> ju) & 1u32 == 0u32);
    }
}

fn popcount(m0: u32) -> (c: u32)
    ensures
        c == pop(m0),
{
    let mut m = m0;
    let mut c: u32 = 0;
    proof {
        lemma_pop_le(m0);
    }
    while m != 0
        invariant
            c + pop(m) == pop(m0),
            pop(m0) <= m0,
        decreases m,
    {
        assert(m & 1u32 == m % 2) by (bit_vector);
        assert(m >> 1u32 == m / 2) by (bit_vector);
        c = c + (m & 1);
        m = m >> 1;
    }
    c
}

proof fn lemma_pop_le(m: u32)
    ensures
        pop(m) <= m,
    decreases m,
{
    if m != 0 {
        lemma_pop_le(m / 2);
    }
}

proof fn lemma_or_assoc(a: u32, b: u32, c: u32)
    ensures
        a | (b | c) == (a | b) | c,
        a | 0u32 == a,
        0u32 | a == a,
{
    assert(0u32 | a == a) by (bit_vector);
    assert(a | (b | c) == (a | b) | c) by (bit_vector);
    assert(a | 0u32 == a) by (bit_vector);
}

/// Keeps the `n` highest set bits of `m0`.
fn top_bits(m0: u32, n: u32) -> (out: u32)
    ensures
        out == spec_top_bits(m0, n as nat),
{
    let mut m = m0;
    let mut out: u32 = 0;
    let mut i: u32 = 0;
    proof {
        lemma_or_assoc(spec_top_bits(m0, n as nat), 0, 0);
    }
    while i < n && m != 0
        invariant
            i <= n,
            out | spec_top_bits(m, (n - i) as nat) == spec_top_bits(m0, n as nat),
        decreases n - i,
    {
        proof {
            lemma_hi(m);
        }
        let b = 31 - m.leading_zeros();
        assert(b == hi(m));
        let ghost rest = spec_top_bits(m & !(1u32 << b), (n - i - 1) as nat);
        assert(spec_top_bits(m, (n - i) as nat) == (1u32 << b) | rest);
        proof {
            lemma_or_assoc(out, 1u32 << b, rest);
        }
        out = out | (1u32 << b);
        m = m & !(1u32 << b);
        i = i + 1;
    }
    proof {
        lemma_or_assoc(out, 0, 0);
    }
    out
}

/// Index of the highest set bit.
fn hi_exec(m: u32) -> (r: u32)
    requires
        m != 0,
    ensures
        r == hi(m),
        r < 32,
{
    proof {
        lemma_hi(m);
    }
    31 - m.leading_zeros()
}

pub(crate) proof fn lemma_zero_bit(r: u32)
    ensures
        (0u32 >> r) & 1u32 == 0u32,
{
    assert((0u32 >> r) & 1u32 == 0u32) by (bit_vector);
}

/// Five consecutive ranks ending at `t` are all present in `m`.
pub open spec fn has_run(m: u32, t: int) -> bool {
    bit(m, t) && bit(m, t - 1) && bit(m, t - 2) && bit(m, t - 3) && bit(m, t - 4)
}

/// Highest `t` in `4..=top` ending a run of five, or -1.
pub open spec fn best_run(m: u32, top: int) -> int
    decreases top,
{
    if top < 4 {
        -1
    } else if has_run(m, top) {
        top
    } else {
        best_run(m, top - 1)
    }
}

/// Highest card of the best straight in a rank mask (the wheel A-2-3-4-5 counts as 5-high).
pub open spec fn spec_straight_top(m: u32) -> Option<u32> {
    let t = best_run(m, 12);
    if t >= 4 {
        Some(t as u32)
    } else if bit(m, 12) && bit(m, 0) && bit(m, 1) && bit(m, 2) && bit(m, 3) {
        Some(3)
    } else {
        None
    }
}

pub(crate) proof fn lemma_best_run(m: u32, top: int)
    requires
        3 <= top,
    ensures
        best_run(m, top) == -1 || (4 <= best_run(m, top) <= top && has_run(m, best_run(m, top))),
        forall|t: int| best_run(m, top) < t <= top && t >= 4 ==> !has_run(m, t),
    decreases top,
{
    if top >= 4 && !has_run(m, top) {
        lemma_best_run(m, top - 1);
    }
}

proof fn lemma_run_bit(m: u32, t: u32)
    requires
        m < 8192,
        t < 32,
    ensures
        (((m & (m << 1u32) & (m << 2u32) & (m << 3u32) & (m << 4u32)) >> t) & 1u32 == 1u32) <==> (4
            <= t <= 12 && (m >> t) & 1u32 == 1u32 && (m >> ((t - 1) as u32)) & 1u32 == 1u32 && (m
            >> ((t - 2) as u32)) & 1u32 == 1u32 && (m >> ((t - 3) as u32)) & 1u32 == 1u32 && (m >> ((t
            - 4) as u32)) & 1u32 == 1u32),
{
    if t >= 4 {
        let t1 = (t - 1) as u32;
        let t2 = (t - 2) as u32;
        let t3 = (t - 3) as u32;
        let t4 = (t - 4) as u32;
        assert((((m & (m << 1u32) & (m << 2u32) & (m << 3u32) & (m << 4u32)) >> t) & 1u32 == 1u32)
            <==> (t <= 12 && (m >> t) & 1u32 == 1u32 && (m >> t1) & 1u32 == 1u32 && (m >> t2) & 1u32
            == 1u32 && (m >> t3) & 1u32 == 1u32 && (m >> t4) & 1u32 == 1u32)) by (bit_vector)
            requires
                m < 8192,
                4 <= t < 32,
                t1 == t - 1,
                t2 == t - 2,
                t3 == t - 3,
                t4 == t - 4,
        ;
    } else {
        assert(((m & (m << 1u32) & (m << 2u32) & (m << 3u32) & (m << 4u32)) >> t) & 1u32 != 1u32)
            by (bit_vector)
            requires
                t < 4,
        ;
    }
}

/// Top card of the best straight in a rank mask, if any.
pub fn straight_top(m: u32) -> (r: Option<u32>)
    requires
        m < 8192,
    ensures
        r == spec_straight_top(m),
{
    let x = m & (m << 1) & (m << 2) & (m << 3) & (m << 4);
    proof {
        lemma_best_run(m, 12);
        assert forall|t: int| 0 <= t < 32 implies (bit(x, t) <==> (4 <= t <= 12 && has_run(m, t))) by {
            lemma_run_bit(m, t as u32);
        }
    }
    if x != 0 {
        let h = hi_exec(x);
        proof {
            lemma_hi(x);
            let b = best_run(m, 12);
            assert(has_run(m, h as int));
            if b > h as int {
                assert(bit(x, b));
            }
        }
        return Some(h);
    }
    proof {
        let b = best_run(m, 12);
        if b >= 4 {
            assert(bit(x, b));
            lemma_zero_bit(b as u32);
        }
    }
    assert((m & 0b1_0000_0000_1111u32 == 0b1_0000_0000_1111u32) <==> ((m >> 12u32) & 1u32 == 1u32
        && (m >> 0u32) & 1u32 == 1u32 && (m >> 1u32) & 1u32 == 1u32 && (m >> 2u32) & 1u32 == 1u32
        && (m >> 3u32) & 1u32 == 1u32)) by (bit_vector);
    if m & 0b1_0000_0000_1111 == 0b1_0000_0000_1111 {
        return Some(3);
    }
    None
}

/// Ranks (as a bit mask) held in suit `s` by the cards `cs`.
pub open spec fn suit_mask(cs: Seq<u8>, s: int) -> u32
    decreases cs.len(),
{
    if cs.len() == 0 {
        0
    } else {
        let c = cs.last();
        let m = suit_mask(cs.drop_last(), s);
        if c % 4 == s {
            m | (1u32 << ((c / 4) as u32))
        } else {
            m
        }
    }
}

/// Ranks held in at least one suit.
pub open spec fn ranks_held(cs: Seq<u8>) -> u32 {
    suit_mask(cs, 0) | suit_mask(cs, 1) | suit_mask(cs, 2) | suit_mask(cs, 3)
}

/// Ranks held in at least two suits.
pub open spec fn pair_ranks(cs: Seq<u8>) -> u32 {
    let (a, b, c, d) = (suit_mask(cs, 0), suit_mask(cs, 1), suit_mask(cs, 2), suit_mask(cs, 3));
    (a & b) | (a & c) | (a & d) | (b & c) | (b & d) | (c & d)
}

/// Ranks held in at least three suits.
pub open spec fn trip_ranks(cs: Seq<u8>) -> u32 {
    let (a, b, c, d) = (suit_mask(cs, 0), suit_mask(cs, 1), suit_mask(cs, 2), suit_mask(cs, 3));
    ((a & b) & (c | d)) | ((c & d) & (a | b))
}

/// Ranks held in all four suits.
pub open spec fn quad_ranks(cs: Seq<u8>) -> u32 {
    suit_mask(cs, 0) & suit_mask(cs, 1) & suit_mask(cs, 2) & suit_mask(cs, 3)
}

/// Rank mask of the first suit (in c, d, h, s order) holding at least five cards.
pub open spec fn flush_mask(cs: Seq<u8>) -> Option<u32> {
    if pop(suit_mask(cs, 0)) >= 5 {
        Some(suit_mask(cs, 0))
    } else if pop(suit_mask(cs, 1)) >= 5 {
        Some(suit_mask(cs, 1))
    } else if pop(suit_mask(cs, 2)) >= 5 {
        Some(suit_mask(cs, 2))
    } else if pop(suit_mask(cs, 3)) >= 5 {
        Some(suit_mask(cs, 3))
    } else {
        None
    }
}

/// Strength of the best poker hand made from the cards: the category
/// (0 high card .. 8 straight flush) in bits 26 and up, tie-breakers below.
pub open spec fn spec_eval(cs: Seq<u8>) -> u32 {
    let all = ranks_held(cs);
    let pairs = pair_ranks(cs);
    let trips = trip_ranks(cs);
    let quads = quad_ranks(cs);
    if flush_mask(cs) is Some {
        let f = flush_mask(cs)->0;
        match spec_straight_top(f) {
            Some(t) => (8u32 << 26u32) | t,
            None => (5u32 << 26u32) | spec_top_bits(f, 5),
        }
    } else if quads != 0 {
        let q = hi(quads);
        (7u32 << 26u32) | (q << 16u32) | spec_top_bits(all & !(1u32 << q), 1)
    } else if trips != 0 && pairs & !(1u32 << hi(trips)) != 0 {
        let t = hi(trips);
        (6u32 << 26u32) | (t << 16u32) | hi(pairs & !(1u32 << t))
    } else if spec_straight_top(all) is Some {
        (4u32 << 26u32) | spec_straight_top(all)->0
    } else if trips != 0 {
        let t = hi(trips);
        (3u32 << 26u32) | (t << 16u32) | spec_top_bits(all & !(1u32 << t), 2)
    } else if pop(pairs) >= 2 {
        let tp = spec_top_bits(pairs, 2);
        (2u32 << 26u32) | (tp << 13u32) | spec_top_bits(all & !tp, 1)
    } else if pop(pairs) == 1 {
        let p = hi(pairs);
        (1u32 << 26u32) | (p << 16u32) | spec_top_bits(all & !(1u32 << p), 3)
    } else {
        spec_top_bits(all, 5)
    }
}

proof fn lemma_card_bits(c: u8)
    requires
        c < 52,
    ensures
        (c & 3u8) == c % 4,
        (c >> 2u8) == c / 4,
        c / 4 < 13,
{
    assert((c & 3u8) == c % 4) by (bit_vector);
    assert((c >> 2u8) == c / 4) by (bit_vector);
}

pub proof fn lemma_mask_bound(m: u32, k: u32)
    requires
        m < 8192,
        k < 13,
    ensures
        m | (1u32 << k) < 8192,
{
    assert(m | (1u32 << k) < 8192) by (bit_vector)
        requires
            m < 8192,
            k < 13,
    ;
}

proof fn lemma_or4_bound(a: u32, b: u32, c: u32, d: u32)
    requires
        a < 8192,
        b < 8192,
        c < 8192,
        d < 8192,
    ensures
        a | b | c | d < 8192,
{
    assert(a | b | c | d < 8192) by (bit_vector)
        requires
            a < 8192,
            b < 8192,
            c < 8192,
            d < 8192,
    ;
}

/// Strength of a hand of five to seven cards (larger is better).
pub fn eval(cards: &[Card]) -> (v: u32)
    requires
        forall|i: int| 0 <= i < cards@.len() ==> cards@[i] < 52,
    ensures
        v == spec_eval(cards@),
{
    let mut suits: [u32; 4] = [0u32; 4];
    let mut i: usize = 0;
    while i < cards.len()
        invariant
            i <= cards@.len(),
            forall|j: int| 0 <= j < cards@.len() ==> cards@[j] < 52,
            forall|s: int| 0 <= s < 4 ==> suits@[s] == suit_mask(cards@.take(i as int), s),
            forall|s: int| 0 <= s < 4 ==> suits@[s] < 8192,
        decreases cards@.len() - i,
    {
        let c = cards[i];
        proof {
            lemma_card_bits(c);
            lemma_mask_bound(suits@[(c % 4) as int], (c / 4) as u32);
            assert(cards@.take(i + 1).drop_last() == cards@.take(i as int));
        }
        let si = (c & 3) as usize;
        suits[si] = suits[si] | (1u32 << (c >> 2));
        i = i + 1;
    }
    assert(cards@.take(cards@.len() as int) == cards@);
    let mut k: usize = 0;
    while k < 4
        invariant
            k <= 4,
            forall|s: int| 0 <= s < 4 ==> suits@[s] == suit_mask(cards@, s),
            forall|s: int| 0 <= s < 4 ==> suits@[s] < 8192,
            forall|s: int| 0 <= s < k ==> pop(suit_mask(cards@, s)) < 5,
        decreases 4 - k,
    {
        let s = suits[k];
        if popcount(s) >= 5 {
            assert(flush_mask(cards@) == Some(s));
            if let Some(t) = straight_top(s) {
                return (8 << 26) | t;
            }
            return (5 << 26) | top_bits(s, 5);
        }
        k = k + 1;
    }
    assert(flush_mask(cards@) is None);
    let a = suits[0];
    let b = suits[1];
    let c = suits[2];
    let d = suits[3];
    let all = a | b | c | d;
    let quads = a & b & c & d;
    let trips = ((a & b) & (c | d)) | ((c & d) & (a | b));
    let pairs = (a & b) | (a & c) | (a & d) | (b & c) | (b & d) | (c & d);
    proof {
        lemma_or4_bound(a, b, c, d);
    }
    if quads != 0 {
        let q = hi_exec(quads);
        let kick = top_bits(all & !(1 << q), 1);
        return (7 << 26) | (q << 16) | kick;
    }
    if trips != 0 {
        let t = hi_exec(trips);
        let rest_pairs = pairs & !(1 << t);
        if rest_pairs != 0 {
            return (6 << 26) | (t << 16) | hi_exec(rest_pairs);
        }
    }
    if let Some(t) = straight_top(all) {
        return (4 << 26) | t;
    }
    if trips != 0 {
        let t = hi_exec(trips);
        return (3 << 26) | (t << 16) | top_bits(all & !(1 << t), 2);
    }
    let pc = popcount(pairs);
    if pc >= 2 {
        let tp = top_bits(pairs, 2);
        return (2 << 26) | (tp << 13) | top_bits(all & !tp, 1);
    }
    if pc == 1 {
        let p = hi_exec(pairs);
        return (1 << 26) | (p << 16) | top_bits(all & !(1 << p), 3);
    }
    top_bits(all, 5)
}

/// All cards are real cards (`0..52`).
pub open spec fn valid_cards(cs: Seq<u8>) -> bool {
    forall|i: int| 0 <= i < cs.len() ==> cs[i] < 52
}

/// Number of suits in which rank `r` is held.
pub open spec fn suit_count(cs: Seq<u8>, r: int) -> int {
    (if cs.contains((4 * r) as u8) { 1int } else { 0 }) + (if cs.contains((4 * r + 1) as u8) {
        1int
    } else {
        0
    }) + (if cs.contains((4 * r + 2) as u8) { 1int } else { 0 }) + (if cs.contains(
        (4 * r + 3) as u8,
    ) {
        1int
    } else {
        0
    })
}

pub(crate) proof fn lemma_suit_mask_bound(cs: Seq<u8>, s: int)
    requires
        valid_cards(cs),
    ensures
        suit_mask(cs, s) < 8192,
    decreases cs.len(),
{
    if cs.len() > 0 {
        lemma_suit_mask_bound(cs.drop_last(), s);
        let c = cs.last();
        if c % 4 == s {
            lemma_mask_bound(suit_mask(cs.drop_last(), s), (c / 4) as u32);
        }
    }
}

pub(crate) proof fn lemma_high_bits_clear(m: u32, r: int)
    requires
        m < 8192,
        13 <= r < 32,
    ensures
        !bit(m, r),
{
    let ru = r as u32;
    assert((m >> ru) & 1u32 == 0u32) by (bit_vector)
        requires
            m < 8192,
            13 <= ru < 32,
    ;
}

/// Bit `r` of the mask of suit `s` is set exactly when the card of rank `r` and suit `s`
/// is among the cards.
pub proof fn lemma_suit_mask_bit(cs: Seq<u8>, s: int, r: int)
    requires
        valid_cards(cs),
        0 <= s < 4,
        0 <= r < 13,
    ensures
        bit(suit_mask(cs, s), r) <==> cs.contains((4 * r + s) as u8),
    decreases cs.len(),
{
    if cs.len() == 0 {
        lemma_zero_bit(r as u32);
    } else {
        let rest = cs.drop_last();
        let c = cs.last();
        lemma_suit_mask_bit(rest, s, r);
        let card = (4 * r + s) as u8;
        assert(cs == rest.push(c));
        assert(cs.contains(card) <==> rest.contains(card) || c == card) by {
            if cs.contains(card) && !rest.contains(card) {
                let j = choose|j: int| 0 <= j < cs.len() && cs[j] == card;
                if j < cs.len() - 1 {
                    assert(rest[j] == card);
                }
            }
            if rest.contains(card) {
                let j = choose|j: int| 0 <= j < rest.len() && rest[j] == card;
                assert(cs[j] == card);
            }
            if c == card {
                assert(cs[cs.len() - 1] == card);
            }
        }
        let m = suit_mask(rest, s);
        if c % 4 == s {
            let k = (c / 4) as u32;
            lemma_bit_ops(m, 1u32 << k, r as u32);
            lemma_bit_single(k, r as u32);
        }
    }
}

pub(crate) proof fn lemma_mask_ext(x: u32, y: u32)
    requires
        forall|r: int| 0 <= r < 32 ==> (bit(x, r) <==> bit(y, r)),
    ensures
        x == y,
{
    assert forall|r: u32| r < 32 implies (x >> r) & 1u32 == (y >> r) & 1u32 by {
        assert(bit(x, r as int) <==> bit(y, r as int));
        assert((x >> r) & 1u32 == 1u32 || (x >> r) & 1u32 == 0u32) by (bit_vector);
        assert((y >> r) & 1u32 == 1u32 || (y >> r) & 1u32 == 0u32) by (bit_vector);
    }
    lemma_bits_eq(x, y);
}

proof fn lemma_bits_eq(x: u32, y: u32)
    requires
        forall|r: u32| r < 32 ==> #[trigger] ((x >> r) & 1u32) == (y >> r) & 1u32,
    ensures
        x == y,
{
    let b0 = (x >> 0u32) & 1u32 == (y >> 0u32) & 1u32;
    assert(b0);
    assert((x >> 1u32) & 1u32 == (y >> 1u32) & 1u32);
    assert((x >> 2u32) & 1u32 == (y >> 2u32) & 1u32);
    assert((x >> 3u32) & 1u32 == (y >> 3u32) & 1u32);
    assert((x >> 4u32) & 1u32 == (y >> 4u32) & 1u32);
    assert((x >> 5u32) & 1u32 == (y >> 5u32) & 1u32);
    assert((x >> 6u32) & 1u32 == (y >> 6u32) & 1u32);
    assert((x >> 7u32) & 1u32 == (y >> 7u32) & 1u32);
    assert((x >> 8u32) & 1u32 == (y >> 8u32) & 1u32);
    assert((x >> 9u32) & 1u32 == (y >> 9u32) & 1u32);
    assert((x >> 10u32) & 1u32 == (y >> 10u32) & 1u32);
    assert((x >> 11u32) & 1u32 == (y >> 11u32) & 1u32);
    assert((x >> 12u32) & 1u32 == (y >> 12u32) & 1u32);
    assert((x >> 13u32) & 1u32 == (y >> 13u32) & 1u32);
    assert((x >> 14u32) & 1u32 == (y >> 14u32) & 1u32);
    assert((x >> 15u32) & 1u32 == (y >> 15u32) & 1u32);
    assert((x >> 16u32) & 1u32 == (y >> 16u32) & 1u32);
    assert((x >> 17u32) & 1u32 == (y >> 17u32) & 1u32);
    assert((x >> 18u32) & 1u32 == (y >> 18u32) & 1u32);
    assert((x >> 19u32) & 1u32 == (y >> 19u32) & 1u32);
    assert((x >> 20u32) & 1u32 == (y >> 20u32) & 1u32);
    assert((x >> 21u32) & 1u32 == (y >> 21u32) & 1u32);
    assert((x >> 22u32) & 1u32 == (y >> 22u32) & 1u32);
    assert((x >> 23u32) & 1u32 == (y >> 23u32) & 1u32);
    assert((x >> 24u32) & 1u32 == (y >> 24u32) & 1u32);
    assert((x >> 25u32) & 1u32 == (y >> 25u32) & 1u32);
    assert((x >> 26u32) & 1u32 == (y >> 26u32) & 1u32);
    assert((x >> 27u32) & 1u32 == (y >> 27u32) & 1u32);
    assert((x >> 28u32) & 1u32 == (y >> 28u32) & 1u32);
    assert((x >> 29u32) & 1u32 == (y >> 29u32) & 1u32);
    assert((x >> 30u32) & 1u32 == (y >> 30u32) & 1u32);
    assert((x >> 31u32) & 1u32 == (y >> 31u32) & 1u32);
    assert(x == y) by (bit_vector)
        requires
            (x >> 0u32) & 1u32 == (y >> 0u32) & 1u32,
            (x >> 1u32) & 1u32 == (y >> 1u32) & 1u32,
            (x >> 2u32) & 1u32 == (y >> 2u32) & 1u32,
            (x >> 3u32) & 1u32 == (y >> 3u32) & 1u32,
            (x >> 4u32) & 1u32 == (y >> 4u32) & 1u32,
            (x >> 5u32) & 1u32 == (y >> 5u32) & 1u32,
            (x >> 6u32) & 1u32 == (y >> 6u32) & 1u32,
            (x >> 7u32) & 1u32 == (y >> 7u32) & 1u32,
            (x >> 8u32) & 1u32 == (y >> 8u32) & 1u32,
            (x >> 9u32) & 1u32 == (y >> 9u32) & 1u32,
            (x >> 10u32) & 1u32 == (y >> 10u32) & 1u32,
            (x >> 11u32) & 1u32 == (y >> 11u32) & 1u32,
            (x >> 12u32) & 1u32 == (y >> 12u32) & 1u32,
            (x >> 13u32) & 1u32 == (y >> 13u32) & 1u32,
            (x >> 14u32) & 1u32 == (y >> 14u32) & 1u32,
            (x >> 15u32) & 1u32 == (y >> 15u32) & 1u32,
            (x >> 16u32) & 1u32 == (y >> 16u32) & 1u32,
            (x >> 17u32) & 1u32 == (y >> 17u32) & 1u32,
            (x >> 18u32) & 1u32 == (y >> 18u32) & 1u32,
            (x >> 19u32) & 1u32 == (y >> 19u32) & 1u32,
            (x >> 20u32) & 1u32 == (y >> 20u32) & 1u32,
            (x >> 21u32) & 1u32 == (y >> 21u32) & 1u32,
            (x >> 22u32) & 1u32 == (y >> 22u32) & 1u32,
            (x >> 23u32) & 1u32 == (y >> 23u32) & 1u32,
            (x >> 24u32) & 1u32 == (y >> 24u32) & 1u32,
            (x >> 25u32) & 1u32 == (y >> 25u32) & 1u32,
            (x >> 26u32) & 1u32 == (y >> 26u32) & 1u32,
            (x >> 27u32) & 1u32 == (y >> 27u32) & 1u32,
            (x >> 28u32) & 1u32 == (y >> 28u32) & 1u32,
            (x >> 29u32) & 1u32 == (y >> 29u32) & 1u32,
            (x >> 30u32) & 1u32 == (y >> 30u32) & 1u32,
            (x >> 31u32) & 1u32 == (y >> 31u32) & 1u32,
    ;
}

/// The strength of a hand depends only on which cards it holds, not on their order
/// or on repetitions.
pub proof fn lemma_eval_depends_on_card_set(cs1: Seq<u8>, cs2: Seq<u8>)
    requires
        valid_cards(cs1),
        valid_cards(cs2),
        forall|c: u8| cs1.contains(c) <==> cs2.contains(c),
    ensures
        spec_eval(cs1) == spec_eval(cs2),
{
    assert forall|s: int| 0 <= s < 4 implies suit_mask(cs1, s) == suit_mask(cs2, s) by {
        lemma_suit_mask_bound(cs1, s);
        lemma_suit_mask_bound(cs2, s);
        assert forall|r: int| 0 <= r < 32 implies (bit(suit_mask(cs1, s), r) <==> bit(
            suit_mask(cs2, s),
            r,
        )) by {
            if r < 13 {
                lemma_suit_mask_bit(cs1, s, r);
                lemma_suit_mask_bit(cs2, s, r);
            } else {
                lemma_high_bits_clear(suit_mask(cs1, s), r);
                lemma_high_bits_clear(suit_mask(cs2, s), r);
            }
        }
        lemma_mask_ext(suit_mask(cs1, s), suit_mask(cs2, s));
    }
}

/// Pair, trip and quad masks hold exactly the ranks present in at least two, three and
/// four suits; the "held" mask holds the ranks present at all.
pub proof fn lemma_rank_groups(cs: Seq<u8>, r: int)
    requires
        valid_cards(cs),
        0 <= r < 13,
    ensures
        bit(ranks_held(cs), r) <==> suit_count(cs, r) >= 1,
        bit(pair_ranks(cs), r) <==> suit_count(cs, r) >= 2,
        bit(trip_ranks(cs), r) <==> suit_count(cs, r) >= 3,
        bit(quad_ranks(cs), r) <==> suit_count(cs, r) == 4,
{
    let (a, b, c, d) = (suit_mask(cs, 0), suit_mask(cs, 1), suit_mask(cs, 2), suit_mask(cs, 3));
    lemma_suit_mask_bit(cs, 0, r);
    lemma_suit_mask_bit(cs, 1, r);
    lemma_suit_mask_bit(cs, 2, r);
    lemma_suit_mask_bit(cs, 3, r);
    let ru = r as u32;
    lemma_bit_ops(a, b, ru);
    lemma_bit_ops(a, c, ru);
    lemma_bit_ops(a, d, ru);
    lemma_bit_ops(b, c, ru);
    lemma_bit_ops(b, d, ru);
    lemma_bit_ops(c, d, ru);
    lemma_bit_ops(a | b, c, ru);
    lemma_bit_ops(a | b | c, d, ru);
    lemma_bit_ops(a & b, c, ru);
    lemma_bit_ops(a & b & c, d, ru);
    lemma_bit_ops(a & b, c | d, ru);
    lemma_bit_ops(c & d, a | b, ru);
    lemma_bit_ops((a & b) & (c | d), (c & d) & (a | b), ru);
    lemma_bit_ops(a & b, a & c, ru);
    lemma_bit_ops((a & b) | (a & c), a & d, ru);
    lemma_bit_ops((a & b) | (a & c) | (a & d), b & c, ru);
    lemma_bit_ops((a & b) | (a & c) | (a & d) | (b & c), b & d, ru);
    lemma_bit_ops((a & b) | (a & c) | (a & d) | (b & c) | (b & d), c & d, ru);
}

// ---------------------------------------------------------------- relabelling the suits

/// A relabelling of the four suits: suit `s` becomes `p[s]`.
pub open spec fn is_suit_perm(p: Seq<int>) -> bool {
    &&& p.len() == 4
    &&& forall|s: int| 0 <= s < 4 ==> 0 <= #[trigger] p[s] < 4
    &&& forall|s: int, t: int| 0 <= s < 4 && 0 <= t < 4 && s != t ==> #[trigger] p[s] != #[trigger] p[t]
}

/// The card `c` with its suit relabelled.
pub open spec fn relabel(c: u8, p: Seq<int>) -> u8 {
    ((c / 4) * 4 + p[(c % 4) as int]) as u8
}

pub open spec fn relabel_all(cs: Seq<u8>, p: Seq<int>) -> Seq<u8> {
    Seq::new(cs.len(), |i: int| relabel(cs[i], p))
}

/// Number of cards of suit `s`.
pub open spec fn count_suit(cs: Seq<u8>, s: int) -> nat
    decreases cs.len(),
{
    if cs.len() == 0 {
        0
    } else {
        count_suit(cs.drop_last(), s) + if cs.last() % 4 == s { 1nat } else { 0nat }
    }
}

proof fn lemma_relabel_mask(cs: Seq<u8>, p: Seq<int>, s: int)
    requires
        valid_cards(cs),
        is_suit_perm(p),
        0 <= s < 4,
    ensures
        suit_mask(relabel_all(cs, p), p[s]) == suit_mask(cs, s),
    decreases cs.len(),
{
    if cs.len() > 0 {
        let rest = cs.drop_last();
        assert(relabel_all(cs, p).drop_last() =~= relabel_all(rest, p));
        lemma_relabel_mask(rest, p, s);
        let c = cs.last();
        let c2 = relabel(c, p);
        assert(relabel_all(cs, p).last() == c2);
        let k = c % 4;
        assert(0 <= p[k as int] < 4);
        assert(c2 as int == (c / 4) * 4 + p[k as int]);
        assert(c2 % 4 == p[k as int]);
        assert(c2 / 4 == c / 4);
        assert((c2 % 4 == p[s]) == (k == s)) by {
            if k != s {
                assert(p[k as int] != p[s]);
            }
        }
    }
}

proof fn lemma_pop_or_bit(m: u32, k: u32)
    requires
        k < 32,
    ensures
        pop(m | (1u32 << k)) <= pop(m) + 1,
    decreases k,
{
    let n = m | (1u32 << k);
    if m == 0 {
        assert(n == 1u32 << k) by (bit_vector)
            requires
                m == 0,
                n == m | (1u32 << k),
        ;
        lemma_pop_single(k);
    } else if k == 0 {
        assert(n / 2 == m / 2 && n % 2 == 1) by (bit_vector)
            requires
                n == m | (1u32 << k),
                k == 0,
        ;
        assert(n != 0);
    } else {
        assert(n / 2 == (m / 2) | (1u32 << ((k - 1) as u32)) && n % 2 == m % 2 && n != 0) by (bit_vector)
            requires
                n == m | (1u32 << k),
                0 < k < 32,
        ;
        lemma_pop_or_bit(m / 2, (k - 1) as u32);
    }
}

proof fn lemma_pop_single(k: u32)
    requires
        k < 32,
    ensures
        pop(1u32 << k) == 1,
    decreases k,
{
    let n = 1u32 << k;
    if k == 0 {
        assert(n == 1) by (bit_vector)
            requires
                n == 1u32 << k,
                k == 0,
        ;
        assert(pop(0) == 0);
    } else {
        assert(n / 2 == 1u32 << ((k - 1) as u32) && n % 2 == 0 && n != 0) by (bit_vector)
            requires
                n == 1u32 << k,
                0 < k < 32,
        ;
        lemma_pop_single((k - 1) as u32);
    }
}

pub(crate) proof fn lemma_pop_count(cs: Seq<u8>, s: int)
    requires
        valid_cards(cs),
    ensures
        pop(suit_mask(cs, s)) <= count_suit(cs, s),
    decreases cs.len(),
{
    if cs.len() > 0 {
        lemma_pop_count(cs.drop_last(), s);
        let c = cs.last();
        if c % 4 == s {
            lemma_pop_or_bit(suit_mask(cs.drop_last(), s), (c / 4) as u32);
        }
    }
}

pub(crate) proof fn lemma_count_total(cs: Seq<u8>)
    ensures
        count_suit(cs, 0) + count_suit(cs, 1) + count_suit(cs, 2) + count_suit(cs, 3) == cs.len(),
    decreases cs.len(),
{
    if cs.len() > 0 {
        lemma_count_total(cs.drop_last());
    }
}

/// With at most seven cards, at most one suit holds five of them.
pub(crate) proof fn lemma_one_flush_suit(cs: Seq<u8>, s: int, t: int)
    requires
        valid_cards(cs),
        cs.len() <= 7,
        0 <= s < 4,
        0 <= t < 4,
        s != t,
    ensures
        !(pop(suit_mask(cs, s)) >= 5 && pop(suit_mask(cs, t)) >= 5),
{
    lemma_pop_count(cs, s);
    lemma_pop_count(cs, t);
    lemma_count_total(cs);
}

proof fn lemma_mask_or_bound(a: u32, b: u32)
    requires
        a < 8192,
        b < 8192,
    ensures
        a | b < 8192,
        a & b < 8192,
{
    assert(a | b < 8192 && a & b < 8192) by (bit_vector)
        requires
            a < 8192,
            b < 8192,
    ;
}

proof fn lemma_group_masks_eq(x: u32, y: u32)
    requires
        x < 8192,
        y < 8192,
        forall|r: int| 0 <= r < 13 ==> (bit(x, r) <==> bit(y, r)),
    ensures
        x == y,
{
    assert forall|r: int| 0 <= r < 32 implies (bit(x, r) <==> bit(y, r)) by {
        if r >= 13 {
            lemma_high_bits_clear(x, r);
            lemma_high_bits_clear(y, r);
        }
    }
    lemma_mask_ext(x, y);
}

/// Law: relabelling the suits of at most seven cards does not change their strength.
#[verifier::spinoff_prover]
#[verifier::rlimit(80)]
pub proof fn lemma_eval_suit_relabel(cs: Seq<u8>, p: Seq<int>)
    requires
        valid_cards(cs),
        cs.len() <= 7,
        is_suit_perm(p),
    ensures
        spec_eval(relabel_all(cs, p)) == spec_eval(cs),
{
    let cs2 = relabel_all(cs, p);
    assert(valid_cards(cs2)) by {
        assert forall|i: int| 0 <= i < cs2.len() implies cs2[i] < 52 by {
            let c = cs[i];
            assert(0 <= p[(c % 4) as int] < 4);
        }
    }
    lemma_relabel_mask(cs, p, 0);
    lemma_relabel_mask(cs, p, 1);
    lemma_relabel_mask(cs, p, 2);
    lemma_relabel_mask(cs, p, 3);
    // the rank groups do not depend on which suit is which
    let m0 = suit_mask(cs, 0);
    let m1 = suit_mask(cs, 1);
    let m2 = suit_mask(cs, 2);
    let m3 = suit_mask(cs, 3);
    lemma_suit_mask_bound(cs, 0);
    lemma_suit_mask_bound(cs, 1);
    lemma_suit_mask_bound(cs, 2);
    lemma_suit_mask_bound(cs, 3);
    lemma_suit_mask_bound(cs2, 0);
    lemma_suit_mask_bound(cs2, 1);
    lemma_suit_mask_bound(cs2, 2);
    lemma_suit_mask_bound(cs2, 3);
    assert forall|r: int| 0 <= r < 13 implies suit_count(cs2, r) == suit_count(cs, r) by {
        lemma_suit_mask_bit(cs, 0, r);
        lemma_suit_mask_bit(cs, 1, r);
        lemma_suit_mask_bit(cs, 2, r);
        lemma_suit_mask_bit(cs, 3, r);
        lemma_suit_mask_bit(cs2, 0, r);
        lemma_suit_mask_bit(cs2, 1, r);
        lemma_suit_mask_bit(cs2, 2, r);
        lemma_suit_mask_bit(cs2, 3, r);
        assert(suit_mask(cs2, p[0]) == m0 && suit_mask(cs2, p[1]) == m1 && suit_mask(cs2, p[2]) == m2
            && suit_mask(cs2, p[3]) == m3);
        assert(p[0] != p[1] && p[0] != p[2] && p[0] != p[3] && p[1] != p[2] && p[1] != p[3] && p[2] != p[3]);
        assert(0 <= p[0] < 4 && 0 <= p[1] < 4 && 0 <= p[2] < 4 && 0 <= p[3] < 4);
    }
    let a = ranks_held(cs);
    let a2 = ranks_held(cs2);
    let pr = pair_ranks(cs);
    let pr2 = pair_ranks(cs2);
    let tr = trip_ranks(cs);
    let tr2 = trip_ranks(cs2);
    let qd = quad_ranks(cs);
    let qd2 = quad_ranks(cs2);
    assert(a < 8192 && a2 < 8192 && pr < 8192 && pr2 < 8192 && tr < 8192 && tr2 < 8192 && qd < 8192 && qd2 < 8192)
        by {
        let (n0, n1, n2, n3) = (suit_mask(cs2, 0), suit_mask(cs2, 1), suit_mask(cs2, 2), suit_mask(cs2, 3));
        assert(forall|w: u32, x: u32, y: u32, z: u32|
            w < 8192 && x < 8192 && y < 8192 && z < 8192 ==> #[trigger] (w | x | y | z) < 8192 && (w & x & y & z)
                < 8192 && ((w & x) | (w & y) | (w & z) | (x & y) | (x & z) | (y & z)) < 8192 && (((w & x) & (y | z))
                | ((y & z) & (w | x))) < 8192) by (bit_vector);
    }
    assert forall|r: int| 0 <= r < 13 implies (bit(a, r) <==> bit(a2, r)) && (bit(pr, r) <==> bit(pr2, r)) && (bit(
        tr,
        r,
    ) <==> bit(tr2, r)) && (bit(qd, r) <==> bit(qd2, r)) by {
        lemma_rank_groups(cs, r);
        lemma_rank_groups(cs2, r);
    }
    lemma_group_masks_eq(a, a2);
    lemma_group_masks_eq(pr, pr2);
    lemma_group_masks_eq(tr, tr2);
    lemma_group_masks_eq(qd, qd2);
    // the flush: at most one suit holds five cards, and it keeps its ranks
    lemma_one_flush_suit(cs, 0, 1);
    lemma_one_flush_suit(cs, 0, 2);
    lemma_one_flush_suit(cs, 0, 3);
    lemma_one_flush_suit(cs, 1, 2);
    lemma_one_flush_suit(cs, 1, 3);
    lemma_one_flush_suit(cs, 2, 3);
    assert(suit_mask(cs2, p[0]) == m0 && suit_mask(cs2, p[1]) == m1 && suit_mask(cs2, p[2]) == m2 && suit_mask(
        cs2,
        p[3],
    ) == m3);
    assert(p[0] != p[1] && p[0] != p[2] && p[0] != p[3] && p[1] != p[2] && p[1] != p[3] && p[2] != p[3]);
    assert(0 <= p[0] < 4 && 0 <= p[1] < 4 && 0 <= p[2] < 4 && 0 <= p[3] < 4);
    assert(flush_mask(cs2) == flush_mask(cs));
}

// ---------------------------------------------------------------- the category, stated directly

/// Number of bits of `m` set among the ranks `0..k`.
pub open spec fn bits_count(m: u32, k: int) -> nat
    decreases k,
{
    if k <= 0 {
        0
    } else {
        bits_count(m, k - 1) + if bit(m, k - 1) { 1nat } else { 0nat }
    }
}

proof fn lemma_bits_count_shift(m: u32, k: int)
    requires
        0 <= k < 32,
    ensures
        bits_count(m, k + 1) == (if bit(m, 0) { 1int } else { 0int }) + bits_count(m / 2, k),
    decreases k,
{
    assert(bits_count(m, 0) == 0 && bits_count(m / 2, 0) == 0);
    if k > 0 {
        lemma_bits_count_shift(m, k - 1);
        let ku = k as u32;
        let km = (k - 1) as u32;
        assert(((m / 2) >> km) & 1u32 == (m >> ku) & 1u32) by (bit_vector)
            requires
                0 < ku < 32,
                km + 1 == ku,
        ;
        assert(bit(m, k) == bit(m / 2, k - 1));
    }
}

pub(crate) proof fn lemma_pop_bits(m: u32)
    requires
        m < 8192,
    ensures
        pop(m) == bits_count(m, 13),
    decreases m,
{
    if m == 0 {
        assert forall|r: int| 0 <= r < 13 implies !bit(m, r) by {
            lemma_zero_bit(r as u32);
        }
        lemma_bits_zero(m, 13);
    } else {
        assert(m / 2 < 4096);
        lemma_pop_bits(m / 2);
        lemma_bits_count_shift(m, 12);
        assert((m & 1u32 == 1u32) == (m % 2 == 1)) by (bit_vector);
        assert(((m >> 0u32) & 1u32) == (m & 1u32)) by (bit_vector);
        assert(m % 2 == 0 || m % 2 == 1);
        let h = m / 2;
        assert((h >> 12u32) & 1u32 == 0u32) by (bit_vector)
            requires
                h < 4096,
        ;
        assert(!bit(m / 2, 12));
    }
}

pub(crate) proof fn lemma_bits_zero(m: u32, k: int)
    requires
        0 <= k <= 32,
        forall|r: int| 0 <= r < k ==> !bit(m, r),
    ensures
        bits_count(m, k) == 0,
    decreases k,
{
    if k > 0 {
        lemma_bits_zero(m, k - 1);
    }
}

proof fn lemma_bits_mono(m: u32, j: int, k: int)
    requires
        0 <= j <= k,
    ensures
        bits_count(m, j) <= bits_count(m, k),
    decreases k - j,
{
    if j < k {
        lemma_bits_mono(m, j, k - 1);
    }
}

/// Some bit among the first `k` is set when the count is positive.
pub(crate) proof fn lemma_bits_some(m: u32, k: int)
    requires
        bits_count(m, k) >= 1,
    ensures
        exists|r: int| 0 <= r < k && bit(m, r),
    decreases k,
{
    if k > 0 && !bit(m, k - 1) {
        lemma_bits_some(m, k - 1);
    } else if k <= 0 {
    } else {
        assert(bit(m, k - 1));
    }
}

/// Two distinct bits among the first `k` are set when the count is at least two.
proof fn lemma_bits_two(m: u32, k: int)
    requires
        bits_count(m, k) >= 2,
    ensures
        exists|a: int, b: int| 0 <= a < b < k && bit(m, a) && bit(m, b),
    decreases k,
{
    if k > 0 {
        if bit(m, k - 1) {
            lemma_bits_some(m, k - 1);
            let a = choose|r: int| 0 <= r < k - 1 && bit(m, r);
            assert(0 <= a < k - 1 < k && bit(m, a) && bit(m, k - 1));
        } else {
            lemma_bits_two(m, k - 1);
            let (a, b) = choose|a: int, b: int| 0 <= a < b < k - 1 && bit(m, a) && bit(m, b);
            assert(0 <= a < b < k && bit(m, a) && bit(m, b));
        }
    }
}

/// The count counts the bits set.
proof fn lemma_bits_at_least(m: u32, a: int, b: int, k: int)
    requires
        0 <= a < b < k,
        bit(m, a),
        bit(m, b),
    ensures
        bits_count(m, k) >= 2,
    decreases k,
{
    if k > b + 1 {
        lemma_bits_at_least(m, a, b, k - 1);
    } else {
        lemma_bits_one(m, a, b);
    }
}

pub(crate) proof fn lemma_bits_one(m: u32, a: int, k: int)
    requires
        0 <= a < k,
        bit(m, a),
    ensures
        bits_count(m, k) >= 1,
    decreases k,
{
    if k > a + 1 {
        lemma_bits_one(m, a, k - 1);
    }
}

pub(crate) proof fn lemma_bits_five(m: u32, a: int, b: int, c: int, d: int, e: int, k: int)
    requires
        0 <= a < b < c < d < e < k,
        bit(m, a) && bit(m, b) && bit(m, c) && bit(m, d) && bit(m, e),
    ensures
        bits_count(m, k) >= 5,
    decreases k,
{
    if k > e + 1 {
        lemma_bits_five(m, a, b, c, d, e, k - 1);
    } else {
        lemma_bits_one(m, a, b);
        lemma_bits_mono(m, a + 1, b);
        lemma_bits_mono(m, b + 1, c);
        lemma_bits_mono(m, c + 1, d);
        lemma_bits_mono(m, d + 1, e);
        lemma_bits_one(m, a, a + 1);
    }
}

/// A mask below 2^13 is not zero exactly when a rank bit is set.
pub(crate) proof fn lemma_mask_nonzero(m: u32)
    requires
        m < 8192,
    ensures
        (m != 0) <==> (exists|r: int| 0 <= r < 13 && bit(m, r)),
{
    if m != 0 {
        lemma_hi(m);
        if hi(m) >= 13 {
            lemma_high_bits_clear(m, hi(m) as int);
        }
        assert(bit(m, hi(m) as int));
    } else {
        assert forall|r: int| 0 <= r < 13 implies !bit(m, r) by {
            lemma_zero_bit(r as u32);
        }
    }
}

pub(crate) proof fn lemma_top_bits_bound(m: u32, n: nat)
    requires
        m < 8192,
    ensures
        spec_top_bits(m, n) < 8192,
    decreases n,
{
    if n > 0 && m != 0 {
        lemma_hi(m);
        if hi(m) >= 13 {
            lemma_high_bits_clear(m, hi(m) as int);
        }
        let h = hi(m);
        let rest = m & !(1u32 << h);
        assert(rest < 8192 && (1u32 << h) < 8192) by (bit_vector)
            requires
                m < 8192,
                h < 13,
                rest == m & !(1u32 << h),
        ;
        lemma_top_bits_bound(rest, (n - 1) as nat);
        lemma_mask_or_bound(1u32 << h, spec_top_bits(rest, (n - 1) as nat));
    }
}

/// The rank of the `i`-th card of a straight ending at rank `t` (3, five-high, has the ace
/// playing low).
pub open spec fn run_rank(t: int, i: int) -> int {
    if t - i < 0 { 12 } else { t - i }
}

/// The card of rank `r` and suit `s` is among the cards.
pub open spec fn holds(cs: Seq<u8>, r: int, s: int) -> bool {
    cs.contains((4 * r + s) as u8)
}

/// Five cards of suit `s` in a row ending at rank `t`.
pub open spec fn suit_straight(cs: Seq<u8>, s: int, t: int) -> bool {
    &&& holds(cs, run_rank(t, 0), s)
    &&& holds(cs, run_rank(t, 1), s)
    &&& holds(cs, run_rank(t, 2), s)
    &&& holds(cs, run_rank(t, 3), s)
    &&& holds(cs, run_rank(t, 4), s)
}

/// Five ranks in a row ending at rank `t`.
pub open spec fn rank_straight(cs: Seq<u8>, t: int) -> bool {
    &&& suit_count(cs, run_rank(t, 0)) >= 1
    &&& suit_count(cs, run_rank(t, 1)) >= 1
    &&& suit_count(cs, run_rank(t, 2)) >= 1
    &&& suit_count(cs, run_rank(t, 3)) >= 1
    &&& suit_count(cs, run_rank(t, 4)) >= 1
}

/// Number of ranks below `k` held in suit `s`.
pub open spec fn ranks_in_suit(cs: Seq<u8>, s: int, k: int) -> nat
    decreases k,
{
    if k <= 0 {
        0
    } else {
        ranks_in_suit(cs, s, k - 1) + if holds(cs, k - 1, s) { 1nat } else { 0nat }
    }
}

/// The category of the best poker hand made from the cards, stated on the cards
/// themselves, in the order the evaluator tests them: 8 straight flush, 5 flush, 7 four of a
/// kind, 6 full house, 4 straight, 3 three of a kind, 2 two pairs, 1 one pair, 0 high card.
pub open spec fn category(cs: Seq<u8>) -> u32 {
    if exists|s: int, t: int| 0 <= s < 4 && 3 <= t < 13 && #[trigger] suit_straight(cs, s, t) {
        8
    } else if exists|s: int| 0 <= s < 4 && #[trigger] ranks_in_suit(cs, s, 13) >= 5 {
        5
    } else if exists|r: int| 0 <= r < 13 && #[trigger] suit_count(cs, r) == 4 {
        7
    } else if exists|t: int, p: int|
        0 <= t < 13 && 0 <= p < 13 && t != p && #[trigger] suit_count(cs, t) >= 3 && #[trigger] suit_count(cs, p) >= 2 {
        6
    } else if exists|t: int| 3 <= t < 13 && #[trigger] rank_straight(cs, t) {
        4
    } else if exists|r: int| 0 <= r < 13 && #[trigger] suit_count(cs, r) >= 3 {
        3
    } else if exists|a: int, b: int|
        0 <= a < 13 && 0 <= b < 13 && a != b && #[trigger] suit_count(cs, a) >= 2 && #[trigger] suit_count(cs, b) >= 2 {
        2
    } else if exists|r: int| 0 <= r < 13 && #[trigger] suit_count(cs, r) >= 2 {
        1
    } else {
        0
    }
}

/// Five bits in a row ending at `t` (the wheel, ending at 3, takes bit 12 as its last).
pub open spec fn mask_run(m: u32, t: int) -> bool {
    &&& bit(m, run_rank(t, 0))
    &&& bit(m, run_rank(t, 1))
    &&& bit(m, run_rank(t, 2))
    &&& bit(m, run_rank(t, 3))
    &&& bit(m, run_rank(t, 4))
}

pub(crate) proof fn lemma_straight_top_iff(m: u32)
    ensures
        (spec_straight_top(m) is Some) <==> (exists|t: int| 3 <= t < 13 && #[trigger] mask_run(m, t)),
        spec_straight_top(m) matches Some(t) ==> t < 13 && mask_run(m, t as int),
{
    lemma_best_run(m, 12);
    let b = best_run(m, 12);
    if b >= 4 {
        assert(has_run(m, b));
        assert(mask_run(m, b));
    } else if bit(m, 12) && bit(m, 0) && bit(m, 1) && bit(m, 2) && bit(m, 3) {
        assert(mask_run(m, 3));
    } else {
        assert forall|t: int| 3 <= t < 13 implies !#[trigger] mask_run(m, t) by {
            if t >= 4 {
                assert(!has_run(m, t));
            }
        }
    }
}

proof fn lemma_suit_runs(cs: Seq<u8>, s: int, t: int)
    requires
        valid_cards(cs),
        0 <= s < 4,
        3 <= t < 13,
    ensures
        mask_run(suit_mask(cs, s), t) == suit_straight(cs, s, t),
{
    lemma_suit_mask_bit(cs, s, run_rank(t, 0));
    lemma_suit_mask_bit(cs, s, run_rank(t, 1));
    lemma_suit_mask_bit(cs, s, run_rank(t, 2));
    lemma_suit_mask_bit(cs, s, run_rank(t, 3));
    lemma_suit_mask_bit(cs, s, run_rank(t, 4));
}

proof fn lemma_rank_runs(cs: Seq<u8>, t: int)
    requires
        valid_cards(cs),
        3 <= t < 13,
    ensures
        mask_run(ranks_held(cs), t) == rank_straight(cs, t),
{
    lemma_rank_groups(cs, run_rank(t, 0));
    lemma_rank_groups(cs, run_rank(t, 1));
    lemma_rank_groups(cs, run_rank(t, 2));
    lemma_rank_groups(cs, run_rank(t, 3));
    lemma_rank_groups(cs, run_rank(t, 4));
}

pub(crate) proof fn lemma_ranks_in_suit_bits(cs: Seq<u8>, s: int, k: int)
    requires
        valid_cards(cs),
        0 <= s < 4,
        0 <= k <= 13,
    ensures
        bits_count(suit_mask(cs, s), k) == ranks_in_suit(cs, s, k),
    decreases k,
{
    if k > 0 {
        lemma_ranks_in_suit_bits(cs, s, k - 1);
        lemma_suit_mask_bit(cs, s, k - 1);
    }
}

/// A run of five in a mask makes five of its bits set.
pub(crate) proof fn lemma_run_count(m: u32, t: int)
    requires
        3 <= t < 13,
        mask_run(m, t),
    ensures
        bits_count(m, 13) >= 5,
{
    if t == 3 {
        lemma_bits_five(m, 0, 1, 2, 3, 12, 13);
    } else {
        lemma_bits_five(m, t - 4, t - 3, t - 2, t - 1, t, 13);
    }
}

proof fn lemma_shift_cat(k: u32, x: u32)
    requires
        k < 9,
        x < 0x400_0000,
    ensures
        ((k << 26u32) | x) >> 26u32 == k,
{
    assert(((k << 26u32) | x) >> 26u32 == k) by (bit_vector)
        requires
            k < 9,
            x < 0x400_0000,
    ;
}

proof fn lemma_low_parts(a: u32, b: u32)
    requires
        a < 8192,
        b < 8192,
    ensures
        a < 13 ==> (a << 16u32) | b < 0x400_0000,
        (a << 13u32) | b < 0x400_0000,
        a < 13 ==> (a << 16u32) | (b & 0x1fff) < 0x400_0000,
{
    assert((a < 13 ==> (a << 16u32) | b < 0x400_0000) && (a << 13u32) | b < 0x400_0000 && (a < 13 ==> (a << 16u32)
        | (b & 0x1fff) < 0x400_0000)) by (bit_vector)
        requires
            a < 8192,
            b < 8192,
    ;
}

pub(crate) proof fn lemma_hi_small(m: u32)
    requires
        m < 8192,
        m != 0,
    ensures
        hi(m) < 13,
        bit(m, hi(m) as int),
        (1u32 << hi(m)) < 8192,
{
    lemma_hi(m);
    if hi(m) >= 13 {
        lemma_high_bits_clear(m, hi(m) as int);
    }
    let h = hi(m);
    assert((1u32 << h) < 8192) by (bit_vector)
        requires
            h < 13,
    ;
}

pub(crate) proof fn lemma_flush_facts(cs: Seq<u8>)
    requires
        valid_cards(cs),
        cs.len() <= 7,
    ensures
        (flush_mask(cs) is Some) <==> (exists|s: int| 0 <= s < 4 && #[trigger] ranks_in_suit(cs, s, 13) >= 5),
        (exists|s: int, t: int| 0 <= s < 4 && 3 <= t < 13 && #[trigger] suit_straight(cs, s, t)) <==> (flush_mask(
            cs,
        ) matches Some(f) && spec_straight_top(f) is Some),
        flush_mask(cs) matches Some(f) ==> f < 8192,
{
    assert forall|s: int| 0 <= s < 4 implies pop(#[trigger] suit_mask(cs, s)) == ranks_in_suit(cs, s, 13) by {
        lemma_suit_mask_bound(cs, s);
        lemma_pop_bits(suit_mask(cs, s));
        lemma_ranks_in_suit_bits(cs, s, 13);
    }
    lemma_suit_mask_bound(cs, 0);
    lemma_suit_mask_bound(cs, 1);
    lemma_suit_mask_bound(cs, 2);
    lemma_suit_mask_bound(cs, 3);
    assert(pop(suit_mask(cs, 0)) == ranks_in_suit(cs, 0, 13));
    assert(pop(suit_mask(cs, 1)) == ranks_in_suit(cs, 1, 13));
    assert(pop(suit_mask(cs, 2)) == ranks_in_suit(cs, 2, 13));
    assert(pop(suit_mask(cs, 3)) == ranks_in_suit(cs, 3, 13));
    lemma_one_flush_suit(cs, 0, 1);
    lemma_one_flush_suit(cs, 0, 2);
    lemma_one_flush_suit(cs, 0, 3);
    lemma_one_flush_suit(cs, 1, 2);
    lemma_one_flush_suit(cs, 1, 3);
    lemma_one_flush_suit(cs, 2, 3);
    // the suit of the flush
    if exists|s: int, t: int| 0 <= s < 4 && 3 <= t < 13 && #[trigger] suit_straight(cs, s, t) {
        let (s, t) = choose|s: int, t: int| 0 <= s < 4 && 3 <= t < 13 && #[trigger] suit_straight(cs, s, t);
        lemma_suit_runs(cs, s, t);
        lemma_run_count(suit_mask(cs, s), t);
        lemma_ranks_in_suit_bits(cs, s, 13);
        assert(pop(suit_mask(cs, s)) >= 5);
        assert(flush_mask(cs) == Some(suit_mask(cs, s)));
        lemma_straight_top_iff(suit_mask(cs, s));
    }
    if flush_mask(cs) is Some {
        let f = flush_mask(cs)->0;
        if spec_straight_top(f) is Some {
            let s = if pop(suit_mask(cs, 0)) >= 5 {
                0int
            } else if pop(suit_mask(cs, 1)) >= 5 {
                1int
            } else if pop(suit_mask(cs, 2)) >= 5 {
                2int
            } else {
                3int
            };
            assert(f == suit_mask(cs, s));
            lemma_straight_top_iff(f);
            let t = choose|t: int| 3 <= t < 13 && #[trigger] mask_run(f, t);
            lemma_suit_runs(cs, s, t);
            assert(suit_straight(cs, s, t));
        }
    }
}

pub(crate) proof fn lemma_group_facts(cs: Seq<u8>)
    requires
        valid_cards(cs),
    ensures
        (quad_ranks(cs) != 0) <==> (exists|r: int| 0 <= r < 13 && #[trigger] suit_count(cs, r) == 4),
        (trip_ranks(cs) != 0) <==> (exists|r: int| 0 <= r < 13 && #[trigger] suit_count(cs, r) >= 3),
        (pop(pair_ranks(cs)) >= 1) <==> (exists|r: int| 0 <= r < 13 && #[trigger] suit_count(cs, r) >= 2),
        (pop(pair_ranks(cs)) >= 2) <==> (exists|a: int, b: int|
            0 <= a < 13 && 0 <= b < 13 && a != b && #[trigger] suit_count(cs, a) >= 2 && #[trigger] suit_count(cs, b)
                >= 2),
        (trip_ranks(cs) != 0 && pair_ranks(cs) & !(1u32 << hi(trip_ranks(cs))) != 0) <==> (exists|t: int, p: int|
            0 <= t < 13 && 0 <= p < 13 && t != p && #[trigger] suit_count(cs, t) >= 3 && #[trigger] suit_count(cs, p)
                >= 2),
        (spec_straight_top(ranks_held(cs)) is Some) <==> (exists|t: int| 3 <= t < 13 && #[trigger] rank_straight(cs, t)),
        ranks_held(cs) < 8192,
        pair_ranks(cs) < 8192,
        trip_ranks(cs) < 8192,
        quad_ranks(cs) < 8192,
{
    lemma_suit_mask_bound(cs, 0);
    lemma_suit_mask_bound(cs, 1);
    lemma_suit_mask_bound(cs, 2);
    lemma_suit_mask_bound(cs, 3);
    let (a, b, c, d) = (suit_mask(cs, 0), suit_mask(cs, 1), suit_mask(cs, 2), suit_mask(cs, 3));
    assert(forall|w: u32, x: u32, y: u32, z: u32|
        w < 8192 && x < 8192 && y < 8192 && z < 8192 ==> #[trigger] (w | x | y | z) < 8192 && (w & x & y & z) < 8192
            && ((w & x) | (w & y) | (w & z) | (x & y) | (x & z) | (y & z)) < 8192 && (((w & x) & (y | z)) | ((y & z)
            & (w | x))) < 8192) by (bit_vector);
    assert(ranks_held(cs) < 8192 && pair_ranks(cs) < 8192 && trip_ranks(cs) < 8192 && quad_ranks(cs) < 8192);
    let all = ranks_held(cs);
    let pr = pair_ranks(cs);
    let tr = trip_ranks(cs);
    let qd = quad_ranks(cs);
    assert forall|r: int| 0 <= r < 13 implies (bit(all, r) <==> suit_count(cs, r) >= 1) && (bit(pr, r) <==> suit_count(
        cs,
        r,
    ) >= 2) && (bit(tr, r) <==> suit_count(cs, r) >= 3) && (bit(qd, r) <==> suit_count(cs, r) == 4) by {
        lemma_rank_groups(cs, r);
    }
    lemma_mask_nonzero(qd);
    lemma_mask_nonzero(tr);
    lemma_mask_nonzero(pr);
    if exists|r: int| 0 <= r < 13 && #[trigger] suit_count(cs, r) == 4 {
        let r = choose|r: int| 0 <= r < 13 && #[trigger] suit_count(cs, r) == 4;
        assert(bit(qd, r));
    }
    if exists|r: int| 0 <= r < 13 && #[trigger] suit_count(cs, r) >= 3 {
        let r = choose|r: int| 0 <= r < 13 && #[trigger] suit_count(cs, r) >= 3;
        assert(bit(tr, r));
    }
    // pairs: the count of the mask
    lemma_pop_bits(pr);
    if pop(pr) >= 1 {
        lemma_bits_some(pr, 13);
    }
    if exists|r: int| 0 <= r < 13 && #[trigger] suit_count(cs, r) >= 2 {
        let r = choose|r: int| 0 <= r < 13 && #[trigger] suit_count(cs, r) >= 2;
        assert(bit(pr, r));
        lemma_bits_one(pr, r, 13);
    }
    if pop(pr) >= 2 {
        lemma_bits_two(pr, 13);
        let (x, y) = choose|x: int, y: int| 0 <= x < y < 13 && bit(pr, x) && bit(pr, y);
        assert(suit_count(cs, x) >= 2 && suit_count(cs, y) >= 2);
    }
    if exists|x: int, y: int|
        0 <= x < 13 && 0 <= y < 13 && x != y && #[trigger] suit_count(cs, x) >= 2 && #[trigger] suit_count(cs, y) >= 2 {
        let (x, y) = choose|x: int, y: int|
            0 <= x < 13 && 0 <= y < 13 && x != y && #[trigger] suit_count(cs, x) >= 2 && #[trigger] suit_count(cs, y) >= 2;
        if x < y {
            lemma_bits_at_least(pr, x, y, 13);
        } else {
            lemma_bits_at_least(pr, y, x, 13);
        }
    }
    // full house
    if tr != 0 {
        lemma_hi_small(tr);
        let h = hi(tr);
        let rest = pr & !(1u32 << h);
        assert forall|r: int| 0 <= r < 32 implies (bit(rest, r) <==> (bit(pr, r) && r != h)) by {
            lemma_bit_ops(pr, !(1u32 << h), r as u32);
            lemma_bit_ops(1u32 << h, 1u32 << h, r as u32);
            lemma_bit_single(h, r as u32);
        }
        assert(rest < 8192) by (bit_vector)
            requires
                pr < 8192,
                rest == pr & !(1u32 << h),
        ;
        lemma_mask_nonzero(rest);
        if rest != 0 {
            let p = choose|r: int| 0 <= r < 13 && bit(rest, r);
            assert(suit_count(cs, h as int) >= 3 && suit_count(cs, p) >= 2 && p != h);
        }
        if exists|t: int, p: int|
            0 <= t < 13 && 0 <= p < 13 && t != p && #[trigger] suit_count(cs, t) >= 3 && #[trigger] suit_count(cs, p) >= 2 {
            let (t, p) = choose|t: int, p: int|
                0 <= t < 13 && 0 <= p < 13 && t != p && #[trigger] suit_count(cs, t) >= 3 && #[trigger] suit_count(cs, p)
                    >= 2;
            if p != h as int {
                assert(bit(rest, p));
            } else {
                assert(t != h as int);
                assert(bit(pr, t));
                assert(bit(rest, t));
            }
        }
    } else {
        if exists|t: int, p: int|
            0 <= t < 13 && 0 <= p < 13 && t != p && #[trigger] suit_count(cs, t) >= 3 && #[trigger] suit_count(cs, p) >= 2 {
            let (t, p) = choose|t: int, p: int|
                0 <= t < 13 && 0 <= p < 13 && t != p && #[trigger] suit_count(cs, t) >= 3 && #[trigger] suit_count(cs, p)
                    >= 2;
            assert(bit(tr, t));
        }
    }
    // straight
    lemma_straight_top_iff(all);
    if spec_straight_top(all) is Some {
        let t = choose|t: int| 3 <= t < 13 && #[trigger] mask_run(all, t);
        lemma_rank_runs(cs, t);
    }
    if exists|t: int| 3 <= t < 13 && #[trigger] rank_straight(cs, t) {
        let t = choose|t: int| 3 <= t < 13 && #[trigger] rank_straight(cs, t);
        lemma_rank_runs(cs, t);
        assert(mask_run(all, t));
    }
}

pub(crate) proof fn lemma_and_not_bound(a: u32, b: u32)
    requires
        a < 8192,
    ensures
        a & !b < 8192,
{
    assert(a & !b < 8192) by (bit_vector)
        requires
            a < 8192,
    ;
}

/// Law: the category of the strength of at most seven cards is the category of the best
/// poker hand they make, stated on the cards (see `category`).
#[verifier::spinoff_prover]
#[verifier::rlimit(80)]
pub proof fn lemma_eval_category(cs: Seq<u8>)
    requires
        valid_cards(cs),
        cs.len() <= 7,
    ensures
        spec_eval(cs) >> 26u32 == category(cs),
{
    lemma_flush_facts(cs);
    lemma_group_facts(cs);
    let all = ranks_held(cs);
    let pairs = pair_ranks(cs);
    let trips = trip_ranks(cs);
    let quads = quad_ranks(cs);
    if flush_mask(cs) is Some {
        let f = flush_mask(cs)->0;
        lemma_straight_top_iff(f);
        match spec_straight_top(f) {
            Some(t) => {
                lemma_shift_cat(8, t);
            },
            None => {
                lemma_top_bits_bound(f, 5);
                lemma_shift_cat(5, spec_top_bits(f, 5));
            },
        }
    } else if quads != 0 {
        lemma_hi_small(quads);
        let q = hi(quads);
        lemma_and_not_bound(all, 1u32 << q);
        let tb = spec_top_bits(all & !(1u32 << q), 1);
        lemma_top_bits_bound(all & !(1u32 << q), 1);
        lemma_low_parts(q, tb);
        lemma_shift_cat(7, (q << 16u32) | tb);
        lemma_or_assoc(7u32 << 26u32, q << 16u32, tb);
    } else if trips != 0 && pairs & !(1u32 << hi(trips)) != 0 {
        lemma_hi_small(trips);
        let t = hi(trips);
        lemma_and_not_bound(pairs, 1u32 << t);
        lemma_hi_small(pairs & !(1u32 << t));
        let h = hi(pairs & !(1u32 << t));
        lemma_low_parts(t, h);
        lemma_shift_cat(6, (t << 16u32) | h);
        lemma_or_assoc(6u32 << 26u32, t << 16u32, h);
    } else if spec_straight_top(all) is Some {
        lemma_straight_top_iff(all);
        lemma_shift_cat(4, spec_straight_top(all)->0);
    } else if trips != 0 {
        lemma_hi_small(trips);
        let t = hi(trips);
        lemma_and_not_bound(all, 1u32 << t);
        let tb = spec_top_bits(all & !(1u32 << t), 2);
        lemma_top_bits_bound(all & !(1u32 << t), 2);
        lemma_low_parts(t, tb);
        lemma_shift_cat(3, (t << 16u32) | tb);
        lemma_or_assoc(3u32 << 26u32, t << 16u32, tb);
    } else if pop(pairs) >= 2 {
        let tp = spec_top_bits(pairs, 2);
        lemma_top_bits_bound(pairs, 2);
        lemma_and_not_bound(all, tp);
        let tb = spec_top_bits(all & !tp, 1);
        lemma_top_bits_bound(all & !tp, 1);
        lemma_low_parts(tp, tb);
        lemma_shift_cat(2, (tp << 13u32) | tb);
        lemma_or_assoc(2u32 << 26u32, tp << 13u32, tb);
    } else if pop(pairs) == 1 {
        lemma_mask_nonzero(pairs);
        lemma_pop_bits(pairs);
        assert(pairs != 0) by {
            lemma_bits_some(pairs, 13);
        }
        lemma_hi_small(pairs);
        let p = hi(pairs);
        lemma_and_not_bound(all, 1u32 << p);
        let tb = spec_top_bits(all & !(1u32 << p), 3);
        lemma_top_bits_bound(all & !(1u32 << p), 3);
        lemma_low_parts(p, tb);
        lemma_shift_cat(1, (p << 16u32) | tb);
        lemma_or_assoc(1u32 << 26u32, p << 16u32, tb);
    } else {
        lemma_top_bits_bound(all, 5);
        let x = spec_top_bits(all, 5);
        assert(x >> 26u32 == 0) by (bit_vector)
            requires
                x < 8192,
        ;
    }
}

} // verus!
