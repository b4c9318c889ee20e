//! The strength of five to seven cards is that of their best five cards, tie-breakers included.
use vstd::prelude::*;
use crate::eval::{
    bit, category, flush_mask, hi, lemma_and_not_bound, lemma_bit_ops, lemma_eval_category, lemma_flush_facts,
    lemma_group_facts, lemma_hi, lemma_hi_small, lemma_mask_ext, lemma_top_bits_bound, lemma_zero_bit, pair_ranks, pop,
    quad_ranks, ranks_held, spec_eval, spec_straight_top, spec_top_bits, trip_ranks, valid_cards, has_run, best_run,
    lemma_best_run, lemma_high_bits_clear, bits_count, lemma_pop_bits, lemma_rank_groups, lemma_suit_mask_bit,
    lemma_suit_mask_bound, suit_count, suit_mask, lemma_one_flush_suit,
};
use crate::eval_five::{
    cards_within, extend_to_five, five_of, held_suits, increasing, lemma_category_mono, lemma_concat_distinct,
    lemma_group_cards, lemma_held_count_four, lemma_held_suits, lemma_shown_category, lemma_valid_within,
    lemma_within_concat, lemma_within_union, shows, witness_straight, witness_straight_flush, witness_two_groups,
    lemma_suit_cards, suit_cards, lemma_ris_ge,
};
use crate::eval::{mask_run, run_rank, holds, rank_straight, suit_straight, ranks_in_suit, lemma_ranks_in_suit_bits};
use vstd::std_specs::bits::u32_leading_zeros;

verus! {

broadcast use vstd::std_specs::bits::axiom_u32_leading_zeros;

/// Facts of 32-bit arithmetic the proofs below rest on.
proof fn lemma_word_facts(x: u32, y: u32, z: u32, h: u32, s: u32)
    by (bit_vector)
    ensures
        x & !y == 0u32 ==> x <= y,
        s < 32 && x >> s == 0u32 ==> x < (1u32 << s),
        h < 31 && x < (1u32 << h) ==> ((1u32 << h) | x) == (1u32 << h) + x,
        h < 32 ==> ((1u32 << h) | x) >= (1u32 << h),
        s <= h && h < 32 ==> (1u32 << s) <= (1u32 << h),
        x & !y == 0u32 ==> (x & !z) & !(y & !z) == 0u32,
        h < 31 && x < (1u32 << ((h + 1) as u32)) ==> (x & !(1u32 << h)) < (1u32 << h),
        h < 32 && (y >> h) & 1u32 == 1u32 && x & !(y & !(1u32 << h)) == 0u32 ==> ((1u32 << h) | x) & !y == 0u32,
        x >> 26u32 == y ==> (y as int) * 0x400_0000 <= x && (x as int) < (y as int + 1) * 0x400_0000,
        y < 9 && x < 0x400_0000 ==> ((y << 26u32) | x) as int == (y as int) * 0x400_0000 + x,
        y < 13 && x < 8192 ==> ((y << 16u32) | x) as int == (y as int) * 65536 + x,
        y < 8192 && x < 8192 ==> ((y << 13u32) | x) as int == (y as int) * 8192 + x,
        0u32 & !y == 0u32,
        (x & !z) <= x,
        (x | y) | z == x | (y | z),
        h < 31 && x < (1u32 << h) ==> ((1u32 << h) | x) & !(1u32 << h) == x,
        h < 31 && x < (1u32 << h) ==> (((1u32 << h) | x) >> h) & 1u32 == 1u32 && ((1u32 << h) | x) < (1u32 << ((h
            + 1) as u32)),
        s < 32 && x < (1u32 << s) && s <= h && h < 32 ==> (x >> h) & 1u32 == 0u32,
{
}

/// Every bit of `x` is a bit of `y`.
pub open spec fn bits_within(x: u32, y: u32) -> bool {
    x & !y == 0u32
}

proof fn lemma_within_bit(x: u32, y: u32, r: int)
    requires
        bits_within(x, y),
        0 <= r < 32,
        bit(x, r),
    ensures
        bit(y, r),
{
    lemma_bit_ops(x, !y, r as u32);
    lemma_bit_ops(y, y, r as u32);
    lemma_zero_bit(r as u32);
}

proof fn lemma_within_of_bits(x: u32, y: u32)
    requires
        forall|r: int| 0 <= r < 32 ==> bit(x, r) ==> bit(y, r),
    ensures
        bits_within(x, y),
{
    assert forall|r: int| 0 <= r < 32 implies (bit(x & !y, r) <==> bit(0u32, r)) by {
        assert(bit(x, r) ==> bit(y, r));
        lemma_bit_ops(x, !y, r as u32);
        lemma_bit_ops(y, y, r as u32);
        lemma_zero_bit(r as u32);
    }
    lemma_mask_ext(x & !y, 0u32);
}

/// A non-zero mask lies below twice its highest bit.
proof fn lemma_below_hi(m: u32)
    requires
        m != 0,
    ensures
        hi(m) < 32,
        hi(m) < 31 ==> m < (1u32 << ((hi(m) + 1) as u32)),
{
    lemma_hi(m);
    let lz = u32_leading_zeros(m);
    if hi(m) < 31 {
        let s = (hi(m) + 1) as u32;
        assert(m >> s == 0u32);
        lemma_word_facts(m, 0, 0, 0, s);
    }
}

/// The top bits of a mask are bits of it.
proof fn lemma_top_within(m: u32, n: nat)
    ensures
        bits_within(spec_top_bits(m, n), m),
    decreases n,
{
    if n == 0 || m == 0 {
        lemma_word_facts(0, m, 0, 0, 0);
    } else {
        lemma_hi(m);
        let h = hi(m);
        let rest = m & !(1u32 << h);
        lemma_top_within(rest, (n - 1) as nat);
        lemma_word_facts(spec_top_bits(rest, (n - 1) as nat), m, 0, h, 0);
    }
}

/// The highest bit of a part is at most the highest bit of the whole.
proof fn lemma_hi_mono(a: u32, b: u32)
    requires
        a != 0,
        bits_within(a, b),
    ensures
        b != 0,
        hi(a) <= hi(b),
{
    lemma_hi(a);
    lemma_within_bit(a, b, hi(a) as int);
    if b == 0 {
        lemma_zero_bit(hi(a));
    }
    lemma_hi(b);
}

/// The top `n` bits of a part are worth at most those of the whole.
pub proof fn lemma_top_mono(a: u32, b: u32, n: nat)
    requires
        bits_within(a, b),
        b < 8192,
    ensures
        spec_top_bits(a, n) <= spec_top_bits(b, n),
    decreases n,
{
    if n == 0 || a == 0 {
    } else {
        lemma_hi_mono(a, b);
        let ha = hi(a);
        let hb = hi(b);
        lemma_hi(b);
        if hb >= 13 {
            crate::eval::lemma_high_bits_clear(b, hb as int);
        }
        let rb = b & !(1u32 << hb);
        lemma_word_facts(b, 0, 1u32 << hb, 0, 0);
        let tb = spec_top_bits(rb, (n - 1) as nat);
        lemma_word_facts(tb, 0, 0, hb, 0);
        let ra = a & !(1u32 << ha);
        let ta = spec_top_bits(ra, (n - 1) as nat);
        if ha < hb {
            lemma_top_within(a, n);
            lemma_word_facts(spec_top_bits(a, n), a, 0, 0, 0);
            lemma_below_hi(a);
            lemma_word_facts(a, 0, 0, hb, (ha + 1) as u32);
        } else {
            let h = ha;
            lemma_word_facts(a, b, 1u32 << h, h, 0);
            lemma_word_facts(b, 0, 0, 0, 0);
            lemma_top_mono(ra, rb, (n - 1) as nat);
            lemma_below_hi(a);
            lemma_below_hi(b);
            lemma_word_facts(a, 0, 0, h, 0);
            lemma_word_facts(b, 0, 0, h, 0);
            lemma_top_within(ra, (n - 1) as nat);
            lemma_top_within(rb, (n - 1) as nat);
            lemma_word_facts(ta, ra, 0, h, 0);
            lemma_word_facts(tb, rb, 0, h, 0);
        }
    }
}

/// The category in the order `spec_eval` tests it.
pub open spec fn eval_cat(cs: Seq<u8>) -> u32 {
    let all = ranks_held(cs);
    let pairs = pair_ranks(cs);
    let trips = trip_ranks(cs);
    let quads = quad_ranks(cs);
    if flush_mask(cs) is Some {
        if spec_straight_top(flush_mask(cs)->0) is Some { 8 } else { 5 }
    } else if quads != 0 {
        7
    } else if trips != 0 && pairs & !(1u32 << hi(trips)) != 0 {
        6
    } else if spec_straight_top(all) is Some {
        4
    } else if trips != 0 {
        3
    } else if pop(pairs) >= 2 {
        2
    } else if pop(pairs) == 1 {
        1
    } else {
        0
    }
}

/// The tie-breakers below the category, as numbers.
pub open spec fn eval_low(cs: Seq<u8>) -> int {
    let all = ranks_held(cs);
    let pairs = pair_ranks(cs);
    let trips = trip_ranks(cs);
    let quads = quad_ranks(cs);
    if flush_mask(cs) is Some {
        let f = flush_mask(cs)->0;
        match spec_straight_top(f) {
            Some(t) => t as int,
            None => spec_top_bits(f, 5) as int,
        }
    } else if quads != 0 {
        let q = hi(quads);
        q * 65536 + spec_top_bits(all & !(1u32 << q), 1)
    } else if trips != 0 && pairs & !(1u32 << hi(trips)) != 0 {
        let t = hi(trips);
        t * 65536 + hi(pairs & !(1u32 << t))
    } else if spec_straight_top(all) is Some {
        spec_straight_top(all)->0 as int
    } else if trips != 0 {
        let t = hi(trips);
        t * 65536 + spec_top_bits(all & !(1u32 << t), 2)
    } else if pop(pairs) >= 2 {
        let tp = spec_top_bits(pairs, 2);
        tp * 8192 + spec_top_bits(all & !tp, 1)
    } else if pop(pairs) == 1 {
        let p = hi(pairs);
        p * 65536 + spec_top_bits(all & !(1u32 << p), 3)
    } else {
        spec_top_bits(all, 5) as int
    }
}

/// The strength of a hand is its category times 2^26 plus its tie-breakers.
pub proof fn lemma_eval_parts(cs: Seq<u8>)
    requires
        valid_cards(cs),
        cs.len() <= 7,
    ensures
        spec_eval(cs) as int == eval_cat(cs) * 0x400_0000 + eval_low(cs),
        0 <= eval_low(cs) < 0x400_0000,
        eval_cat(cs) == category(cs),
{
    lemma_eval_value(cs);
    lemma_eval_category(cs);
    lemma_word_facts(spec_eval(cs), category(cs), 0, 0, 0);
}

#[verifier::rlimit(40)]
proof fn lemma_eval_value(cs: Seq<u8>)
    requires
        valid_cards(cs),
        cs.len() <= 7,
    ensures
        spec_eval(cs) as int == eval_cat(cs) * 0x400_0000 + eval_low(cs),
        0 <= eval_low(cs) < 0x400_0000,
{
    let all = ranks_held(cs);
    let pairs = pair_ranks(cs);
    let trips = trip_ranks(cs);
    let quads = quad_ranks(cs);
    assert(all < 8192 && pairs < 8192 && trips < 8192 && quads < 8192) by {
        lemma_group_facts(cs);
    }
    assert(flush_mask(cs) matches Some(f) ==> f < 8192) by {
        lemma_flush_facts(cs);
    }
    if flush_mask(cs) is Some {
        let f = flush_mask(cs)->0;
        match spec_straight_top(f) {
            Some(t) => {
                crate::eval::lemma_straight_top_iff(f);
                lemma_word_facts(t, 8, 0, 0, 0);
            },
            None => {
                lemma_top_bits_bound(f, 5);
                lemma_word_facts(spec_top_bits(f, 5), 5, 0, 0, 0);
            },
        }
    } else if quads != 0 {
        lemma_hi_small(quads);
        let q = hi(quads);
        lemma_and_not_bound(all, 1u32 << q);
        let tb = spec_top_bits(all & !(1u32 << q), 1);
        lemma_top_bits_bound(all & !(1u32 << q), 1);
        lemma_word_facts(tb, q, 0, 0, 0);
        lemma_word_facts((q << 16u32) | tb, 7, 0, 0, 0);
        lemma_word_facts(7u32 << 26u32, q << 16u32, tb, 0, 0);
    } else if trips != 0 && pairs & !(1u32 << hi(trips)) != 0 {
        lemma_hi_small(trips);
        let t = hi(trips);
        lemma_and_not_bound(pairs, 1u32 << t);
        lemma_hi_small(pairs & !(1u32 << t));
        let h = hi(pairs & !(1u32 << t));
        lemma_word_facts(h, t, 0, 0, 0);
        lemma_word_facts((t << 16u32) | h, 6, 0, 0, 0);
        lemma_word_facts(6u32 << 26u32, t << 16u32, h, 0, 0);
    } else if spec_straight_top(all) is Some {
        crate::eval::lemma_straight_top_iff(all);
        lemma_word_facts(spec_straight_top(all)->0, 4, 0, 0, 0);
    } else if trips != 0 {
        lemma_hi_small(trips);
        let t = hi(trips);
        lemma_and_not_bound(all, 1u32 << t);
        let tb = spec_top_bits(all & !(1u32 << t), 2);
        lemma_top_bits_bound(all & !(1u32 << t), 2);
        lemma_word_facts(tb, t, 0, 0, 0);
        lemma_word_facts((t << 16u32) | tb, 3, 0, 0, 0);
        lemma_word_facts(3u32 << 26u32, t << 16u32, tb, 0, 0);
    } else if pop(pairs) >= 2 {
        let tp = spec_top_bits(pairs, 2);
        lemma_top_bits_bound(pairs, 2);
        lemma_and_not_bound(all, tp);
        let tb = spec_top_bits(all & !tp, 1);
        lemma_top_bits_bound(all & !tp, 1);
        lemma_word_facts(tb, tp, 0, 0, 0);
        lemma_word_facts((tp << 13u32) | tb, 2, 0, 0, 0);
        lemma_word_facts(2u32 << 26u32, tp << 13u32, tb, 0, 0);
    } else if pop(pairs) == 1 {
        crate::eval::lemma_mask_nonzero(pairs);
        crate::eval::lemma_pop_bits(pairs);
        assert(pairs != 0) by {
            crate::eval::lemma_bits_some(pairs, 13);
        }
        lemma_hi_small(pairs);
        let p = hi(pairs);
        lemma_and_not_bound(all, 1u32 << p);
        let tb = spec_top_bits(all & !(1u32 << p), 3);
        lemma_top_bits_bound(all & !(1u32 << p), 3);
        lemma_word_facts(tb, p, 0, 0, 0);
        lemma_word_facts((p << 16u32) | tb, 1, 0, 0, 0);
        lemma_word_facts(1u32 << 26u32, p << 16u32, tb, 0, 0);
    } else {
        lemma_top_bits_bound(all, 5);
        lemma_word_facts(spec_top_bits(all, 5), 0, 0, 0, 0);
    }
}

/// The best straight of a part is no better than that of the whole.
proof fn lemma_straight_mono(a: u32, b: u32)
    requires
        bits_within(a, b),
        spec_straight_top(a) is Some,
    ensures
        spec_straight_top(b) is Some,
        spec_straight_top(a)->0 <= spec_straight_top(b)->0,
{
    lemma_best_run(a, 12);
    lemma_best_run(b, 12);
    let ba = best_run(a, 12);
    let bb = best_run(b, 12);
    if ba >= 4 {
        lemma_within_bit(a, b, ba);
        lemma_within_bit(a, b, ba - 1);
        lemma_within_bit(a, b, ba - 2);
        lemma_within_bit(a, b, ba - 3);
        lemma_within_bit(a, b, ba - 4);
        assert(has_run(b, ba));
    } else {
        lemma_within_bit(a, b, 12);
        lemma_within_bit(a, b, 0);
        lemma_within_bit(a, b, 1);
        lemma_within_bit(a, b, 2);
        lemma_within_bit(a, b, 3);
    }
}

/// A group rank then kickers: a part is worth no more than the whole.
proof fn lemma_group_kick_mono(ga: u32, gb: u32, aa: u32, ab: u32, n: nat)
    requires
        ga != 0,
        bits_within(ga, gb),
        bits_within(aa, ab),
        gb < 8192,
        ab < 8192,
    ensures
        gb != 0,
        hi(ga) * 65536 + spec_top_bits(aa & !(1u32 << hi(ga)), n) <= hi(gb) * 65536 + spec_top_bits(
            ab & !(1u32 << hi(gb)),
            n,
        ),
{
    lemma_hi_mono(ga, gb);
    crate::eval::lemma_hi_small(gb);
    let ha = hi(ga);
    let hb = hi(gb);
    lemma_and_not_bound(ab, 1u32 << hb);
    lemma_word_facts(aa, ab, 0, 0, 0);
    lemma_and_not_bound(aa, 1u32 << ha);
    assert(aa < 8192);
    lemma_top_bits_bound(aa & !(1u32 << ha), n);
    if ha == hb {
        lemma_word_facts(aa, ab, 1u32 << ha, 0, 0);
        lemma_top_mono(aa & !(1u32 << ha), ab & !(1u32 << ha), n);
    }
}

/// A full house of a part is worth no more than that of the whole.
proof fn lemma_full_house_mono(ta: u32, tb: u32, pa: u32, pb: u32)
    requires
        ta != 0,
        pa & !(1u32 << hi(ta)) != 0,
        bits_within(ta, tb),
        bits_within(pa, pb),
        bits_within(tb, pb),
        tb < 8192,
        pb < 8192,
    ensures
        tb != 0,
        pb & !(1u32 << hi(tb)) != 0,
        hi(ta) * 65536 + hi(pa & !(1u32 << hi(ta))) <= hi(tb) * 65536 + hi(pb & !(1u32 << hi(tb))),
{
    lemma_hi_mono(ta, tb);
    crate::eval::lemma_hi_small(tb);
    let ha = hi(ta);
    let hb = hi(tb);
    lemma_word_facts(pa, pb, 0, 0, 0);
    assert(pa < 8192);
    lemma_and_not_bound(pa, 1u32 << ha);
    lemma_and_not_bound(pb, 1u32 << hb);
    crate::eval::lemma_hi_small(pa & !(1u32 << ha));
    if ha == hb {
        lemma_word_facts(pa, pb, 1u32 << ha, 0, 0);
        lemma_hi_mono(pa & !(1u32 << ha), pb & !(1u32 << ha));
    } else {
        lemma_hi(ta);
        lemma_within_bit(ta, tb, ha as int);
        lemma_within_bit(tb, pb, ha as int);
        lemma_word_facts(ta, tb, 0, 0, 0);
        crate::eval::lemma_hi_small(ta);
        lemma_bit_ops(pb, !(1u32 << hb), ha);
        lemma_bit_ops(1u32 << hb, 1u32 << hb, ha);
        crate::eval::lemma_bit_single(hb, ha);
        if pb & !(1u32 << hb) == 0 {
            lemma_zero_bit(ha);
        }
        crate::eval::lemma_hi_small(pb & !(1u32 << hb));
    }
}

/// Two pairs then a kicker: a part is worth no more than the whole.
proof fn lemma_two_pair_mono(pa: u32, pb: u32, aa: u32, ab: u32)
    requires
        bits_within(pa, pb),
        bits_within(aa, ab),
        pb < 8192,
        ab < 8192,
    ensures
        spec_top_bits(pa, 2) * 8192 + spec_top_bits(aa & !spec_top_bits(pa, 2), 1) <= spec_top_bits(pb, 2) * 8192
            + spec_top_bits(ab & !spec_top_bits(pb, 2), 1),
{
    let ta = spec_top_bits(pa, 2);
    let tb = spec_top_bits(pb, 2);
    lemma_top_mono(pa, pb, 2);
    lemma_word_facts(aa, ab, 0, 0, 0);
    lemma_and_not_bound(aa, ta);
    lemma_and_not_bound(ab, tb);
    lemma_top_bits_bound(aa & !ta, 1);
    lemma_top_bits_bound(ab & !tb, 1);
    if ta == tb {
        lemma_word_facts(aa, ab, ta, 0, 0);
        lemma_top_mono(aa & !ta, ab & !ta, 1);
    }
}

proof fn lemma_bits_count_mono(a: u32, b: u32, k: int)
    requires
        bits_within(a, b),
        0 <= k <= 32,
    ensures
        bits_count(a, k) <= bits_count(b, k),
    decreases k,
{
    if k > 0 {
        lemma_bits_count_mono(a, b, k - 1);
        if bit(a, k - 1) {
            lemma_within_bit(a, b, k - 1);
        }
    }
}

/// A part has no more bits than the whole.
proof fn lemma_pop_mono(a: u32, b: u32)
    requires
        bits_within(a, b),
        b < 8192,
    ensures
        pop(a) <= pop(b),
{
    lemma_word_facts(a, b, 0, 0, 0);
    lemma_pop_bits(a);
    lemma_pop_bits(b);
    lemma_bits_count_mono(a, b, 13);
}

/// The rank masks of some of the cards lie within those of all of them.
proof fn lemma_masks_within(sub: Seq<u8>, cs: Seq<u8>)
    requires
        valid_cards(cs),
        valid_cards(sub),
        cards_within(sub, cs),
    ensures
        forall|s: int| 0 <= s < 4 ==> bits_within(#[trigger] suit_mask(sub, s), suit_mask(cs, s)),
        bits_within(ranks_held(sub), ranks_held(cs)),
        bits_within(pair_ranks(sub), pair_ranks(cs)),
        bits_within(trip_ranks(sub), trip_ranks(cs)),
        bits_within(quad_ranks(sub), quad_ranks(cs)),
        bits_within(trip_ranks(cs), pair_ranks(cs)),
        bits_within(trip_ranks(sub), pair_ranks(sub)),
{
    assert forall|s: int| 0 <= s < 4 implies bits_within(#[trigger] suit_mask(sub, s), suit_mask(cs, s)) by {
        lemma_suit_mask_bound(sub, s);
        assert forall|r: int| 0 <= r < 32 && bit(suit_mask(sub, s), r) implies bit(suit_mask(cs, s), r) by {
            if r >= 13 {
                lemma_high_bits_clear(suit_mask(sub, s), r);
            } else {
                lemma_suit_mask_bit(sub, s, r);
                lemma_suit_mask_bit(cs, s, r);
            }
        }
        lemma_within_of_bits(suit_mask(sub, s), suit_mask(cs, s));
    }
    assert(ranks_held(sub) < 8192 && pair_ranks(sub) < 8192 && trip_ranks(sub) < 8192 && quad_ranks(sub) < 8192) by {
        lemma_group_facts(sub);
    }
    assert(ranks_held(cs) < 8192 && pair_ranks(cs) < 8192 && trip_ranks(cs) < 8192 && quad_ranks(cs) < 8192) by {
        lemma_group_facts(cs);
    }
    assert forall|r: int| 0 <= r < 32 implies (bit(ranks_held(sub), r) ==> bit(ranks_held(cs), r)) && (bit(
        pair_ranks(sub),
        r,
    ) ==> bit(pair_ranks(cs), r)) && (bit(trip_ranks(sub), r) ==> bit(trip_ranks(cs), r)) && (bit(quad_ranks(sub), r)
        ==> bit(quad_ranks(cs), r)) && (bit(trip_ranks(cs), r) ==> bit(pair_ranks(cs), r)) && (bit(trip_ranks(sub), r)
        ==> bit(pair_ranks(sub), r)) by {
        if r >= 13 {
            lemma_high_bits_clear(ranks_held(sub), r);
            lemma_high_bits_clear(pair_ranks(sub), r);
            lemma_high_bits_clear(trip_ranks(sub), r);
            lemma_high_bits_clear(quad_ranks(sub), r);
            lemma_high_bits_clear(trip_ranks(cs), r);
        } else {
            lemma_rank_groups(sub, r);
            lemma_rank_groups(cs, r);
            assert(suit_count(sub, r) <= suit_count(cs, r));
        }
    }
    lemma_within_of_bits(ranks_held(sub), ranks_held(cs));
    lemma_within_of_bits(pair_ranks(sub), pair_ranks(cs));
    lemma_within_of_bits(trip_ranks(sub), trip_ranks(cs));
    lemma_within_of_bits(quad_ranks(sub), quad_ranks(cs));
    lemma_within_of_bits(trip_ranks(cs), pair_ranks(cs));
    lemma_within_of_bits(trip_ranks(sub), pair_ranks(sub));
}

/// The flush suit of a part is that of the whole, whose flush holds the part's.
proof fn lemma_flush_within(sub: Seq<u8>, cs: Seq<u8>)
    requires
        valid_cards(cs),
        valid_cards(sub),
        cs.len() <= 7,
        cards_within(sub, cs),
        flush_mask(sub) is Some,
    ensures
        flush_mask(cs) is Some,
        bits_within(flush_mask(sub)->0, flush_mask(cs)->0),
        flush_mask(cs)->0 < 8192,
{
    lemma_masks_within(sub, cs);
    let s1 = if pop(suit_mask(sub, 0)) >= 5 {
        0int
    } else if pop(suit_mask(sub, 1)) >= 5 {
        1int
    } else if pop(suit_mask(sub, 2)) >= 5 {
        2int
    } else {
        3int
    };
    assert(flush_mask(sub) == Some(suit_mask(sub, s1)));
    lemma_suit_mask_bound(cs, s1);
    lemma_pop_mono(suit_mask(sub, s1), suit_mask(cs, s1));
    assert forall|s: int| 0 <= s < 4 && s != s1 implies pop(#[trigger] suit_mask(cs, s)) < 5 by {
        lemma_one_flush_suit(cs, s1, s);
    }
    assert(flush_mask(cs) == Some(suit_mask(cs, s1)));
}

/// Among hands of one category, a part's tie-breakers are worth no more than the whole's.
#[verifier::rlimit(40)]
proof fn lemma_low_mono(sub: Seq<u8>, cs: Seq<u8>)
    requires
        valid_cards(cs),
        valid_cards(sub),
        cs.len() <= 7,
        sub.len() <= 7,
        cards_within(sub, cs),
        eval_cat(sub) == eval_cat(cs),
    ensures
        eval_low(sub) <= eval_low(cs),
{
    lemma_masks_within(sub, cs);
    let (aa, ab) = (ranks_held(sub), ranks_held(cs));
    let (pa, pb) = (pair_ranks(sub), pair_ranks(cs));
    let (ta, tb) = (trip_ranks(sub), trip_ranks(cs));
    let (qa, qb) = (quad_ranks(sub), quad_ranks(cs));
    assert(ab < 8192 && pb < 8192 && tb < 8192 && qb < 8192) by {
        lemma_group_facts(cs);
    }
    let c = eval_cat(cs);
    if c == 8 || c == 5 {
        lemma_flush_within(sub, cs);
        let fa = flush_mask(sub)->0;
        let fb = flush_mask(cs)->0;
        if c == 8 {
            lemma_straight_mono(fa, fb);
        } else {
            lemma_top_mono(fa, fb, 5);
        }
    } else if c == 7 {
        lemma_group_kick_mono(qa, qb, aa, ab, 1);
    } else if c == 6 {
        lemma_full_house_mono(ta, tb, pa, pb);
    } else if c == 4 {
        lemma_straight_mono(aa, ab);
    } else if c == 3 {
        lemma_group_kick_mono(ta, tb, aa, ab, 2);
    } else if c == 2 {
        lemma_two_pair_mono(pa, pb, aa, ab);
    } else if c == 1 {
        assert(pa != 0) by {
            if pa == 0 {
                crate::eval::lemma_pop_bits(0u32);
                crate::eval::lemma_mask_nonzero(0u32);
            }
        }
        lemma_group_kick_mono(pa, pb, aa, ab, 3);
    } else {
        lemma_top_mono(aa, ab, 5);
    }
}

/// Law: some of the cards of a hand of at most seven are worth no more than all of them,
/// tie-breakers included. In particular no five of six or seven cards are worth more than
/// all of them.
pub proof fn lemma_eval_mono(sub: Seq<u8>, cs: Seq<u8>)
    requires
        valid_cards(cs),
        cs.len() <= 7,
        sub.len() <= 7,
        cards_within(sub, cs),
    ensures
        spec_eval(sub) <= spec_eval(cs),
{
    lemma_valid_within(sub, cs);
    lemma_eval_parts(sub);
    lemma_eval_parts(cs);
    lemma_category_mono(sub, cs);
    if eval_cat(sub) == eval_cat(cs) {
        lemma_low_mono(sub, cs);
    }
}

/// The highest bit of `2^h + x` with `x < 2^h` is `h`, and removing it gives back `x`.
proof fn lemma_hi_of_top(h: u32, x: u32)
    requires
        h < 31,
        x < (1u32 << h),
    ensures
        ((1u32 << h) | x) != 0,
        hi((1u32 << h) | x) == h,
        ((1u32 << h) | x) & !(1u32 << h) == x,
{
    let y = (1u32 << h) | x;
    lemma_word_facts(x, 0, 0, h, 0);
    if y == 0 {
        lemma_zero_bit(h);
    }
    lemma_hi(y);
    let hy = hi(y);
    if hy > h {
        lemma_word_facts(y, 0, 0, hy, (h + 1) as u32);
    }
}

/// Taking the top `n` bits of the top `n` bits changes nothing.
proof fn lemma_top_idem(m: u32, n: nat)
    requires
        m < 8192,
    ensures
        spec_top_bits(spec_top_bits(m, n), n) == spec_top_bits(m, n),
    decreases n,
{
    if n > 0 && m != 0 {
        crate::eval::lemma_hi_small(m);
        let h = hi(m);
        let rest = m & !(1u32 << h);
        lemma_and_not_bound(m, 1u32 << h);
        let t = spec_top_bits(rest, (n - 1) as nat);
        lemma_top_idem(rest, (n - 1) as nat);
        // every bit of `rest` lies below `h`
        lemma_below_hi(m);
        lemma_word_facts(m, 0, 0, h, 0);
        lemma_top_within(rest, (n - 1) as nat);
        lemma_word_facts(t, rest, 0, 0, 0);
        lemma_hi_of_top(h, t);
    }
}

/// A mask holding the top `n` bits of `m` has top `n` bits worth at least those of `m`.
proof fn lemma_top_at_least(m: u32, x: u32, n: nat)
    requires
        m < 8192,
        x < 8192,
        bits_within(spec_top_bits(m, n), x),
    ensures
        spec_top_bits(x, n) >= spec_top_bits(m, n),
{
    lemma_top_idem(m, n);
    lemma_top_mono(spec_top_bits(m, n), x, n);
}

// ---------------------------------------------------------------- five cards worth all of them

/// Two masks that differ only in bit `h`, set in `y`, count one bit apart below `k > h`.
proof fn lemma_bits_count_diff(x: u32, y: u32, h: int, k: int)
    requires
        0 <= h < 32,
        0 <= k <= 32,
        bit(y, h),
        !bit(x, h),
        forall|r: int| 0 <= r < 32 && r != h ==> (bit(x, r) <==> bit(y, r)),
    ensures
        bits_count(y, k) == bits_count(x, k) + if h < k { 1int } else { 0int },
    decreases k,
{
    if k > 0 {
        lemma_bits_count_diff(x, y, h, k - 1);
    }
}

/// The top `n` bits of a mask are `n` of its bits, or all of them when it has fewer.
proof fn lemma_top_count(m: u32, n: nat)
    requires
        m < 8192,
    ensures
        bits_count(spec_top_bits(m, n), 13) == if bits_count(m, 13) < n { bits_count(m, 13) as int } else { n as int },
    decreases n,
{
    if n == 0 || m == 0 {
        lemma_word_facts(0, 0, 0, 0, 0);
        assert forall|r: int| 0 <= r < 13 implies !bit(0u32, r) by {
            lemma_zero_bit(r as u32);
        }
        crate::eval::lemma_bits_zero(0u32, 13);
        if m == 0 {
            crate::eval::lemma_bits_zero(m, 13);
        }
    } else {
        crate::eval::lemma_hi_small(m);
        let h = hi(m);
        let rest = m & !(1u32 << h);
        lemma_and_not_bound(m, 1u32 << h);
        lemma_top_count(rest, (n - 1) as nat);
        let t = spec_top_bits(rest, (n - 1) as nat);
        lemma_below_hi(m);
        lemma_word_facts(m, 0, 0, h, 0);
        lemma_top_within(rest, (n - 1) as nat);
        lemma_word_facts(t, rest, 0, 0, 0);
        lemma_word_facts(t, 0, 0, h, 0);
        assert forall|r: int| 0 <= r < 32 && r != h implies (bit(rest, r) <==> bit(m, r)) by {
            lemma_bit_ops(m, !(1u32 << h), r as u32);
            lemma_bit_ops(1u32 << h, 1u32 << h, r as u32);
            crate::eval::lemma_bit_single(h, r as u32);
        }
        lemma_bit_ops(m, !(1u32 << h), h);
        lemma_bit_ops(1u32 << h, 1u32 << h, h);
        crate::eval::lemma_bit_single(h, h);
        lemma_bits_count_diff(rest, m, h as int, 13);
        let y = (1u32 << h) | t;
        assert forall|r: int| 0 <= r < 32 && r != h implies (bit(t, r) <==> bit(y, r)) by {
            lemma_bit_ops(1u32 << h, t, r as u32);
            crate::eval::lemma_bit_single(h, r as u32);
        }
        lemma_bit_ops(1u32 << h, t, h);
        lemma_word_facts(t, 0, 0, h, h);
        lemma_bits_count_diff(t, y, h as int, 13);
    }
}

/// The bits below `k` of `m`, in increasing order.
pub open spec fn mask_ranks(m: u32, k: int) -> Seq<int>
    decreases k,
{
    if k <= 0 {
        Seq::empty()
    } else if bit(m, k - 1) {
        mask_ranks(m, k - 1).push(k - 1)
    } else {
        mask_ranks(m, k - 1)
    }
}

proof fn lemma_mask_ranks(m: u32, k: int)
    requires
        0 <= k,
    ensures
        mask_ranks(m, k).len() == bits_count(m, k),
        increasing(mask_ranks(m, k)),
        forall|i: int| 0 <= i < mask_ranks(m, k).len() ==> 0 <= #[trigger] mask_ranks(m, k)[i] < k && bit(
            m,
            mask_ranks(m, k)[i],
        ),
        forall|r: int| 0 <= r < k && bit(m, r) ==> mask_ranks(m, k).contains(r),
    decreases k,
{
    if k > 0 {
        lemma_mask_ranks(m, k - 1);
        let prev = mask_ranks(m, k - 1);
        if bit(m, k - 1) {
            assert(mask_ranks(m, k)[prev.len() as int] == k - 1);
            assert forall|r: int| 0 <= r < k && bit(m, r) implies mask_ranks(m, k).contains(r) by {
                if r < k - 1 {
                    let i = choose|i: int| 0 <= i < prev.len() && prev[i] == r;
                    assert(mask_ranks(m, k)[i] == r);
                }
            }
        }
    }
}

/// One card of each rank of `rs`, in the first suit `cs` holds it in.
pub open spec fn any_cards(cs: Seq<u8>, rs: Seq<int>) -> Seq<u8> {
    Seq::new(rs.len(), |i: int| (4 * rs[i] + held_suits(cs, rs[i], 4)[0]) as u8)
}

proof fn lemma_any_cards(cs: Seq<u8>, rs: Seq<int>)
    requires
        increasing(rs),
        forall|i: int| 0 <= i < rs.len() ==> 0 <= #[trigger] rs[i] < 13 && suit_count(cs, rs[i]) >= 1,
    ensures
        any_cards(cs, rs).no_duplicates(),
        cards_within(any_cards(cs, rs), cs),
        forall|i: int| 0 <= i < rs.len() ==> #[trigger] any_cards(cs, rs)[i] / 4 == rs[i],
        forall|x: Seq<u8>, i: int|
            cards_within(any_cards(cs, rs), x) && 0 <= i < rs.len() ==> #[trigger] suit_count(x, rs[i]) >= 1,
{
    let w = any_cards(cs, rs);
    assert forall|i: int| 0 <= i < rs.len() implies 0 <= #[trigger] held_suits(cs, rs[i], 4)[0] < 4 && crate::eval::holds(
        cs,
        rs[i],
        held_suits(cs, rs[i], 4)[0],
    ) && w[i] / 4 == rs[i] by {
        lemma_held_suits(cs, rs[i], 4);
        lemma_held_count_four(cs, rs[i]);
    }
    assert forall|i: int, j: int| 0 <= i < w.len() && 0 <= j < w.len() && i != j implies w[i] != w[j] by {
        assert(held_suits(cs, rs[i], 4)[0] < 4 && held_suits(cs, rs[j], 4)[0] < 4);
        if i < j {
            assert(rs[i] < rs[j]);
        } else {
            assert(rs[j] < rs[i]);
        }
    }
    assert forall|y: u8| #[trigger] w.contains(y) implies cs.contains(y) by {
        let i = choose|i: int| 0 <= i < w.len() && w[i] == y;
        assert(held_suits(cs, rs[i], 4)[0] < 4);
    }
    assert forall|x: Seq<u8>, i: int| cards_within(w, x) && 0 <= i < rs.len() implies #[trigger] suit_count(x, rs[i]) >= 1 by {
        let k = held_suits(cs, rs[i], 4)[0];
        assert(0 <= k < 4);
        assert(w.contains(w[i]));
        assert(x.contains((4 * rs[i] + k) as u8));
        lemma_held_suits(x, rs[i], 4);
        lemma_held_count_four(x, rs[i]);
        lemma_held_count_ge1(x, rs[i], k);
    }
}

proof fn lemma_held_count_ge1(x: Seq<u8>, r: int, k: int)
    requires
        0 <= k < 4,
        crate::eval::holds(x, r, k),
    ensures
        crate::eval_five::held_count(x, r, 4) >= 1,
{
    assert(crate::eval_five::held_count(x, r, 4) == crate::eval_five::held_count(x, r, 3) + if crate::eval::holds(x, r, 3) { 1int } else { 0int });
    assert(crate::eval_five::held_count(x, r, 3) == crate::eval_five::held_count(x, r, 2) + if crate::eval::holds(x, r, 2) { 1int } else { 0int });
    assert(crate::eval_five::held_count(x, r, 2) == crate::eval_five::held_count(x, r, 1) + if crate::eval::holds(x, r, 1) { 1int } else { 0int });
    assert(crate::eval_five::held_count(x, r, 1) == crate::eval_five::held_count(x, r, 0) + if crate::eval::holds(x, r, 0) { 1int } else { 0int });
    lemma_held_count_nonneg(x, r, 3);
}

proof fn lemma_held_count_nonneg(x: Seq<u8>, r: int, k: int)
    ensures
        crate::eval_five::held_count(x, r, k) >= 0,
    decreases k,
{
    if k > 0 {
        lemma_held_count_nonneg(x, r, k - 1);
    }
}

/// A mask of ranks each held (twice, for `two`) by `x` lies within its ranks (pairs).
proof fn lemma_mask_in_groups(m: u32, x: Seq<u8>, two: bool)
    requires
        valid_cards(x),
        m < 8192,
        forall|r: int| 0 <= r < 13 && bit(m, r) ==> #[trigger] suit_count(x, r) >= if two { 2int } else { 1int },
    ensures
        !two ==> bits_within(m, ranks_held(x)),
        two ==> bits_within(m, pair_ranks(x)),
{
    let g = if two { pair_ranks(x) } else { ranks_held(x) };
    assert forall|r: int| 0 <= r < 32 && bit(m, r) implies bit(g, r) by {
        if r >= 13 {
            lemma_high_bits_clear(m, r);
        } else {
            lemma_rank_groups(x, r);
        }
    }
    lemma_within_of_bits(m, g);
}

/// One card of each rank of the mask `k`, which `cs` holds: at most `n` of them when `k` is
/// the top `n` ranks of something.
proof fn lemma_mask_cards(cs: Seq<u8>, k: u32) -> (w: Seq<u8>)
    requires
        valid_cards(cs),
        k < 8192,
        bits_within(k, ranks_held(cs)),
    ensures
        w.len() == bits_count(k, 13),
        w.no_duplicates(),
        cards_within(w, cs),
        forall|i: int| 0 <= i < w.len() ==> bit(k, #[trigger] w[i] as int / 4),
        forall|x: Seq<u8>| cards_within(w, x) && valid_cards(x) ==> #[trigger] bits_within(k, ranks_held(x)),
{
    lemma_mask_ranks(k, 13);
    let rs = mask_ranks(k, 13);
    assert forall|i: int| 0 <= i < rs.len() implies 0 <= #[trigger] rs[i] < 13 && suit_count(cs, rs[i]) >= 1 by {
        lemma_within_bit(k, ranks_held(cs), rs[i]);
        lemma_rank_groups(cs, rs[i]);
    }
    lemma_any_cards(cs, rs);
    let w = any_cards(cs, rs);
    assert forall|i: int| 0 <= i < w.len() implies bit(k, #[trigger] w[i] as int / 4) by {
        assert(w[i] / 4 == rs[i]);
    }
    assert forall|x: Seq<u8>| cards_within(w, x) && valid_cards(x) implies #[trigger] bits_within(k, ranks_held(x)) by {
        assert forall|r: int| 0 <= r < 13 && bit(k, r) implies #[trigger] suit_count(x, r) >= 1 by {
            assert(rs.contains(r));
            let i = choose|i: int| 0 <= i < rs.len() && rs[i] == r;
            assert(suit_count(x, rs[i]) >= 1);
        }
        lemma_mask_in_groups(k, x, false);
    }
    w
}

proof fn lemma_within_self(w: Seq<u8>)
    ensures
        cards_within(w, w),
{
}

/// Five or fewer cards worth all of `cs`: high card.
proof fn best_high_card(cs: Seq<u8>) -> (w: Seq<u8>)
    requires
        valid_cards(cs),
        cs.len() <= 7,
        eval_cat(cs) == 0,
    ensures
        w.len() <= 5,
        w.no_duplicates(),
        cards_within(w, cs),
        spec_eval(w) >= spec_eval(cs),
{
    lemma_eval_parts(cs);
    let all = ranks_held(cs);
    assert(all < 8192) by {
        lemma_group_facts(cs);
    }
    let k = spec_top_bits(all, 5);
    lemma_top_within(all, 5);
    lemma_top_bits_bound(all, 5);
    lemma_top_count(all, 5);
    let w = lemma_mask_cards(cs, k);
    lemma_valid_within(w, cs);
    lemma_within_self(w);
    lemma_eval_parts(w);
    lemma_category_mono(w, cs);
    assert(ranks_held(w) < 8192) by {
        lemma_group_facts(w);
    }
    lemma_top_at_least(all, ranks_held(w), 5);
    w
}

/// A group rank at least that of `gc` and kickers holding those of `ac`: worth at least as much.
proof fn lemma_group_kick_at_least(gc: u32, gw: u32, ac: u32, aw: u32, j: nat)
    requires
        gc != 0,
        gc < 8192,
        gw < 8192,
        ac < 8192,
        aw < 8192,
        bit(gw, hi(gc) as int),
        bits_within(spec_top_bits(ac & !(1u32 << hi(gc)), j), aw),
    ensures
        gw != 0,
        hi(gw) * 65536 + spec_top_bits(aw & !(1u32 << hi(gw)), j) >= hi(gc) * 65536 + spec_top_bits(
            ac & !(1u32 << hi(gc)),
            j,
        ),
{
    crate::eval::lemma_hi_small(gc);
    let g = hi(gc);
    if gw == 0 {
        lemma_zero_bit(g);
    }
    lemma_hi(gw);
    crate::eval::lemma_hi_small(gw);
    lemma_and_not_bound(ac, 1u32 << g);
    lemma_and_not_bound(aw, 1u32 << hi(gw));
    lemma_top_bits_bound(ac & !(1u32 << g), j);
    lemma_top_bits_bound(aw & !(1u32 << hi(gw)), j);
    if hi(gw) == g {
        let kc = spec_top_bits(ac & !(1u32 << g), j);
        lemma_top_within(ac & !(1u32 << g), j);
        assert forall|r: int| 0 <= r < 32 && bit(kc, r) implies bit(aw & !(1u32 << g), r) by {
            lemma_within_bit(kc, ac & !(1u32 << g), r);
            lemma_within_bit(kc, aw, r);
            lemma_bit_ops(ac, !(1u32 << g), r as u32);
            lemma_bit_ops(aw, !(1u32 << g), r as u32);
        }
        lemma_within_of_bits(kc, aw & !(1u32 << g));
        lemma_top_at_least(ac & !(1u32 << g), aw & !(1u32 << g), j);
    }
}

pub open spec fn group_of(cs: Seq<u8>, c: u32) -> u32 {
    if c == 7 {
        quad_ranks(cs)
    } else if c == 3 {
        trip_ranks(cs)
    } else {
        pair_ranks(cs)
    }
}

/// Five or fewer cards worth all of `cs`: four of a kind (`n` 4, `j` 1), three of a kind
/// (3, 2) or one pair (2, 3).
#[verifier::spinoff_prover]
#[verifier::rlimit(80)]
proof fn best_group_kick(cs: Seq<u8>, c: u32, n: int, j: nat) -> (w: Seq<u8>)
    requires
        valid_cards(cs),
        cs.len() <= 7,
        eval_cat(cs) == c,
        (c == 7 && n == 4 && j == 1) || (c == 3 && n == 3 && j == 2) || (c == 1 && n == 2 && j == 3),
    ensures
        w.len() <= 5,
        w.no_duplicates(),
        cards_within(w, cs),
        spec_eval(w) >= spec_eval(cs),
{
    lemma_eval_parts(cs);
    let all = ranks_held(cs);
    let gc = group_of(cs, c);
    assert(all < 8192 && gc < 8192) by {
        lemma_group_facts(cs);
    }
    assert(gc != 0) by {
        if c == 1 && gc == 0 {
            crate::eval::lemma_pop_bits(0u32);
            crate::eval::lemma_mask_nonzero(0u32);
        }
    }
    crate::eval::lemma_hi_small(gc);
    let g = hi(gc);
    lemma_rank_groups(cs, g as int);
    let grp = lemma_group_cards(cs, g as int, n);
    lemma_and_not_bound(all, 1u32 << g);
    let rest = all & !(1u32 << g);
    let k = spec_top_bits(rest, j);
    lemma_top_within(rest, j);
    lemma_top_bits_bound(rest, j);
    lemma_top_count(rest, j);
    assert forall|r: int| 0 <= r < 32 && bit(k, r) implies bit(all, r) && r != g by {
        lemma_within_bit(k, rest, r);
        lemma_bit_ops(all, !(1u32 << g), r as u32);
        lemma_bit_ops(1u32 << g, 1u32 << g, r as u32);
        crate::eval::lemma_bit_single(g, r as u32);
    }
    lemma_within_of_bits(k, all);
    let kick = lemma_mask_cards(cs, k);
    assert forall|a: int, b: int| 0 <= a < grp.len() && 0 <= b < kick.len() implies grp[a] != kick[b] by {
        assert(grp[a] / 4 == g);
        assert(bit(k, kick[b] as int / 4));
    }
    lemma_concat_distinct(grp, kick);
    lemma_within_union(grp, kick, cs);
    let w = grp + kick;
    lemma_valid_within(w, cs);
    lemma_within_self(w);
    lemma_within_concat(grp, kick, w);
    lemma_eval_parts(w);
    lemma_category_mono(w, cs);
    assert(suit_count(w, g as int) >= n);
    assert(shows(w, c as int)) by {
        if c == 7 {
            assert(suit_count(w, g as int) == 4);
        }
    }
    lemma_shown_category(w, cs);
    let gw = group_of(w, c);
    let aw = ranks_held(w);
    assert(aw < 8192 && gw < 8192) by {
        lemma_group_facts(w);
    }
    lemma_rank_groups(w, g as int);
    lemma_group_kick_at_least(gc, gw, all, aw, j);
    assert(bits_count(k, 13) <= j);
    w
}

/// A mask with a run of five ending at `t` has a straight at least that high.
proof fn lemma_run_top(m: u32, t: int)
    requires
        3 <= t < 13,
        mask_run(m, t),
    ensures
        spec_straight_top(m) is Some,
        spec_straight_top(m)->0 >= t,
{
    crate::eval::lemma_straight_top_iff(m);
    lemma_best_run(m, 12);
    if t >= 4 {
        assert(has_run(m, t));
    }
}

/// Cards holding five of suit `s` have their flush in that suit.
proof fn lemma_flush_of(x: Seq<u8>, s: int)
    requires
        valid_cards(x),
        x.len() <= 7,
        0 <= s < 4,
        pop(suit_mask(x, s)) >= 5,
    ensures
        flush_mask(x) == Some(suit_mask(x, s)),
{
    assert forall|q: int| 0 <= q < 4 && q != s implies pop(#[trigger] suit_mask(x, q)) < 5 by {
        lemma_one_flush_suit(x, s, q);
    }
}

proof fn lemma_pop_ris(x: Seq<u8>, s: int)
    requires
        valid_cards(x),
        0 <= s < 4,
    ensures
        pop(suit_mask(x, s)) == ranks_in_suit(x, s, 13),
{
    lemma_suit_mask_bound(x, s);
    lemma_pop_bits(suit_mask(x, s));
    lemma_ranks_in_suit_bits(x, s, 13);
}

/// The flush suit of cards that have a flush.
proof fn flush_suit(cs: Seq<u8>) -> (s: int)
    requires
        valid_cards(cs),
        cs.len() <= 7,
        flush_mask(cs) is Some,
    ensures
        0 <= s < 4,
        flush_mask(cs) == Some(suit_mask(cs, s)),
        pop(suit_mask(cs, s)) >= 5,
        suit_mask(cs, s) < 8192,
{
    let s = if pop(suit_mask(cs, 0)) >= 5 {
        0int
    } else if pop(suit_mask(cs, 1)) >= 5 {
        1int
    } else if pop(suit_mask(cs, 2)) >= 5 {
        2int
    } else {
        3int
    };
    lemma_suit_mask_bound(cs, s);
    s
}

/// A run of five of suit `s` held in the cards' mask of that suit is a straight flush, and back.
proof fn lemma_suit_run(x: Seq<u8>, s: int, t: int)
    requires
        valid_cards(x),
        0 <= s < 4,
        3 <= t < 13,
    ensures
        mask_run(suit_mask(x, s), t) <==> suit_straight(x, s, t),
{
    lemma_suit_mask_bit(x, s, run_rank(t, 0));
    lemma_suit_mask_bit(x, s, run_rank(t, 1));
    lemma_suit_mask_bit(x, s, run_rank(t, 2));
    lemma_suit_mask_bit(x, s, run_rank(t, 3));
    lemma_suit_mask_bit(x, s, run_rank(t, 4));
}

/// A run of five in the cards' ranks is a straight, and back.
proof fn lemma_rank_run(x: Seq<u8>, t: int)
    requires
        valid_cards(x),
        3 <= t < 13,
    ensures
        mask_run(ranks_held(x), t) <==> rank_straight(x, t),
{
    lemma_rank_groups(x, run_rank(t, 0));
    lemma_rank_groups(x, run_rank(t, 1));
    lemma_rank_groups(x, run_rank(t, 2));
    lemma_rank_groups(x, run_rank(t, 3));
    lemma_rank_groups(x, run_rank(t, 4));
}

/// Five cards worth all of `cs`: straight flush.
#[verifier::spinoff_prover]
#[verifier::rlimit(80)]
proof fn best_straight_flush(cs: Seq<u8>) -> (w: Seq<u8>)
    requires
        valid_cards(cs),
        cs.len() <= 7,
        eval_cat(cs) == 8,
    ensures
        w.len() <= 5,
        w.no_duplicates(),
        cards_within(w, cs),
        spec_eval(w) >= spec_eval(cs),
{
    lemma_eval_parts(cs);
    let s = flush_suit(cs);
    let f = suit_mask(cs, s);
    assert(spec_straight_top(f) is Some);
    let t = spec_straight_top(f)->0 as int;
    crate::eval::lemma_straight_top_iff(f);
    lemma_best_run(f, 12);
    assert(3 <= t < 13);
    lemma_suit_run(cs, s, t);
    let w = witness_straight_flush(cs, s, t);
    lemma_valid_within(w, cs);
    lemma_within_self(w);
    assert(suit_straight(w, s, t));
    lemma_eval_parts(w);
    lemma_category_mono(w, cs);
    assert(category(cs) == 8);
    assert(shows(w, 8));
    lemma_shown_category(w, cs);
    let fw = suit_mask(w, s);
    lemma_suit_run(w, s, t);
    lemma_run_top(fw, t);
    let sw = flush_suit(w);
    if sw != s {
        lemma_suit_mask_bound(w, s);
        crate::eval::lemma_run_count(fw, t);
        lemma_pop_bits(fw);
        lemma_one_flush_suit(w, s, sw);
    }
    w
}

/// Five cards worth all of `cs`: flush.
#[verifier::spinoff_prover]
#[verifier::rlimit(80)]
proof fn best_flush(cs: Seq<u8>) -> (w: Seq<u8>)
    requires
        valid_cards(cs),
        cs.len() <= 7,
        eval_cat(cs) == 5,
    ensures
        w.len() <= 5,
        w.no_duplicates(),
        cards_within(w, cs),
        spec_eval(w) >= spec_eval(cs),
{
    lemma_eval_parts(cs);
    let s = flush_suit(cs);
    let f = suit_mask(cs, s);
    let k = spec_top_bits(f, 5);
    lemma_top_within(f, 5);
    lemma_top_bits_bound(f, 5);
    lemma_top_count(f, 5);
    lemma_pop_bits(f);
    lemma_mask_ranks(k, 13);
    let rs = mask_ranks(k, 13);
    assert(rs.len() == 5);
    assert forall|i: int| 0 <= i < rs.len() implies 0 <= #[trigger] rs[i] < 13 && holds(cs, rs[i], s) by {
        lemma_within_bit(k, f, rs[i]);
        lemma_suit_mask_bit(cs, s, rs[i]);
    }
    lemma_suit_cards(cs, rs, s);
    let w = suit_cards(rs, s);
    lemma_valid_within(w, cs);
    lemma_within_self(w);
    assert(ranks_in_suit(w, s, 13) >= 5);
    lemma_eval_parts(w);
    lemma_category_mono(w, cs);
    assert(category(cs) == 5);
    assert(shows(w, 5));
    lemma_shown_category(w, cs);
    lemma_pop_ris(w, s);
    lemma_flush_of(w, s);
    let fw = suit_mask(w, s);
    lemma_suit_mask_bound(w, s);
    assert forall|r: int| 0 <= r < 32 && bit(k, r) implies bit(fw, r) by {
        if r >= 13 {
            lemma_high_bits_clear(k, r);
        }
        assert(rs.contains(r));
        let i = choose|i: int| 0 <= i < rs.len() && rs[i] == r;
        assert(w[i] == (4 * r + s) as u8);
        assert(w.contains(w[i]));
        lemma_suit_mask_bit(w, s, r);
    }
    lemma_within_of_bits(k, fw);
    lemma_top_at_least(f, fw, 5);
    w
}

/// Five cards worth all of `cs`: full house.
#[verifier::spinoff_prover]
#[verifier::rlimit(80)]
proof fn best_full_house(cs: Seq<u8>) -> (w: Seq<u8>)
    requires
        valid_cards(cs),
        cs.len() <= 7,
        eval_cat(cs) == 6,
    ensures
        w.len() <= 5,
        w.no_duplicates(),
        cards_within(w, cs),
        spec_eval(w) >= spec_eval(cs),
{
    lemma_eval_parts(cs);
    let tc = trip_ranks(cs);
    let pc = pair_ranks(cs);
    assert(tc < 8192 && pc < 8192) by {
        lemma_group_facts(cs);
    }
    crate::eval::lemma_hi_small(tc);
    let t = hi(tc);
    lemma_and_not_bound(pc, 1u32 << t);
    crate::eval::lemma_hi_small(pc & !(1u32 << t));
    let p = hi(pc & !(1u32 << t));
    lemma_bit_ops(pc, !(1u32 << t), p);
    lemma_bit_ops(1u32 << t, 1u32 << t, p);
    crate::eval::lemma_bit_single(t, p);
    lemma_rank_groups(cs, t as int);
    lemma_rank_groups(cs, p as int);
    let w = witness_two_groups(cs, t as int, 3, p as int, 2);
    lemma_valid_within(w, cs);
    lemma_within_self(w);
    lemma_eval_parts(w);
    lemma_category_mono(w, cs);
    assert(category(cs) == 6);
    assert(suit_count(w, t as int) >= 3 && suit_count(w, p as int) >= 2);
    assert(shows(w, 6));
    lemma_shown_category(w, cs);
    let tw = trip_ranks(w);
    let pw = pair_ranks(w);
    assert(tw < 8192 && pw < 8192) by {
        lemma_group_facts(w);
    }
    lemma_rank_groups(w, t as int);
    lemma_rank_groups(w, p as int);
    lemma_hi(tw);
    crate::eval::lemma_hi_small(tw);
    if hi(tw) == t {
        lemma_bit_ops(pw, !(1u32 << t), p);
        let y = pw & !(1u32 << t);
        if y == 0 {
            lemma_zero_bit(p);
        }
        lemma_hi(y);
    } else {
        lemma_and_not_bound(pw, 1u32 << hi(tw));
        crate::eval::lemma_hi_small(pw & !(1u32 << hi(tw)));
    }
    w
}

/// Five cards worth all of `cs`: straight.
#[verifier::spinoff_prover]
#[verifier::rlimit(80)]
proof fn best_straight(cs: Seq<u8>) -> (w: Seq<u8>)
    requires
        valid_cards(cs),
        cs.len() <= 7,
        eval_cat(cs) == 4,
    ensures
        w.len() <= 5,
        w.no_duplicates(),
        cards_within(w, cs),
        spec_eval(w) >= spec_eval(cs),
{
    lemma_eval_parts(cs);
    let all = ranks_held(cs);
    assert(spec_straight_top(all) is Some);
    let t = spec_straight_top(all)->0 as int;
    crate::eval::lemma_straight_top_iff(all);
    lemma_best_run(all, 12);
    assert(3 <= t < 13);
    lemma_rank_run(cs, t);
    let w = witness_straight(cs, t);
    lemma_valid_within(w, cs);
    lemma_within_self(w);
    assert(rank_straight(w, t));
    lemma_eval_parts(w);
    lemma_category_mono(w, cs);
    assert(category(cs) == 4);
    assert(shows(w, 4));
    lemma_shown_category(w, cs);
    let aw = ranks_held(w);
    lemma_rank_run(w, t);
    lemma_run_top(aw, t);
    w
}

/// Five cards worth all of `cs`: two pairs.
#[verifier::spinoff_prover]
#[verifier::rlimit(80)]
proof fn best_two_pair(cs: Seq<u8>) -> (w: Seq<u8>)
    requires
        valid_cards(cs),
        cs.len() <= 7,
        eval_cat(cs) == 2,
    ensures
        w.len() <= 5,
        w.no_duplicates(),
        cards_within(w, cs),
        spec_eval(w) >= spec_eval(cs),
{
    lemma_eval_parts(cs);
    let all = ranks_held(cs);
    let pc = pair_ranks(cs);
    assert(all < 8192 && pc < 8192) by {
        lemma_group_facts(cs);
    }
    let tp = spec_top_bits(pc, 2);
    lemma_top_within(pc, 2);
    lemma_top_bits_bound(pc, 2);
    lemma_top_count(pc, 2);
    lemma_pop_bits(pc);
    lemma_mask_ranks(tp, 13);
    let rs = mask_ranks(tp, 13);
    assert(rs.len() == 2);
    let a = rs[0];
    let b = rs[1];
    assert(a < b && bit(tp, a) && bit(tp, b) && 0 <= a < 13 && 0 <= b < 13);
    lemma_within_bit(tp, pc, a);
    lemma_within_bit(tp, pc, b);
    lemma_rank_groups(cs, a);
    lemma_rank_groups(cs, b);
    let ga = lemma_group_cards(cs, a, 2);
    let gb = lemma_group_cards(cs, b, 2);
    lemma_and_not_bound(all, tp);
    let rest = all & !tp;
    let k = spec_top_bits(rest, 1);
    lemma_top_within(rest, 1);
    lemma_top_bits_bound(rest, 1);
    lemma_top_count(rest, 1);
    assert forall|r: int| 0 <= r < 32 && bit(k, r) implies bit(all, r) && !bit(tp, r) by {
        lemma_within_bit(k, rest, r);
        lemma_bit_ops(all, !tp, r as u32);
        lemma_bit_ops(tp, tp, r as u32);
    }
    lemma_within_of_bits(k, all);
    let kick = lemma_mask_cards(cs, k);
    assert forall|i: int, j: int| 0 <= i < ga.len() && 0 <= j < gb.len() implies ga[i] != gb[j] by {
        assert(ga[i] / 4 == a && gb[j] / 4 == b);
    }
    lemma_concat_distinct(ga, gb);
    let g = ga + gb;
    assert forall|i: int, j: int| 0 <= i < g.len() && 0 <= j < kick.len() implies g[i] != kick[j] by {
        assert(bit(k, kick[j] as int / 4));
        if i < 2 {
            assert(g[i] == ga[i] && ga[i] / 4 == a);
        } else {
            assert(g[i] == gb[i - 2] && gb[i - 2] / 4 == b);
        }
    }
    lemma_concat_distinct(g, kick);
    lemma_within_union(ga, gb, cs);
    lemma_within_union(g, kick, cs);
    let w = g + kick;
    lemma_valid_within(w, cs);
    lemma_within_self(w);
    lemma_within_concat(g, kick, w);
    lemma_within_concat(ga, gb, w);
    lemma_eval_parts(w);
    lemma_category_mono(w, cs);
    assert(category(cs) == 2);
    assert(suit_count(w, a) >= 2 && suit_count(w, b) >= 2);
    assert(shows(w, 2));
    lemma_shown_category(w, cs);
    let pw = pair_ranks(w);
    let aw = ranks_held(w);
    assert(aw < 8192 && pw < 8192) by {
        lemma_group_facts(w);
    }
    lemma_rank_groups(w, a);
    lemma_rank_groups(w, b);
    assert forall|r: int| 0 <= r < 32 && bit(tp, r) implies bit(pw, r) by {
        if r >= 13 {
            lemma_high_bits_clear(tp, r);
        }
        assert(rs.contains(r));
    }
    lemma_within_of_bits(tp, pw);
    lemma_top_at_least(pc, pw, 2);
    let tw = spec_top_bits(pw, 2);
    lemma_top_bits_bound(pw, 2);
    lemma_and_not_bound(aw, tw);
    lemma_top_bits_bound(aw & !tw, 1);
    lemma_top_bits_bound(rest, 1);
    if tw == tp {
        assert forall|r: int| 0 <= r < 32 && bit(k, r) implies bit(aw & !tp, r) by {
            lemma_within_bit(k, aw, r);
            lemma_bit_ops(aw, !tp, r as u32);
            lemma_bit_ops(tp, tp, r as u32);
        }
        lemma_within_of_bits(k, aw & !tp);
        lemma_top_at_least(rest, aw & !tp, 1);
    }
    w
}

/// At most five different cards of `cs` worth as much as all of them.
proof fn best_cards(cs: Seq<u8>) -> (w: Seq<u8>)
    requires
        valid_cards(cs),
        cs.len() <= 7,
    ensures
        w.len() <= 5,
        w.no_duplicates(),
        cards_within(w, cs),
        spec_eval(w) >= spec_eval(cs),
{
    lemma_eval_parts(cs);
    let c = eval_cat(cs);
    if c == 8 {
        best_straight_flush(cs)
    } else if c == 5 {
        best_flush(cs)
    } else if c == 7 {
        best_group_kick(cs, 7, 4, 1)
    } else if c == 6 {
        best_full_house(cs)
    } else if c == 4 {
        best_straight(cs)
    } else if c == 3 {
        best_group_kick(cs, 3, 3, 2)
    } else if c == 2 {
        best_two_pair(cs)
    } else if c == 1 {
        best_group_kick(cs, 1, 2, 3)
    } else {
        best_high_card(cs)
    }
}

/// Law: the strength `eval` gives five to seven different cards is that of their best five
/// cards, tie-breakers included: no five of them are worth more than all of them, and some
/// five are worth exactly as much.
pub proof fn lemma_eval_best_five(cs: Seq<u8>)
    requires
        valid_cards(cs),
        cs.no_duplicates(),
        5 <= cs.len() <= 7,
    ensures
        forall|sub: Seq<u8>| #[trigger] five_of(sub, cs) ==> spec_eval(sub) <= spec_eval(cs),
        exists|sub: Seq<u8>| #[trigger] five_of(sub, cs) && spec_eval(sub) == spec_eval(cs),
{
    assert forall|sub: Seq<u8>| #[trigger] five_of(sub, cs) implies spec_eval(sub) <= spec_eval(cs) by {
        lemma_eval_mono(sub, cs);
    }
    let w = best_cards(cs);
    let sub = extend_to_five(w, cs);
    lemma_valid_within(sub, cs);
    lemma_eval_mono(w, sub);
    lemma_eval_mono(sub, cs);
    assert(five_of(sub, cs) && spec_eval(sub) == spec_eval(cs));
}

} // verus!
