//! Tools shared by the text parsers: cards written in hand histories.
use vstd::prelude::*;
use crate::model::Card;
use crate::text::{trim_start_by, trim_end_by, lemma_find_from_range, chars_of, sub_vec, find, find_exec, find_from, in_class, is_ws, is_ws_exec, trim, trim_by, trim_range, trim_range_by, upper, upper_exec};

verus! {

/// Rank of a rank token ("2".."9", "T" or "10", "J", "Q", "K", "A", any case).
pub open spec fn rank_value(r: Seq<char>) -> Option<int> {
    if r.len() == 1 {
        let c = upper(r[0]);
        if '2' <= c && c <= '9' {
            Some((c as int) - ('2' as int))
        } else if c == 'T' {
            Some(8)
        } else if c == 'J' {
            Some(9)
        } else if c == 'Q' {
            Some(10)
        } else if c == 'K' {
            Some(11)
        } else if c == 'A' {
            Some(12)
        } else {
            None
        }
    } else if r.len() == 2 && r[0] == '1' && r[1] == '0' {
        Some(8)
    } else {
        None
    }
}

/// Suit of a suit character (letter in any case, or the card symbol).
pub open spec fn suit_value(c: char) -> Option<int> {
    if c == 'c' || c == 'C' || c == '\u{2663}' {
        Some(0)
    } else if c == 'd' || c == 'D' || c == '\u{2666}' {
        Some(1)
    } else if c == 'h' || c == 'H' || c == '\u{2665}' {
        Some(2)
    } else if c == 's' || c == 'S' || c == '\u{2660}' {
        Some(3)
    } else {
        None
    }
}

/// Card of a token already stripped: rank token followed by one suit character.
pub open spec fn card_core(t: Seq<char>) -> Option<u8> {
    if t.len() < 2 {
        None
    } else {
        match (rank_value(t.drop_last()), suit_value(t.last())) {
            (Some(r), Some(s)) => Some((r * 4 + s) as u8),
            _ => None,
        }
    }
}

/// Card of a token such as "Ah", "AH", "10h", "Th", "A\u{2665}", "[Ah," (whitespace, then
/// commas and brackets, are stripped from both ends).
pub open spec fn spec_card(tok: Seq<char>) -> Option<u8> {
    card_core(trim_by(trim(tok), 1))
}

fn rank_value_exec(v: &Vec<char>, lo: usize, hi: usize) -> (r: Option<u8>)
    requires
        lo <= hi <= v@.len(),
    ensures
        match r {
            Some(x) => rank_value(v@.subrange(lo as int, hi as int)) == Some(x as int) && x < 13,
            None => rank_value(v@.subrange(lo as int, hi as int)) is None,
        },
{
    if hi - lo == 1 {
        let c = upper_exec(v[lo]);
        if '2' <= c && c <= '9' {
            Some(((c as u32) - ('2' as u32)) as u8)
        } else if c == 'T' {
            Some(8)
        } else if c == 'J' {
            Some(9)
        } else if c == 'Q' {
            Some(10)
        } else if c == 'K' {
            Some(11)
        } else if c == 'A' {
            Some(12)
        } else {
            None
        }
    } else if hi - lo == 2 && v[lo] == '1' && v[lo + 1] == '0' {
        Some(8)
    } else {
        None
    }
}

fn suit_value_exec(c: char) -> (r: Option<u8>)
    ensures
        match r {
            Some(x) => suit_value(c) == Some(x as int) && x < 4,
            None => suit_value(c) is None,
        },
{
    if c == 'c' || c == 'C' || c == '\u{2663}' {
        Some(0)
    } else if c == 'd' || c == 'D' || c == '\u{2666}' {
        Some(1)
    } else if c == 'h' || c == 'H' || c == '\u{2665}' {
        Some(2)
    } else if c == 's' || c == 'S' || c == '\u{2660}' {
        Some(3)
    } else {
        None
    }
}

/// Card of the token `v[lo..hi]` (see `spec_card`).
pub fn card_in(v: &Vec<char>, lo: usize, hi: usize) -> (r: Option<Card>)
    requires
        lo <= hi <= v@.len(),
    ensures
        r == spec_card(v@.subrange(lo as int, hi as int)),
        r matches Some(c) ==> c < 52,
{
    let (a, b) = trim_range(v, lo, hi);
    let (a2, b2) = trim_range_by(v, a, b, 1);
    if b2 - a2 < 2 {
        return None;
    }
    let ghost t = v@.subrange(a2 as int, b2 as int);
    assert(t.drop_last() == v@.subrange(a2 as int, b2 - 1));
    assert(t.last() == v@[b2 - 1]);
    match (rank_value_exec(v, a2, b2 - 1), suit_value_exec(v[b2 - 1])) {
        (Some(r), Some(s)) => Some(r * 4 + s),
        _ => None,
    }
}

/// Card of a token: "Ah", "AH", "10h", "Th", "A\u{2665}" (see `spec_card`).
pub fn card(tok: &str) -> (r: Option<Card>)
    ensures
        r == spec_card(tok@),
        r matches Some(c) ==> c < 52,
{
    let v = chars_of(tok);
    assert(v@.subrange(0, v@.len() as int) == v@);
    card_in(&v, 0, v.len())
}

/// Separator of card tokens inside brackets: whitespace or comma.
pub open spec fn is_sep(c: char) -> bool {
    is_ws(c) || c == ','
}

/// End of the piece starting at `i` (first separator at or after `i`).
pub open spec fn piece_end(s: Seq<char>, i: int) -> int
    decreases s.len() - i,
{
    if 0 <= i < s.len() && !is_sep(s[i]) {
        piece_end(s, i + 1)
    } else {
        i
    }
}

pub proof fn lemma_piece_end(s: Seq<char>, i: int)
    requires
        0 <= i <= s.len(),
    ensures
        i <= piece_end(s, i) <= s.len(),
        forall|j: int| i <= j < piece_end(s, i) ==> !is_sep(s[j]),
        piece_end(s, i) < s.len() ==> is_sep(s[piece_end(s, i)]),
    decreases s.len() - i,
{
    if i < s.len() && !is_sep(s[i]) {
        lemma_piece_end(s, i + 1);
    }
}

/// Cards of the pieces of `s` from position `i`, the pieces being separated by whitespace
/// or commas (`split` then `filter_map(card)`).
pub open spec fn seg_cards(s: Seq<char>, i: int) -> Seq<u8>
    decreases s.len() - i, 1int,
{
    if i < 0 || i > s.len() {
        Seq::empty()
    } else {
        let e = piece_end(s, i);
        proof {
            lemma_piece_end(s, i);
        }
        let head = match spec_card(s.subrange(i, e)) {
            Some(c) => seq![c],
            None => Seq::<u8>::empty(),
        };
        if e < s.len() {
            head + seg_cards(s, e + 1)
        } else {
            head
        }
    }
}

/// All the cards written between square brackets in a line, in order.
pub open spec fn bracket_cards(s: Seq<char>) -> Seq<u8>
    decreases s.len(),
{
    match find(s, "["@) {
        None => Seq::empty(),
        Some(a) => match find_from(s, "]"@, a) {
            None => Seq::empty(),
            Some(b) => {
                proof {
                    reveal_strlit("]");
                    reveal_strlit("[");
                    lemma_find_from_range(s, "]"@, a);
                    lemma_find_from_range(s, "["@, 0);
                }
                seg_cards(s.subrange(a + 1, b), 0) + bracket_cards(s.subrange(b + 1, s.len() as int))
            },
        },
    }
}

fn is_sep_exec(c: char) -> (r: bool)
    ensures
        r == is_sep(c),
{
    is_ws_exec(c) || c == ','
}

/// Cards of the pieces of `t` (see `seg_cards`).
fn seg_cards_exec(t: &Vec<char>) -> (r: Vec<Card>)
    ensures
        r@ == seg_cards(t@, 0),
        forall|k: int| 0 <= k < r@.len() ==> r@[k] < 52,
{
    let n = t.len();
    let mut out: Vec<Card> = Vec::new();
    let mut i: usize = 0;
    loop
        invariant
            n == t@.len(),
            i <= n,
            seg_cards(t@, 0) == out@ + seg_cards(t@, i as int),
            forall|k: int| 0 <= k < out@.len() ==> out@[k] < 52,
        decreases n - i,
    {
        let mut e = i;
        while e < n && !is_sep_exec(t[e])
            invariant
                i <= e <= n,
                n == t@.len(),
                piece_end(t@, i as int) == piece_end(t@, e as int),
            decreases n - e,
        {
            e = e + 1;
        }
        proof {
            lemma_piece_end(t@, i as int);
        }
        let c = card_in(t, i, e);
        let ghost head = match c {
            Some(x) => seq![x],
            None => Seq::<u8>::empty(),
        };
        if let Some(x) = c {
            out.push(x);
        }
        if e >= n {
            assert(seg_cards(t@, i as int) == head);
            assert(seg_cards(t@, 0) == out@);
            return out;
        }
        assert(seg_cards(t@, i as int) == head + seg_cards(t@, e + 1));
        assert(seg_cards(t@, 0) == out@ + seg_cards(t@, e + 1));
        i = e + 1;
    }
}

/// All the cards written between square brackets in a line, in order.
pub fn cards_in_brackets(s: &str) -> (r: Vec<Card>)
    ensures
        r@ == bracket_cards(s@),
        forall|k: int| 0 <= k < r@.len() ==> r@[k] < 52,
{
    let lb = chars_of("[");
    let rb = chars_of("]");
    proof {
        reveal_strlit("[");
        reveal_strlit("]");
    }
    let mut rest = chars_of(s);
    let mut out: Vec<Card> = Vec::new();
    loop
        invariant
            lb@ == "["@,
            rb@ == "]"@,
            "["@.len() == 1,
            "]"@.len() == 1,
            bracket_cards(s@) == out@ + bracket_cards(rest@),
            forall|k: int| 0 <= k < out@.len() ==> out@[k] < 52,
        decreases rest@.len(),
    {
        let a = match find_exec(&rest, &lb, 0) {
            Some(a) => a,
            None => {
                assert(bracket_cards(rest@) == Seq::<u8>::empty());
                assert(out@ + Seq::<u8>::empty() == out@);
                return out;
            },
        };
        let b = match find_exec(&rest, &rb, a) {
            Some(b) => b,
            None => {
                assert(bracket_cards(rest@) == Seq::<u8>::empty());
                assert(out@ + Seq::<u8>::empty() == out@);
                return out;
            },
        };
        proof {
            lemma_find_from_range(rest@, "]"@, a as int);
            lemma_find_from_range(rest@, "["@, 0);
        }
        let n = rest.len();
        proof {
            assert(rest@[a as int] == rest@.subrange(a as int, a + 1)[0]);
            assert(rest@[b as int] == rest@.subrange(b as int, b + 1)[0]);
            reveal_strlit("[");
            reveal_strlit("]");
            assert("["@[0] == '[');
            assert("]"@[0] == ']');
        }
        assert(a < b && b < n);
        let seg = sub_vec(&rest, a + 1, b);
        let cs = seg_cards_exec(&seg);
        let ghost before = out@;
        let mut k: usize = 0;
        while k < cs.len()
            invariant
                k <= cs@.len(),
                out@ == before + cs@.subrange(0, k as int),
                forall|j: int| 0 <= j < cs@.len() ==> cs@[j] < 52,
                forall|j: int| 0 <= j < out@.len() ==> out@[j] < 52,
            decreases cs@.len() - k,
        {
            out.push(cs[k]);
            assert(cs@.subrange(0, k + 1) == cs@.subrange(0, k as int).push(cs@[k as int]));
            k = k + 1;
        }
        assert(cs@.subrange(0, cs@.len() as int) == cs@);
        let next = sub_vec(&rest, b + 1, n);
        assert(bracket_cards(rest@) == cs@ + bracket_cards(next@));
        rest = next;
    }
}

/// ASCII lower case of a character.
pub open spec fn lower_ascii(c: char) -> char {
    if 'A' <= c && c <= 'Z' {
        ((c as u32) + 32) as char
    } else {
        c
    }
}

proof fn lemma_rank_char(r: int)
    requires
        0 <= r < 13,
    ensures
        rank_value(seq![crate::model::rank_char(r)]) == Some(r),
        rank_value(seq![lower_ascii(crate::model::rank_char(r))]) == Some(r),
        !is_ws(crate::model::rank_char(r)),
        !in_class(crate::model::rank_char(r), 1),
        !is_ws(lower_ascii(crate::model::rank_char(r))),
{
    let ch = crate::model::rank_char(r);
    assert(seq![ch][0] == ch);
    assert(seq![lower_ascii(ch)][0] == lower_ascii(ch));
    if r == 8 {
        assert(lower_ascii(ch) == 't');
        assert(upper('t') == 'T');
    } else if r == 9 {
        assert(lower_ascii(ch) == 'j');
        assert(upper('j') == 'J');
    } else if r == 10 {
        assert(lower_ascii(ch) == 'q');
        assert(upper('q') == 'Q');
    } else if r == 11 {
        assert(lower_ascii(ch) == 'k');
        assert(upper('k') == 'K');
    } else if r == 12 {
        assert(lower_ascii(ch) == 'a');
        assert(upper('a') == 'A');
    }
}

proof fn lemma_core(a: char, b: char, r: int, su: int)
    requires
        0 <= r < 13,
        0 <= su < 4,
        rank_value(seq![a]) == Some(r),
        suit_value(b) == Some(su),
        !is_ws(a),
        !in_class(a, 1),
        !is_ws(b),
        !in_class(b, 1),
    ensures
        spec_card(seq![a, b]) == Some((r * 4 + su) as u8),
        spec_card(seq!['['] + seq![a, b] + seq![']', ',']) == Some((r * 4 + su) as u8),
{
    let t = seq![a, b];
    assert(t[0] == a && t[1] == b);
    assert(t.last() == b);
    assert(trim_start_by(t, 0) == t);
    assert(trim_end_by(t, 0) == t);
    assert(trim(t) == t);
    assert(trim_start_by(t, 1) == t);
    assert(trim_end_by(t, 1) == t);
    assert(t.drop_last() =~= seq![a]);
    let w = seq!['['] + t + seq![']', ','];
    assert(w.len() == 5);
    assert(w[0] == '[' && w[1] == a && w[2] == b && w[3] == ']' && w[4] == ',');
    assert(!is_ws('[') && !is_ws(','));
    assert(trim_start_by(w, 0) == w);
    assert(trim_end_by(w, 0) == w);
    assert(trim(w) == w);
    assert(w.drop_first() =~= seq![a, b, ']', ',']);
    let w1 = w.drop_first();
    assert(w1[0] == a);
    assert(trim_start_by(w1, 1) == w1);
    assert(trim_start_by(w, 1) == w1);
    assert(w1.drop_last() =~= seq![a, b, ']']);
    assert(w1.drop_last().drop_last() =~= t);
    assert(w1.last() == ',');
    assert(w1.drop_last().last() == ']');
    assert(trim_end_by(t, 1) == t);
    assert(trim_end_by(w1.drop_last(), 1) == t);
    assert(trim_end_by(w1, 1) == t);
}

/// Law: the name of a card reads back as that card, in upper or lower case, and with a
/// bracket before it and a bracket and a comma after it.
pub proof fn lemma_card_round_trip(c: int)
    requires
        0 <= c < 52,
    ensures
        spec_card(crate::model::spec_card_str(c)) == Some(c as u8),
        spec_card(seq![lower_ascii(crate::model::spec_card_str(c)[0]), crate::model::spec_card_str(c)[1]])
            == Some(c as u8),
        spec_card(seq!['['] + crate::model::spec_card_str(c) + seq![']', ',']) == Some(c as u8),
{
    let r = c / 4;
    let su = c % 4;
    let rc = crate::model::rank_char(r);
    let sc = crate::model::suit_char(su);
    lemma_rank_char(r);
    assert(crate::model::spec_card_str(c) == seq![rc, sc]);
    assert(seq![rc, sc][0] == rc && seq![rc, sc][1] == sc);
    assert(suit_value(sc) == Some(su));
    assert(r * 4 + su == c);
    lemma_core(rc, sc, r, su);
    lemma_core(lower_ascii(rc), sc, r, su);
}

} // verus!
