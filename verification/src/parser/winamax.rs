//! Winamax text format (Expresso): recognition, cards, table identifier.
use vstd::prelude::*;
use crate::model::Card;
use crate::text::{chars_of, contains, contains_exec, find, find_from, find_exec, is_ws, is_ws_exec, starts_with, starts_with_exec, string_of, sub_vec, upper, upper_exec, lemma_find_from_range};
use crate::parser::ipoker::{word_end, lemma_word_end};

verus! {

/// A Winamax history starts with "Winamax Poker" or has a line starting "Winamax Poker - ".
pub open spec fn spec_looks_like(c: Seq<char>) -> bool {
    starts_with(c, "Winamax Poker"@) || contains(c, "\nWinamax Poker - "@)
}

/// Recognises the Winamax text format.
pub fn looks_like(c: &str) -> (r: bool)
    ensures
        r == spec_looks_like(c@),
{
    let v = chars_of(c);
    starts_with_exec(&v, &chars_of("Winamax Poker")) || contains_exec(&v, &chars_of("\nWinamax Poker - "))
}

/// ASCII lower case of a character.
pub open spec fn lower(c: char) -> char {
    if 'A' <= c && c <= 'Z' {
        ((c as u32) + 32) as char
    } else {
        c
    }
}

/// Index of a rank character in "23456789TJQKA".
pub open spec fn rank_index(c: char) -> Option<int> {
    if '2' <= c && c <= '9' {
        Some((c as int) - ('2' as int))
    } else if c == 'T' {
        Some(8)
    } else if c == 'J' {
        Some(9)
    } else if c == 'Q' {
        Some(10)
    } else if c == 'K' {
        Some(11)
    } else if c == 'A' {
        Some(12)
    } else {
        None
    }
}

/// Card of a two-character token, rank then suit ("Ah", "td"), any case.
pub open spec fn spec_card(s: Seq<char>) -> Option<u8> {
    if s.len() != 2 {
        None
    } else {
        let su = lower(s[1]);
        let suit = if su == 'c' { Some(0int) } else if su == 'd' { Some(1int) } else if su == 'h' { Some(2int) } else if su == 's' { Some(3int) } else { None::<int> };
        match (rank_index(upper(s[0])), suit) {
            (Some(r), Some(x)) => Some((r * 4 + x) as u8),
            _ => None,
        }
    }
}

fn card_at(v: &Vec<char>, lo: usize, hi: usize) -> (r: Option<Card>)
    requires
        lo <= hi <= v@.len(),
    ensures
        r == spec_card(v@.subrange(lo as int, hi as int)),
        r matches Some(c) ==> c < 52,
{
    if hi - lo != 2 {
        return None;
    }
    let d = upper_exec(v[lo]);
    let r: u8 = if '2' <= d && d <= '9' {
        ((d as u32) - ('2' as u32)) as u8
    } else if d == 'T' {
        8
    } else if d == 'J' {
        9
    } else if d == 'Q' {
        10
    } else if d == 'K' {
        11
    } else if d == 'A' {
        12
    } else {
        return None;
    };
    let c = v[lo + 1];
    let su = if 'A' <= c && c <= 'Z' { (((c as u32) + 32) as u8) as char } else { c };
    let x: u8 = if su == 'c' {
        0
    } else if su == 'd' {
        1
    } else if su == 'h' {
        2
    } else if su == 's' {
        3
    } else {
        return None;
    };
    Some(r * 4 + x)
}

/// Card of a two-character token (see `spec_card`).
pub fn card(s: &str) -> (r: Option<Card>)
    ensures
        r == spec_card(s@),
        r matches Some(c) ==> c < 52,
{
    let v = chars_of(s);
    assert(v@.subrange(0, v@.len() as int) == v@);
    card_at(&v, 0, v.len())
}

/// Cards of the whitespace-separated words of `s` from position `i`.
pub open spec fn words_cards(s: Seq<char>, i: int) -> Seq<u8>
    decreases s.len() - i,
{
    if i < 0 || i >= s.len() {
        Seq::empty()
    } else if is_ws(s[i]) {
        words_cards(s, i + 1)
    } else {
        let e = word_end(s, i);
        proof {
            lemma_word_end(s, i);
        }
        (match spec_card(s.subrange(i, e)) {
            Some(c) => seq![c],
            None => Seq::<u8>::empty(),
        }) + words_cards(s, e)
    }
}

/// All the cards written between square brackets, the words inside the brackets separated
/// by whitespace.
pub open spec fn bracket_cards(s: Seq<char>) -> Seq<u8>
    decreases s.len(),
{
    match find(s, "["@) {
        None => Seq::empty(),
        Some(a) => match find_from(s, "]"@, a) {
            None => Seq::empty(),
            Some(b) => {
                proof {
                    reveal_strlit("]");
                    reveal_strlit("[");
                    lemma_find_from_range(s, "]"@, a);
                    lemma_find_from_range(s, "["@, 0);
                }
                words_cards(s.subrange(a + 1, b), 0) + bracket_cards(s.subrange(b + 1, s.len() as int))
            },
        },
    }
}

fn words_cards_exec(v: &Vec<char>) -> (r: Vec<Card>)
    ensures
        r@ == words_cards(v@, 0),
        forall|k: int| 0 <= k < r@.len() ==> r@[k] < 52,
{
    let n = v.len();
    let mut out: Vec<Card> = Vec::new();
    let mut i: usize = 0;
    while i < n
        invariant
            n == v@.len(),
            i <= n,
            words_cards(v@, 0) == out@ + words_cards(v@, i as int),
            forall|k: int| 0 <= k < out@.len() ==> out@[k] < 52,
        decreases n - i,
    {
        if is_ws_exec(v[i]) {
            i = i + 1;
        } else {
            let mut e = i;
            while e < n && !is_ws_exec(v[e])
                invariant
                    i <= e <= n,
                    n == v@.len(),
                    word_end(v@, i as int) == word_end(v@, e as int),
                decreases n - e,
            {
                e = e + 1;
            }
            proof {
                lemma_word_end(v@, i as int);
            }
            let c = card_at(v, i, e);
            let ghost head = match c {
                Some(x) => seq![x],
                None => Seq::<u8>::empty(),
            };
            assert(words_cards(v@, i as int) == head + words_cards(v@, e as int));
            if let Some(x) = c {
                out.push(x);
            }
            assert(words_cards(v@, 0) == out@ + words_cards(v@, e as int));
            i = e;
        }
    }
    assert(words_cards(v@, i as int) == Seq::<u8>::empty());
    assert(out@ + Seq::<u8>::empty() == out@);
    out
}

/// All the cards written between square brackets in a line, in order.
pub fn cards_in_brackets(s: &str) -> (r: Vec<Card>)
    ensures
        r@ == bracket_cards(s@),
        forall|k: int| 0 <= k < r@.len() ==> r@[k] < 52,
{
    let lb = chars_of("[");
    let rb = chars_of("]");
    let mut rest = chars_of(s);
    let mut out: Vec<Card> = Vec::new();
    loop
        invariant
            lb@ == "["@,
            rb@ == "]"@,
            bracket_cards(s@) == out@ + bracket_cards(rest@),
            forall|k: int| 0 <= k < out@.len() ==> out@[k] < 52,
        decreases rest@.len(),
    {
        let a = match find_exec(&rest, &lb, 0) {
            Some(a) => a,
            None => {
                assert(out@ + Seq::<u8>::empty() == out@);
                return out;
            },
        };
        let b = match find_exec(&rest, &rb, a) {
            Some(b) => b,
            None => {
                assert(out@ + Seq::<u8>::empty() == out@);
                return out;
            },
        };
        let n = rest.len();
        proof {
            reveal_strlit("[");
            reveal_strlit("]");
            lemma_find_from_range(rest@, "]"@, a as int);
            lemma_find_from_range(rest@, "["@, 0);
            assert(rest@[a as int] == rest@.subrange(a as int, a + 1)[0]);
            assert(rest@[b as int] == rest@.subrange(b as int, b + 1)[0]);
            assert("["@[0] == '[');
            assert("]"@[0] == ']');
        }
        assert(a < b && b < n);
        let seg = sub_vec(&rest, a + 1, b);
        let cs = words_cards_exec(&seg);
        let ghost before = out@;
        let mut k: usize = 0;
        while k < cs.len()
            invariant
                k <= cs@.len(),
                out@ == before + cs@.subrange(0, k as int),
                forall|j: int| 0 <= j < cs@.len() ==> cs@[j] < 52,
                forall|j: int| 0 <= j < out@.len() ==> out@[j] < 52,
            decreases cs@.len() - k,
        {
            out.push(cs[k]);
            assert(cs@.subrange(0, k + 1) == cs@.subrange(0, k as int).push(cs@[k as int]));
            k = k + 1;
        }
        assert(cs@.subrange(0, cs@.len() as int) == cs@);
        let next = sub_vec(&rest, b + 1, n);
        assert(bracket_cards(rest@) == cs@ + bracket_cards(next@));
        rest = next;
    }
}

/// Text between the first `a` and the next `b` after it.
pub open spec fn spec_between(s: Seq<char>, a: Seq<char>, b: Seq<char>) -> Option<Seq<char>> {
    match find(s, a) {
        None => None,
        Some(p) => match find_from(s, b, p + a.len()) {
            None => None,
            Some(j) => Some(s.subrange(p + a.len(), j)),
        },
    }
}

pub(crate) fn between_vec(v: &Vec<char>, a: &Vec<char>, b: &Vec<char>) -> (r: Option<Vec<char>>)
    ensures
        match r {
            Some(x) => spec_between(v@, a@, b@) == Some(x@),
            None => spec_between(v@, a@, b@) is None,
        },
{
    let p = match find_exec(v, a, 0) {
        Some(p) => p,
        None => return None,
    };
    proof {
        lemma_find_from_range(v@, a@, 0);
    }
    let n = v.len();
    assert(p + a@.len() <= n);
    let i = p + a.len();
    let j = match find_exec(v, b, i) {
        Some(j) => j,
        None => return None,
    };
    proof {
        lemma_find_from_range(v@, b@, i as int);
    }
    Some(sub_vec(v, i, j))
}

/// Text between the first `a` and the next `b` after it.
pub fn between(s: &str, a: &str, b: &str) -> (r: Option<String>)
    ensures
        match r {
            Some(x) => spec_between(s@, a@, b@) == Some(x@),
            None => spec_between(s@, a@, b@) is None,
        },
{
    match between_vec(&chars_of(s), &chars_of(a), &chars_of(b)) {
        Some(x) => {
            let r = string_of(&x, 0, x.len());
            assert(x@.subrange(0, x@.len() as int) == x@);
            Some(r)
        },
        None => None,
    }
}

/// Tournament number in a table line: `Table: 'Expresso(603548617)#0' 3-max ...`.
pub open spec fn spec_tid_from_table(line: Seq<char>) -> Option<Seq<char>> {
    match spec_between(line, "'"@, "'"@) {
        None => None,
        Some(t) => spec_between(t, "("@, ")"@),
    }
}

/// Tournament number in a table line (see `spec_tid_from_table`).
pub fn tid_from_table(line: &str) -> (r: Option<String>)
    ensures
        match r {
            Some(x) => spec_tid_from_table(line@) == Some(x@),
            None => spec_tid_from_table(line@) is None,
        },
{
    let q = chars_of("'");
    let t = match between_vec(&chars_of(line), &q, &q) {
        Some(t) => t,
        None => return None,
    };
    match between_vec(&t, &chars_of("("), &chars_of(")")) {
        Some(x) => {
            assert(x@.subrange(0, x@.len() as int) == x@);
            Some(string_of(&x, 0, x.len()))
        },
        None => None,
    }
}

} // verus!
