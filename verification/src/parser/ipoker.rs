//! iPoker XML format (PMU, Betclic and Unibet on the iPoker network): recognition and cards.
use vstd::prelude::*;
use crate::model::Card;
use crate::text::{chars_of, contains, contains_exec, is_ws, is_ws_exec, trim, trim_range, upper, upper_exec};
use crate::parser::common::rank_value;

verus! {

/// An iPoker history has a `<session` element with `<game ` elements, or a
/// `<session sessioncode` element.
pub open spec fn spec_looks_like(c: Seq<char>) -> bool {
    (contains(c, "<session"@) && contains(c, "<game "@)) || contains(c, "<session sessioncode"@)
}

/// Recognises the iPoker XML format.
pub fn looks_like(content: &str) -> (r: bool)
    ensures
        r == spec_looks_like(content@),
{
    let v = chars_of(content);
    (contains_exec(&v, &chars_of("<session")) && contains_exec(&v, &chars_of("<game ")))
        || contains_exec(&v, &chars_of("<session sessioncode"))
}

/// Suit of the leading letter of an iPoker card ("C", "D", "H", "S", any case).
pub open spec fn ipk_suit(c: char) -> Option<int> {
    if c == 'C' || c == 'c' {
        Some(0)
    } else if c == 'D' || c == 'd' {
        Some(1)
    } else if c == 'H' || c == 'h' {
        Some(2)
    } else if c == 'S' || c == 's' {
        Some(3)
    } else {
        None
    }
}

/// Card written suit first ("CA", "H10", "sT"), surrounding whitespace ignored.
pub open spec fn spec_parse_card(s: Seq<char>) -> Option<u8> {
    let t = trim(s);
    if t.len() < 2 {
        None
    } else {
        match (ipk_suit(t[0]), rank_value(t.drop_first())) {
            (Some(su), Some(r)) => Some((r * 4 + su) as u8),
            _ => None,
        }
    }
}

/// The card's text can be split after its first byte: the trimmed token is shorter than
/// two characters or starts with an ASCII character.
pub open spec fn splittable(s: Seq<char>) -> bool {
    let t = trim(s);
    t.len() < 2 || (t[0] as u32) < 128
}

fn card_at(v: &Vec<char>, lo: usize, hi: usize) -> (r: Option<Card>)
    requires
        lo <= hi <= v@.len(),
    ensures
        r == spec_parse_card(v@.subrange(lo as int, hi as int)),
        r matches Some(c) ==> c < 52,
{
    let (a, b) = trim_range(v, lo, hi);
    if b - a < 2 {
        return None;
    }
    let ghost t = v@.subrange(a as int, b as int);
    assert(t[0] == v@[a as int]);
    assert(t.drop_first() == v@.subrange(a + 1, b as int));
    let c = v[a];
    let su: u8 = if c == 'C' || c == 'c' {
        0
    } else if c == 'D' || c == 'd' {
        1
    } else if c == 'H' || c == 'h' {
        2
    } else if c == 'S' || c == 's' {
        3
    } else {
        return None;
    };
    let r: u8 = if b - a == 2 {
        let d = upper_exec(v[a + 1]);
        if '2' <= d && d <= '9' {
            ((d as u32) - ('2' as u32)) as u8
        } else if d == 'T' {
            8
        } else if d == 'J' {
            9
        } else if d == 'Q' {
            10
        } else if d == 'K' {
            11
        } else if d == 'A' {
            12
        } else {
            return None;
        }
    } else if b - a == 3 && v[a + 1] == '1' && v[a + 2] == '0' {
        8
    } else {
        return None;
    };
    Some(r * 4 + su)
}

/// Card of an iPoker token, suit first ("CA", "H10").
pub fn parse_card(s: &str) -> (r: Option<Card>)
    requires
        splittable(s@),
    ensures
        r == spec_parse_card(s@),
        r matches Some(c) ==> c < 52,
{
    let v = chars_of(s);
    assert(v@.subrange(0, v@.len() as int) == v@);
    card_at(&v, 0, v.len())
}

/// End of the whitespace-free piece starting at `i`.
pub open spec fn word_end(s: Seq<char>, i: int) -> int
    decreases s.len() - i,
{
    if 0 <= i < s.len() && !is_ws(s[i]) {
        word_end(s, i + 1)
    } else {
        i
    }
}

pub proof fn lemma_word_end(s: Seq<char>, i: int)
    requires
        0 <= i <= s.len(),
    ensures
        i <= word_end(s, i) <= s.len(),
        i < s.len() && !is_ws(s[i]) ==> i < word_end(s, i),
        forall|j: int| i <= j < word_end(s, i) ==> !is_ws(s[j]),
    decreases s.len() - i,
{
    if i < s.len() && !is_ws(s[i]) {
        assert(word_end(s, i) == word_end(s, i + 1));
    }
    if i < s.len() && !is_ws(s[i]) {
        lemma_word_end(s, i + 1);
    }
}

/// Cards of the whitespace-separated words of `s` from position `i` (`split_whitespace`
/// then `filter_map(parse_card)`).
pub open spec fn words_cards(s: Seq<char>, i: int) -> Seq<u8>
    decreases s.len() - i,
{
    if i < 0 || i >= s.len() {
        Seq::empty()
    } else if is_ws(s[i]) {
        words_cards(s, i + 1)
    } else {
        let e = word_end(s, i);
        proof {
            lemma_word_end(s, i);
        }
        (match spec_parse_card(s.subrange(i, e)) {
            Some(c) => seq![c],
            None => Seq::<u8>::empty(),
        }) + words_cards(s, e)
    }
}

/// Every word of `s` starts with an ASCII character.
pub open spec fn words_ascii_led(s: Seq<char>) -> bool {
    forall|i: int| 0 <= i < s.len() && !is_ws(#[trigger] s[i]) && (i == 0 || is_ws(s[i - 1])) ==> (s[i] as u32) < 128
}

/// Cards of the whitespace-separated words of an iPoker `<cards>` element.
pub fn parse_cards(s: &str) -> (r: Vec<Card>)
    requires
        words_ascii_led(s@),
    ensures
        r@ == words_cards(s@, 0),
        forall|k: int| 0 <= k < r@.len() ==> r@[k] < 52,
{
    let v = chars_of(s);
    let n = v.len();
    let mut out: Vec<Card> = Vec::new();
    let mut i: usize = 0;
    while i < n
        invariant
            n == v@.len(),
            i <= n,
            words_cards(v@, 0) == out@ + words_cards(v@, i as int),
            forall|k: int| 0 <= k < out@.len() ==> out@[k] < 52,
        decreases n - i,
    {
        if is_ws_exec(v[i]) {
            i = i + 1;
        } else {
            let mut e = i;
            while e < n && !is_ws_exec(v[e])
                invariant
                    i <= e <= n,
                    n == v@.len(),
                    word_end(v@, i as int) == word_end(v@, e as int),
                decreases n - e,
            {
                e = e + 1;
            }
            proof {
                lemma_word_end(v@, i as int);
            }
            let c = card_at(&v, i, e);
            let ghost head = match c {
                Some(x) => seq![x],
                None => Seq::<u8>::empty(),
            };
            assert(words_cards(v@, i as int) == head + words_cards(v@, e as int));
            if let Some(x) = c {
                out.push(x);
            }
            assert(words_cards(v@, 0) == out@ + words_cards(v@, e as int));
            i = e;
        }
    }
    assert(words_cards(v@, i as int) == Seq::<u8>::empty());
    assert(out@ + Seq::<u8>::empty() == out@);
    out
}

} // verus!
