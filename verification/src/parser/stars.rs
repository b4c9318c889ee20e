//! PokerStars-like text formats (PokerStars Spin & Go, Unibet): recognition, names, dates.
use vstd::prelude::*;
use crate::text::{chars_of, contains, contains_exec, ends_with, ends_with_exec, find, find_from, find_exec, first_line, first_line_exec, is_ws, is_ws_exec, rfind, rfind_exec, starts_with, starts_with_exec, string_of, sub_vec, trim, trim_range, trim_start_by, trim_range_by, lemma_find_from_range};
use crate::parser::{date_tz_fits, spec_parse_date, spec_utc_to_paris, parse_date, utc_to_paris, date_tz_in_range};
use crate::parser::ipoker::{word_end, lemma_word_end};

verus! {

/// The first line (after leading whitespace) names a PokerStars or Unibet hand, or a
/// PokerStars tournament summary.
pub open spec fn spec_looks_like(c: Seq<char>) -> bool {
    let head = first_line(trim_start_by(c, 0));
    (contains(head, "Hand #"@) && (starts_with(head, "PokerStars"@) || starts_with(head, "Unibet"@)))
        || starts_with(head, "PokerStars Tournament #"@)
}

/// Recognises the PokerStars and Unibet text formats.
pub fn looks_like(c: &str) -> (r: bool)
    ensures
        r == spec_looks_like(c@),
{
    let v = chars_of(c);
    let a = crate::text::trim_start_index(&v);
    let t = sub_vec(&v, a, v.len());
    let head = first_line_exec(&t);
    (contains_exec(&head, &chars_of("Hand #")) && (starts_with_exec(&head, &chars_of("PokerStars"))
        || starts_with_exec(&head, &chars_of("Unibet")))) || starts_with_exec(&head, &chars_of("PokerStars Tournament #"))
}

pub open spec fn spec_room_of(head: Seq<char>) -> Seq<char> {
    if starts_with(head, "Unibet"@) { "Unibet"@ } else { "PokerStars"@ }
}

/// Room of a hand header: Unibet or PokerStars.
pub fn room_of(head: &str) -> (r: &'static str)
    ensures
        r@ == spec_room_of(head@),
{
    if starts_with_exec(&chars_of(head), &chars_of("Unibet")) {
        "Unibet"
    } else {
        "PokerStars"
    }
}

/// Player name without a technical suffix ("Pseudo [Unibet_28204e]" -> "Pseudo").
pub open spec fn spec_clean_name(n: Seq<char>) -> Seq<char> {
    let t = trim(n);
    match rfind(t, " ["@) {
        Some(i) => if ends_with(t, "]"@) { trim(t.subrange(0, i)) } else { t },
        None => t,
    }
}

/// Player name without a technical suffix in square brackets.
pub fn clean_name(n: &str) -> (r: String)
    ensures
        r@ == spec_clean_name(n@),
{
    let v = chars_of(n);
    let (a, b) = trim_range(&v, 0, v.len());
    assert(v@.subrange(0, v@.len() as int) == v@);
    let t = sub_vec(&v, a, b);
    match rfind_exec(&t, &chars_of(" [")) {
        Some(i) => {
            if ends_with_exec(&t, &chars_of("]")) {
                proof {
                    crate::text::lemma_rfind_range(t@, " ["@);
                }
                let (c, d) = trim_range(&t, 0, i);
                return string_of(&t, c, d);
            }
        },
        None => {},
    }
    assert(t@.subrange(0, t@.len() as int) == t@);
    string_of(&t, 0, t.len())
}

/// Text after the first `a` up to the next `b`, or to the end when `b` does not follow.
pub open spec fn spec_between(s: Seq<char>, a: Seq<char>, b: Seq<char>) -> Option<Seq<char>> {
    match find(s, a) {
        None => None,
        Some(p) => {
            let i = p + a.len();
            let j = match find_from(s, b, i) {
                Some(j) => j,
                None => s.len() as int,
            };
            Some(s.subrange(i, j))
        },
    }
}

/// Text after the first `a` up to the next `b` (or to the end).
pub fn between(s: &str, a: &str, b: &str) -> (r: Option<String>)
    ensures
        match r {
            Some(x) => spec_between(s@, a@, b@) == Some(x@),
            None => spec_between(s@, a@, b@) is None,
        },
{
    let v = chars_of(s);
    let av = chars_of(a);
    let p = match find_exec(&v, &av, 0) {
        Some(p) => p,
        None => return None,
    };
    proof {
        lemma_find_from_range(v@, a@, 0);
    }
    let n = v.len();
    assert(p + av@.len() <= n);
    let i = p + av.len();
    let j = match find_exec(&v, &chars_of(b), i) {
        Some(j) => {
            proof {
                lemma_find_from_range(v@, b@, i as int);
            }
            j
        },
        None => n,
    };
    Some(string_of(&v, i, j))
}

/// Whitespace-separated words of `s` from position `i` (`split_whitespace`).
pub open spec fn words(s: Seq<char>, i: int) -> Seq<Seq<char>>
    decreases s.len() - i,
{
    if i < 0 || i >= s.len() {
        Seq::empty()
    } else if is_ws(s[i]) {
        words(s, i + 1)
    } else {
        let e = word_end(s, i);
        proof {
            lemma_word_end(s, i);
        }
        seq![s.subrange(i, e)] + words(s, e)
    }
}

/// Bytes of a character in UTF-8.
pub open spec fn utf8_width(c: char) -> int {
    if (c as u32) < 0x80 {
        1
    } else if (c as u32) < 0x800 {
        2
    } else if (c as u32) < 0x10000 {
        3
    } else {
        4
    }
}

/// Length of a string in UTF-8 bytes (`str::len`).
pub open spec fn byte_len(t: Seq<char>) -> int
    decreases t.len(),
{
    if t.len() == 0 {
        0
    } else {
        byte_len(t.drop_last()) + utf8_width(t.last())
    }
}

/// Number of characters of `t` satisfying `p`.
pub open spec fn count_where(t: Seq<char>, p: spec_fn(char) -> bool) -> int
    decreases t.len(),
{
    if t.len() == 0 {
        0
    } else {
        count_where(t.drop_last(), p) + if p(t.last()) { 1int } else { 0 }
    }
}

pub open spec fn starts_with_digit(t: Seq<char>) -> bool {
    t.len() > 0 && '0' <= t[0] && t[0] <= '9'
}

/// A date word: at least 8 bytes, two `/` or `-`, starting with a digit.
pub open spec fn is_date(t: Seq<char>) -> bool {
    byte_len(t) >= 8 && count_where(t, |c: char| c == '/' || c == '-') == 2 && starts_with_digit(t)
}

/// A time word: two `:`, starting with a digit.
pub open spec fn is_time(t: Seq<char>) -> bool {
    count_where(t, |c: char| c == ':') == 2 && starts_with_digit(t)
}

/// "date time" text of the first pair of consecutive words (from pair `k` on) that are a
/// date and a time, in either order.
pub open spec fn date_pair(w: Seq<Seq<char>>, k: int) -> Option<Seq<char>>
    decreases w.len() - k,
{
    if k < 0 || k + 1 >= w.len() {
        None
    } else if is_date(w[k]) && is_time(w[k + 1]) {
        Some(w[k] + " "@ + w[k + 1])
    } else if is_time(w[k]) && is_date(w[k + 1]) {
        Some(w[k + 1] + " "@ + w[k])
    } else {
        date_pair(w, k + 1)
    }
}

/// The date found in a line parses within range (or no date is found).
pub open spec fn date_pair_fits(s: Seq<char>) -> bool {
    match date_pair(words(s, 0), 0) {
        Some(t) => date_tz_fits(t),
        None => true,
    }
}

/// Date "YYYY/MM/DD HH:MM:SS" or "HH:MM:SS YYYY/MM/DD" (Unibet) found in a line.
pub open spec fn spec_find_date_raw(s: Seq<char>) -> Option<int> {
    match date_pair(words(s, 0), 0) {
        Some(t) => spec_parse_date(t),
        None => None,
    }
}

/// As `spec_find_date_raw`, converted to Paris time when the line says UTC.
pub open spec fn spec_find_date(s: Seq<char>) -> Option<int> {
    match spec_find_date_raw(s) {
        Some(ts) => Some(if contains(s, "UTC"@) { spec_utc_to_paris(ts) } else { ts }),
        None => None,
    }
}

fn words_exec(v: &Vec<char>) -> (r: Vec<Vec<char>>)
    ensures
        r@.len() == words(v@, 0).len(),
        forall|k: int| 0 <= k < r@.len() ==> r@[k]@ == words(v@, 0)[k],
{
    let n = v.len();
    let mut out: Vec<Vec<char>> = Vec::new();
    let ghost mut acc: Seq<Seq<char>> = Seq::empty();
    let mut i: usize = 0;
    while i < n
        invariant
            n == v@.len(),
            i <= n,
            words(v@, 0) == acc + words(v@, i as int),
            out@.len() == acc.len(),
            forall|k: int| 0 <= k < out@.len() ==> out@[k]@ == acc[k],
        decreases n - i,
    {
        if is_ws_exec(v[i]) {
            i = i + 1;
        } else {
            let mut e = i;
            while e < n && !is_ws_exec(v[e])
                invariant
                    i <= e <= n,
                    n == v@.len(),
                    word_end(v@, i as int) == word_end(v@, e as int),
                decreases n - e,
            {
                e = e + 1;
            }
            proof {
                lemma_word_end(v@, i as int);
            }
            let w = sub_vec(v, i, e);
            proof {
                assert(words(v@, i as int) == seq![w@] + words(v@, e as int));
                assert(acc + words(v@, i as int) == acc.push(w@) + words(v@, e as int));
                acc = acc.push(w@);
            }
            out.push(w);
            i = e;
        }
    }
    assert(words(v@, i as int) == Seq::<Seq<char>>::empty());
    assert(acc + Seq::<Seq<char>>::empty() == acc);
    out
}

fn byte_len_exec(t: &Vec<char>) -> (r: usize)
    ensures
        r == byte_len(t@) || (r >= 8 && byte_len(t@) >= 8),
{
    let mut n: usize = 0;
    let mut i: usize = 0;
    while i < t.len() && n < 8
        invariant
            i <= t@.len(),
            n == byte_len(t@.subrange(0, i as int)),
            n <= 11,
        decreases t@.len() - i,
    {
        let c = t[i] as u32;
        let w: usize = if c < 0x80 { 1 } else if c < 0x800 { 2 } else if c < 0x10000 { 3 } else { 4 };
        assert(t@.subrange(0, i + 1).drop_last() == t@.subrange(0, i as int));
        n = n + w;
        i = i + 1;
    }
    proof {
        if i == t@.len() {
            assert(t@.subrange(0, i as int) == t@);
        } else {
            lemma_byte_len_prefix(t@, i as int);
        }
    }
    n
}

proof fn lemma_byte_len_prefix(t: Seq<char>, i: int)
    requires
        0 <= i <= t.len(),
    ensures
        byte_len(t.subrange(0, i)) <= byte_len(t),
    decreases t.len() - i,
{
    if i < t.len() {
        lemma_byte_len_prefix(t, i + 1);
        assert(t.subrange(0, i + 1).drop_last() == t.subrange(0, i));
    } else {
        assert(t.subrange(0, i) == t);
    }
}

fn count_seps(t: &Vec<char>, colon: bool) -> (r: usize)
    ensures
        colon ==> r == count_where(t@, |c: char| c == ':'),
        !colon ==> r == count_where(t@, |c: char| c == '/' || c == '-'),
{
    let mut n: usize = 0;
    let mut i: usize = 0;
    while i < t.len()
        invariant
            i <= t@.len(),
            n <= i,
            colon ==> n == count_where(t@.subrange(0, i as int), |c: char| c == ':'),
            !colon ==> n == count_where(t@.subrange(0, i as int), |c: char| c == '/' || c == '-'),
        decreases t@.len() - i,
    {
        let c = t[i];
        assert(t@.subrange(0, i + 1).drop_last() == t@.subrange(0, i as int));
        assert(t@.subrange(0, i + 1).last() == c);
        if colon {
            if c == ':' {
                n = n + 1;
            }
        } else if c == '/' || c == '-' {
            n = n + 1;
        }
        i = i + 1;
    }
    assert(t@.subrange(0, i as int) == t@);
    n
}

fn is_date_exec(t: &Vec<char>) -> (r: bool)
    ensures
        r == is_date(t@),
{
    byte_len_exec(t) >= 8 && count_seps(t, false) == 2 && t.len() > 0 && '0' <= t[0] && t[0] <= '9'
}

fn is_time_exec(t: &Vec<char>) -> (r: bool)
    ensures
        r == is_time(t@),
{
    count_seps(t, true) == 2 && t.len() > 0 && '0' <= t[0] && t[0] <= '9'
}

fn join_pair(a: &Vec<char>, b: &Vec<char>) -> (r: String)
    ensures
        r@ == a@ + " "@ + b@,
{
    let mut s = string_of(a, 0, a.len());
    assert(a@.subrange(0, a@.len() as int) == a@);
    crate::model::push_char(&mut s, ' ');
    let mut i: usize = 0;
    proof {
        reveal_strlit(" ");
        assert(" "@ == seq![' ']);
    }
    while i < b.len()
        invariant
            i <= b@.len(),
            " "@ == seq![' '],
            s@ == a@ + " "@ + b@.subrange(0, i as int),
        decreases b@.len() - i,
    {
        crate::model::push_char(&mut s, b[i]);
        assert(b@.subrange(0, i + 1) == b@.subrange(0, i as int).push(b@[i as int]));
        i = i + 1;
    }
    assert(b@.subrange(0, b@.len() as int) == b@);
    s
}

fn date_pair_exec(v: &Vec<char>) -> (r: Option<String>)
    ensures
        match r {
            Some(x) => date_pair(words(v@, 0), 0) == Some(x@),
            None => date_pair(words(v@, 0), 0) is None,
        },
{
    let w = words_exec(v);
    let ghost ws = words(v@, 0);
    let n = w.len();
    let mut k: usize = 0;
    while k < n && k + 1 < n
        invariant
            n == w@.len(),
            ws == words(v@, 0),
            w@.len() == ws.len(),
            forall|j: int| 0 <= j < w@.len() ==> w@[j]@ == ws[j],
            date_pair(ws, 0) == date_pair(ws, k as int),
        decreases w@.len() - k,
    {
        let a = &w[k];
        let b = &w[k + 1];
        assert(a@ == ws[k as int] && b@ == ws[k + 1]);
        if is_date_exec(a) && is_time_exec(b) {
            return Some(join_pair(a, b));
        }
        if is_time_exec(a) && is_date_exec(b) {
            return Some(join_pair(b, a));
        }
        k = k + 1;
    }
    None
}

/// Checks `date_pair_fits`.
pub fn find_date_in_range(s: &str) -> (r: bool)
    ensures
        r == date_pair_fits(s@),
{
    match date_pair_exec(&chars_of(s)) {
        Some(t) => date_tz_in_range(t.as_str()),
        None => true,
    }
}

/// Date of a line (see `spec_find_date_raw`).
pub fn find_date_raw(s: &str) -> (r: Option<i64>)
    requires
        date_pair_fits(s@),
    ensures
        match r {
            Some(t) => spec_find_date_raw(s@) == Some(t as int),
            None => spec_find_date_raw(s@) is None,
        },
{
    match date_pair_exec(&chars_of(s)) {
        Some(t) => parse_date(t.as_str()),
        None => None,
    }
}

/// Date of a line, in Paris time when the line says UTC.
pub fn find_date(s: &str) -> (r: Option<i64>)
    requires
        date_pair_fits(s@),
    ensures
        match r {
            Some(t) => spec_find_date(s@) == Some(t as int),
            None => spec_find_date(s@) is None,
        },
{
    let ts = match find_date_raw(s) {
        Some(t) => t,
        None => return None,
    };
    if contains_exec(&chars_of(s), &chars_of("UTC")) {
        Some(utc_to_paris(ts))
    } else {
        Some(ts)
    }
}

} // verus!
