//! Character-level helpers shared by the parsers: whitespace, trimming, searching.
use vstd::prelude::*;

verus! {

broadcast use vstd::string::group_string_axioms;

/// The characters of a string, in order.
pub fn chars_of(s: &str) -> (v: Vec<char>)
    ensures
        v@ == s@,
{
    let mut v: Vec<char> = Vec::new();
    for c in it: s.chars()
        invariant
            v@ == it.seq().take(it.index() as int),
            it.seq() == s@,
    {
        v.push(c);
    }
    v
}

/// Unicode `White_Space` characters (what `char::is_whitespace` accepts).
pub open spec fn is_ws(c: char) -> bool {
    ('\u{9}' <= c && c <= '\u{d}') || c == ' ' || c == '\u{85}' || c == '\u{a0}' || c == '\u{1680}'
        || ('\u{2000}' <= c && c <= '\u{200a}') || c == '\u{2028}' || c == '\u{2029}' || c
        == '\u{202f}' || c == '\u{205f}' || c == '\u{3000}'
}

pub fn is_ws_exec(c: char) -> (r: bool)
    ensures
        r == is_ws(c),
{
    ('\u{9}' <= c && c <= '\u{d}') || c == ' ' || c == '\u{85}' || c == '\u{a0}' || c == '\u{1680}'
        || ('\u{2000}' <= c && c <= '\u{200a}') || c == '\u{2028}' || c == '\u{2029}' || c
        == '\u{202f}' || c == '\u{205f}' || c == '\u{3000}'
}

pub open spec fn is_digit(c: char) -> bool {
    '0' <= c && c <= '9'
}

/// Character classes trimmed by the parsers: 0 = whitespace, 1 = `,` `[` `]`, 2 = `[` `]`.
pub open spec fn in_class(c: char, k: int) -> bool {
    if k == 0 {
        is_ws(c)
    } else if k == 1 {
        c == ',' || c == '[' || c == ']'
    } else {
        c == '[' || c == ']'
    }
}

pub fn in_class_exec(c: char, k: u8) -> (r: bool)
    ensures
        r == in_class(c, k as int),
{
    if k == 0 {
        is_ws_exec(c)
    } else if k == 1 {
        c == ',' || c == '[' || c == ']'
    } else {
        c == '[' || c == ']'
    }
}

/// `s` without the leading characters of class `k`.
pub open spec fn trim_start_by(s: Seq<char>, k: int) -> Seq<char>
    decreases s.len(),
{
    if s.len() > 0 && in_class(s[0], k) {
        trim_start_by(s.drop_first(), k)
    } else {
        s
    }
}

/// `s` without the trailing characters of class `k`.
pub open spec fn trim_end_by(s: Seq<char>, k: int) -> Seq<char>
    decreases s.len(),
{
    if s.len() > 0 && in_class(s.last(), k) {
        trim_end_by(s.drop_last(), k)
    } else {
        s
    }
}

/// `s` without the characters of class `k` at either end.
pub open spec fn trim_by(s: Seq<char>, k: int) -> Seq<char> {
    trim_end_by(trim_start_by(s, k), k)
}

/// `s` with whitespace removed at both ends (`str::trim`).
pub open spec fn trim(s: Seq<char>) -> Seq<char> {
    trim_by(s, 0)
}

proof fn lemma_trim_start_at(s: Seq<char>, k: int, i: int)
    requires
        0 <= i <= s.len(),
        forall|j: int| 0 <= j < i ==> in_class(s[j], k),
        i == s.len() || !in_class(s[i], k),
    ensures
        trim_start_by(s, k) == s.subrange(i, s.len() as int),
    decreases i,
{
    if i > 0 {
        assert(s.drop_first() == s.subrange(1, s.len() as int));
        lemma_trim_start_at(s.drop_first(), k, i - 1);
        assert(s.drop_first().subrange(i - 1, s.drop_first().len() as int) == s.subrange(i, s.len() as int));
    } else {
        assert(s.subrange(0, s.len() as int) == s);
    }
}

proof fn lemma_trim_end_at(s: Seq<char>, k: int, j: int)
    requires
        0 <= j <= s.len(),
        forall|m: int| j <= m < s.len() ==> in_class(s[m], k),
        j == 0 || !in_class(s[j - 1], k),
    ensures
        trim_end_by(s, k) == s.subrange(0, j),
    decreases s.len() - j,
{
    if j < s.len() {
        lemma_trim_end_at(s.drop_last(), k, j);
        assert(s.drop_last().subrange(0, j) == s.subrange(0, j));
    } else {
        assert(s.subrange(0, j) == s);
    }
}

/// Bounds `[i, j)` of `v[lo..hi]` without characters of class `k` at either end.
pub fn trim_range_by(v: &Vec<char>, lo: usize, hi: usize, k: u8) -> (r: (usize, usize))
    requires
        lo <= hi <= v@.len(),
    ensures
        lo <= r.0 <= r.1 <= hi,
        v@.subrange(r.0 as int, r.1 as int) == trim_by(v@.subrange(lo as int, hi as int), k as int),
{
    let ghost s = v@.subrange(lo as int, hi as int);
    let mut i = lo;
    while i < hi && in_class_exec(v[i], k)
        invariant
            lo <= i <= hi <= v@.len(),
            s == v@.subrange(lo as int, hi as int),
            forall|m: int| lo <= m < i ==> in_class(v@[m], k as int),
        decreases hi - i,
    {
        i = i + 1;
    }
    proof {
        lemma_trim_start_at(s, k as int, i - lo);
        assert(s.subrange(i - lo, s.len() as int) == v@.subrange(i as int, hi as int));
    }
    let ghost t = v@.subrange(i as int, hi as int);
    let mut j = hi;
    while j > i && in_class_exec(v[j - 1], k)
        invariant
            lo <= i <= j <= hi <= v@.len(),
            t == v@.subrange(i as int, hi as int),
            forall|m: int| j <= m < hi ==> in_class(v@[m], k as int),
        decreases j - i,
    {
        j = j - 1;
    }
    proof {
        lemma_trim_end_at(t, k as int, j - i);
        assert(t.subrange(0, j - i) == v@.subrange(i as int, j as int));
    }
    (i, j)
}

/// Bounds `[i, j)` of `v[lo..hi]` without whitespace at either end.
pub fn trim_range(v: &Vec<char>, lo: usize, hi: usize) -> (r: (usize, usize))
    requires
        lo <= hi <= v@.len(),
    ensures
        lo <= r.0 <= r.1 <= hi,
        v@.subrange(r.0 as int, r.1 as int) == trim(v@.subrange(lo as int, hi as int)),
{
    trim_range_by(v, lo, hi, 0)
}

/// Copies `v[lo..hi]` into a new string.
pub fn string_of(v: &Vec<char>, lo: usize, hi: usize) -> (s: String)
    requires
        lo <= hi <= v@.len(),
    ensures
        s@ == v@.subrange(lo as int, hi as int),
{
    let mut s = String::new();
    let mut i = lo;
    while i < hi
        invariant
            lo <= i <= hi <= v@.len(),
            s@ == v@.subrange(lo as int, i as int),
        decreases hi - i,
    {
        crate::model::push_char(&mut s, v[i]);
        assert(v@.subrange(lo as int, i + 1) == v@.subrange(lo as int, i as int).push(v@[i as int]));
        i = i + 1;
    }
    s
}

/// `p` occurs in `s` at position `i`.
pub open spec fn occurs_at(s: Seq<char>, p: Seq<char>, i: int) -> bool {
    0 <= i && i + p.len() <= s.len() && s.subrange(i, i + p.len()) == p
}

/// First position at or after `i` where `p` occurs in `s`.
pub open spec fn find_from(s: Seq<char>, p: Seq<char>, i: int) -> Option<int>
    decreases s.len() + 1 - i,
{
    if i < 0 || i + p.len() > s.len() {
        None
    } else if occurs_at(s, p, i) {
        Some(i)
    } else {
        find_from(s, p, i + 1)
    }
}

/// First position where `p` occurs in `s` (`str::find`).
pub open spec fn find(s: Seq<char>, p: Seq<char>) -> Option<int> {
    find_from(s, p, 0)
}

pub open spec fn contains(s: Seq<char>, p: Seq<char>) -> bool {
    find(s, p) is Some
}

pub open spec fn starts_with(s: Seq<char>, p: Seq<char>) -> bool {
    p.len() <= s.len() && s.subrange(0, p.len() as int) == p
}

pub open spec fn ends_with(s: Seq<char>, p: Seq<char>) -> bool {
    p.len() <= s.len() && s.subrange(s.len() - p.len(), s.len() as int) == p
}

/// ASCII upper case of a character.
pub open spec fn upper(c: char) -> char {
    if 'a' <= c && c <= 'z' {
        ((c as u32) - 32) as char
    } else {
        c
    }
}

/// ASCII upper case of a string (`str::to_ascii_uppercase`).
pub open spec fn upper_seq(s: Seq<char>) -> Seq<char> {
    Seq::new(s.len(), |i: int| upper(s[i]))
}

pub fn upper_exec(c: char) -> (r: char)
    ensures
        r == upper(c),
{
    if 'a' <= c && c <= 'z' {
        let u = (c as u32) - 32;
        let b = u as u8;
        b as char
    } else {
        c
    }
}

pub fn upper_vec(v: &Vec<char>) -> (u: Vec<char>)
    ensures
        u@ == upper_seq(v@),
{
    let mut u: Vec<char> = Vec::new();
    let mut i: usize = 0;
    while i < v.len()
        invariant
            i <= v@.len(),
            u@.len() == i,
            forall|k: int| 0 <= k < i ==> u@[k] == upper(v@[k]),
        decreases v@.len() - i,
    {
        u.push(upper_exec(v[i]));
        i = i + 1;
    }
    assert(u@ == upper_seq(v@));
    u
}

/// `p` occurs in `v` at position `i`.
pub fn occurs_at_exec(v: &Vec<char>, p: &Vec<char>, i: usize) -> (r: bool)
    ensures
        r == occurs_at(v@, p@, i as int),
{
    if i > v.len() || p.len() > v.len() - i {
        return false;
    }
    let n = v.len();
    let mut k: usize = 0;
    while k < p.len()
        invariant
            n == v@.len(),
            i + p@.len() <= n,
            k <= p@.len(),
            forall|j: int| 0 <= j < k ==> v@[i + j] == p@[j],
        decreases p@.len() - k,
    {
        assert(i + k < v@.len());
        if v[i + k] != p[k] {
            assert(v@.subrange(i as int, i + p@.len())[k as int] != p@[k as int]);
            return false;
        }
        k = k + 1;
    }
    assert(v@.subrange(i as int, i + p@.len()) =~= p@);
    true
}

proof fn lemma_find_from_skip(s: Seq<char>, p: Seq<char>, i: int, j: int)
    requires
        0 <= i <= j,
        forall|k: int| i <= k < j ==> !occurs_at(s, p, k),
    ensures
        find_from(s, p, i) == find_from(s, p, j),
    decreases j - i,
{
    if i < j {
        if i + p.len() <= s.len() {
            lemma_find_from_skip(s, p, i + 1, j);
        } else {
            lemma_find_from_none(s, p, j);
        }
    }
}

proof fn lemma_find_from_none(s: Seq<char>, p: Seq<char>, i: int)
    requires
        i + p.len() > s.len(),
    ensures
        find_from(s, p, i) is None,
{
}

/// First occurrence of `p` in `v` at or after `from` (`str::find` on a suffix).
pub fn find_exec(v: &Vec<char>, p: &Vec<char>, from: usize) -> (r: Option<usize>)
    ensures
        match r {
            Some(i) => find_from(v@, p@, from as int) == Some(i as int),
            None => find_from(v@, p@, from as int) is None,
        },
{
    if from > v.len() {
        return None;
    }
    let mut i = from;
    while i < v.len()
        invariant
            from <= i <= v@.len(),
            forall|k: int| from <= k < i ==> !occurs_at(v@, p@, k),
        decreases v@.len() + 1 - i,
    {
        if occurs_at_exec(v, p, i) {
            proof {
                lemma_find_from_skip(v@, p@, from as int, i as int);
            }
            return Some(i);
        }
        i = i + 1;
    }
    proof {
        lemma_find_from_skip(v@, p@, from as int, i as int);
    }
    if occurs_at_exec(v, p, i) {
        return Some(i);
    }
    proof {
        lemma_find_from_skip(v@, p@, from as int, i + 1);
    }
    None
}

pub fn starts_with_exec(v: &Vec<char>, p: &Vec<char>) -> (r: bool)
    ensures
        r == starts_with(v@, p@),
{
    occurs_at_exec(v, p, 0)
}

pub fn contains_exec(v: &Vec<char>, p: &Vec<char>) -> (r: bool)
    ensures
        r == contains(v@, p@),
{
    find_exec(v, p, 0).is_some()
}

/// The two character sequences are equal.
pub fn same_chars(a: &Vec<char>, b: &Vec<char>) -> (r: bool)
    ensures
        r == (a@ == b@),
{
    if a.len() != b.len() {
        return false;
    }
    let r = occurs_at_exec(a, b, 0);
    assert(a@.subrange(0, b@.len() as int) =~= a@);
    r
}

/// Copy of `v[lo..hi]`.
pub fn sub_vec(v: &Vec<char>, lo: usize, hi: usize) -> (r: Vec<char>)
    requires
        lo <= hi <= v@.len(),
    ensures
        r@ == v@.subrange(lo as int, hi as int),
{
    let mut r: Vec<char> = Vec::new();
    let mut i = lo;
    while i < hi
        invariant
            lo <= i <= hi <= v@.len(),
            r@ == v@.subrange(lo as int, i as int),
        decreases hi - i,
    {
        r.push(v[i]);
        assert(v@.subrange(lo as int, i + 1) == v@.subrange(lo as int, i as int).push(v@[i as int]));
        i = i + 1;
    }
    r
}

/// Last position where `p` occurs in `s` at or before `i`.
pub open spec fn rfind_upto(s: Seq<char>, p: Seq<char>, i: int) -> Option<int>
    decreases i + 1,
{
    if i < 0 {
        None
    } else if occurs_at(s, p, i) {
        Some(i)
    } else {
        rfind_upto(s, p, i - 1)
    }
}

/// Last position where `p` occurs in `s` (`str::rfind`).
pub open spec fn rfind(s: Seq<char>, p: Seq<char>) -> Option<int> {
    rfind_upto(s, p, s.len() - p.len())
}

/// Last occurrence of `p` in `v` (see `rfind`).
pub fn rfind_exec(v: &Vec<char>, p: &Vec<char>) -> (r: Option<usize>)
    ensures
        match r {
            Some(i) => rfind(v@, p@) == Some(i as int),
            None => rfind(v@, p@) is None,
        },
{
    if p.len() > v.len() {
        assert(rfind_upto(v@, p@, v@.len() - p@.len()) is None);
        return None;
    }
    let mut i = v.len() - p.len();
    loop
        invariant
            i <= v@.len() - p@.len(),
            p@.len() <= v@.len(),
            rfind(v@, p@) == rfind_upto(v@, p@, i as int),
        decreases i,
    {
        if occurs_at_exec(v, p, i) {
            return Some(i);
        }
        if i == 0 {
            assert(rfind_upto(v@, p@, -1) is None);
            return None;
        }
        i = i - 1;
    }
}

/// Ends with `p`.
pub fn ends_with_exec(v: &Vec<char>, p: &Vec<char>) -> (r: bool)
    ensures
        r == ends_with(v@, p@),
{
    if p.len() > v.len() {
        return false;
    }
    let r = occurs_at_exec(v, p, v.len() - p.len());
    r
}

/// Everything before the first line feed, without a carriage return that precedes it
/// (the first item of `str::lines`, or the empty string).
pub open spec fn first_line(s: Seq<char>) -> Seq<char> {
    match find(s, "\n"@) {
        None => s,
        Some(e) => {
            let l = s.subrange(0, e);
            if l.len() > 0 && l.last() == '\r' {
                l.drop_last()
            } else {
                l
            }
        },
    }
}

pub proof fn lemma_find_from_range(s: Seq<char>, p: Seq<char>, i: int)
    requires
        find_from(s, p, i) is Some,
    ensures
        i <= find_from(s, p, i)->0,
        find_from(s, p, i)->0 + p.len() <= s.len(),
        occurs_at(s, p, find_from(s, p, i)->0),
    decreases s.len() + 1 - i,
{
    if !occurs_at(s, p, i) {
        lemma_find_from_range(s, p, i + 1);
    }
}

/// First line of `v` (see `first_line`).
pub fn first_line_exec(v: &Vec<char>) -> (r: Vec<char>)
    ensures
        r@ == first_line(v@),
{
    let nl = chars_of("\n");
    match find_exec(v, &nl, 0) {
        None => {
            let r = sub_vec(v, 0, v.len());
            assert(r@ == v@);
            r
        },
        Some(e) => {
            proof {
                lemma_find_from_range(v@, "\n"@, 0);
            }
            if e > 0 && v[e - 1] == '\r' {
                let r = sub_vec(v, 0, e - 1);
                assert(r@ == v@.subrange(0, e as int).drop_last());
                r
            } else {
                sub_vec(v, 0, e)
            }
        },
    }
}

/// Index of the first character of `v` that is not whitespace (or its length).
pub fn trim_start_index(v: &Vec<char>) -> (a: usize)
    ensures
        a <= v@.len(),
        v@.subrange(a as int, v@.len() as int) == trim_start_by(v@, 0),
{
    let mut i: usize = 0;
    while i < v.len() && is_ws_exec(v[i])
        invariant
            i <= v@.len(),
            forall|m: int| 0 <= m < i ==> in_class(v@[m], 0),
        decreases v@.len() - i,
    {
        i = i + 1;
    }
    proof {
        lemma_trim_start_at(v@, 0, i as int);
    }
    i
}

pub proof fn lemma_rfind_upto_range(s: Seq<char>, p: Seq<char>, i: int)
    requires
        rfind_upto(s, p, i) is Some,
    ensures
        0 <= rfind_upto(s, p, i)->0 <= i,
        occurs_at(s, p, rfind_upto(s, p, i)->0),
    decreases i + 1,
{
    if !occurs_at(s, p, i) {
        lemma_rfind_upto_range(s, p, i - 1);
    }
}

pub proof fn lemma_rfind_range(s: Seq<char>, p: Seq<char>)
    requires
        rfind(s, p) is Some,
    ensures
        0 <= rfind(s, p)->0,
        rfind(s, p)->0 + p.len() <= s.len(),
{
    lemma_rfind_upto_range(s, p, s.len() - p.len());
}

pub proof fn lemma_find_from_skip_pub(s: Seq<char>, p: Seq<char>, i: int, j: int)
    requires
        0 <= i <= j,
        forall|k: int| i <= k < j ==> !occurs_at(s, p, k),
    ensures
        find_from(s, p, i) == find_from(s, p, j),
{
    lemma_find_from_skip(s, p, i, j);
}

} // verus!
