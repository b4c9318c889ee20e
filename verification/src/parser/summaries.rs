//! Tournament summaries (Winamax and PokerStars files that describe a whole tournament):
//! code, name, hero, buy-in, prize pool, start, time played, place and winnings, read into
//! exact values. The amounts in euros are then summed by the caller.
use vstd::prelude::*;
use crate::parser::{Decimal, digits_val, spec_parse_date, date_fits, spec_parse_num, first_number_text};
use crate::parser::expresso::{dec_is, before, second_piece, parse_u8, split_on, line_texts, views};
use crate::parser::betclic_hand::{digit_prefix, or_text, digit_prefix_exec, first_num_opt, dec_copy};
use crate::parser::stars::{spec_between, spec_find_date, date_pair_fits};
use crate::parser::stars_hand::{first_word, slash_as_plus, text_positive, strip_bom};
use crate::text::{contains, ends_with, starts_with, trim, trim_start_by, first_line};
use crate::text::{chars_of, contains_exec, ends_with_exec, starts_with_exec, sub_vec, string_of, trim_range, trim_start_index, first_line_exec};

verus! {

// ---------------------------------------------------------------- time played

/// Seconds of a unit letter: hours, minutes, seconds; nothing for another letter.
pub open spec fn unit_seconds(c: char) -> int {
    if c == 'h' { 3600 } else if c == 'm' { 60 } else if c == 's' { 1 } else { 0 }
}

/// Seconds of a number followed by a unit letter (a number too large for `i64` counts as 0).
pub open spec fn term(digits: Seq<char>, c: char) -> int {
    let x = digits_val(digits) as int;
    (if x <= i64::MAX { x } else { 0 }) * unit_seconds(c)
}

/// Seconds counted and digits pending after the first `k` characters of "1h 02m 03s": a
/// run of digits followed by a unit letter counts its seconds; digits not followed by a
/// letter count nothing.
pub open spec fn played_upto(v: Seq<char>, k: int) -> (int, Seq<char>)
    decreases k,
{
    if k <= 0 {
        (0, Seq::empty())
    } else {
        let (tot, cur) = played_upto(v, k - 1);
        let c = v[k - 1];
        if '0' <= c <= '9' {
            (tot, cur.push(c))
        } else if cur.len() > 0 {
            (tot + term(cur, c), Seq::empty())
        } else {
            (tot, cur)
        }
    }
}

/// Seconds of a time played "1h 02m 03s".
pub open spec fn played(v: Seq<char>) -> int {
    played_upto(v, v.len() as int).0
}

proof fn lemma_played_step(v: Seq<char>, k: int)
    requires
        0 < k <= v.len(),
    ensures
        played_upto(v, k - 1).0 <= played_upto(v, k).0,
{
    let (tot, cur) = played_upto(v, k - 1);
    let c = v[k - 1];
    let x = digits_val(cur) as int;
    let y = if x <= i64::MAX { x } else { 0 };
    assert(y * unit_seconds(c) >= 0) by (nonlinear_arith)
        requires
            y >= 0,
            unit_seconds(c) >= 0,
    ;
}

proof fn lemma_played_grows(v: Seq<char>, a: int, b: int)
    requires
        0 <= a <= b <= v.len(),
    ensures
        0 <= played_upto(v, a).0 <= played_upto(v, b).0,
    decreases b,
{
    if b > a {
        lemma_played_grows(v, a, b - 1);
        lemma_played_step(v, b);
    } else {
        lemma_played_nonneg(v, a);
    }
}

proof fn lemma_played_nonneg(v: Seq<char>, k: int)
    requires
        0 <= k <= v.len(),
    ensures
        0 <= played_upto(v, k).0,
    decreases k,
{
    if k > 0 {
        lemma_played_nonneg(v, k - 1);
        lemma_played_step(v, k);
    }
}

/// Seconds of a time played, `None` when they pass `i64::MAX`.
fn played_exec(v: &Vec<char>) -> (r: Option<i64>)
    ensures
        match r {
            Some(t) => t as int == played(v@),
            None => played(v@) > i64::MAX,
        },
{
    let mut tot: i64 = 0;
    let mut cur: u64 = 0;
    let mut big = false;
    let mut len: usize = 0;
    let mut k: usize = 0;
    while k < v.len()
        invariant
            k <= v@.len(),
            tot as int == played_upto(v@, k as int).0,
            len as int == played_upto(v@, k as int).1.len(),
            len <= k,
            !big ==> cur as int == digits_val(played_upto(v@, k as int).1) && cur <= i64::MAX,
            big ==> digits_val(played_upto(v@, k as int).1) > i64::MAX,
            tot >= 0,
        decreases v@.len() - k,
    {
        let c = v[k];
        let ghost p = played_upto(v@, k as int);
        if '0' <= c && c <= '9' {
            let d = ((c as u32) - ('0' as u32)) as u64;
            proof {
                assert(p.1.push(c).drop_last() =~= p.1);
            }
            if !big {
                if cur <= (9223372036854775807u64 - d) / 10 {
                    cur = cur * 10 + d;
                } else {
                    big = true;
                }
            } else {
                assert(digits_val(p.1.push(c)) >= digits_val(p.1) * 10);
            }
            len = len + 1;
        } else if len > 0 {
            let x: i64 = if big { 0 } else { cur as i64 };
            let unit: i64 = if c == 'h' { 3600 } else if c == 'm' { 60 } else if c == 's' { 1 } else { 0 };
            assert(x as int * unit as int == term(p.1, c));
            proof {
                lemma_played_grows(v@, k + 1, v@.len() as int);
            }
            if x > (9223372036854775807i64 - tot) / 3600 && unit == 3600 || x > (9223372036854775807i64 - tot) / 60
                && unit == 60 || x > 9223372036854775807i64 - tot && unit == 1 {
                assert(played_upto(v@, k + 1).0 > i64::MAX) by (nonlinear_arith)
                    requires
                        played_upto(v@, k + 1).0 == tot + x * unit,
                        unit == 3600 ==> x > (9223372036854775807i64 - tot) / 3600,
                        unit == 60 ==> x > (9223372036854775807i64 - tot) / 60,
                        unit == 1 ==> x > 9223372036854775807i64 - tot,
                        unit == 3600 || unit == 60 || unit == 1,
                        tot >= 0,
                ;
                return None;
            }
            assert(0 <= x * unit <= i64::MAX - tot) by (nonlinear_arith)
                requires
                    x >= 0,
                    tot >= 0,
                    unit == 3600 ==> x <= (9223372036854775807i64 - tot) / 3600,
                    unit == 60 ==> x <= (9223372036854775807i64 - tot) / 60,
                    unit == 1 ==> x <= 9223372036854775807i64 - tot,
                    unit == 3600 || unit == 60 || unit == 1 || unit == 0,
            ;
            tot = tot + x * unit;
            cur = 0;
            big = false;
            len = 0;
        }
        k = k + 1;
    }
    Some(tot)
}

// ---------------------------------------------------------------- Winamax

/// What the lines of a Winamax summary say after some of them (the last line of each kind
/// counts, the times played add up).
pub struct WmState {
    /// the hero's name
    pub hero: Seq<char>,
    /// the buy-in parts ("4.60€ + 0.40€"), none without a buy-in line
    pub buyin: Seq<Seq<char>>,
    /// the parts after the first of the last buy-in line with at least two parts
    pub rake: Seq<Seq<char>>,
    pub prize: Seq<char>,
    /// the start, 0 when unknown
    pub start: int,
    /// seconds played
    pub duration: int,
    /// the place, 0 when unknown
    pub place: u8,
    /// the amount won
    pub won: Seq<char>,
    /// the number of players (3 by default)
    pub players: u8,
}

/// Whether a Winamax file is a tournament summary: its text names one.
pub fn is_wm_summary(c: &str) -> (r: bool)
    ensures
        r == contains(c@, "Tournament summary"@),
{
    contains_exec(&chars_of(c), &chars_of("Tournament summary"))
}

pub open spec fn wm_start() -> WmState {
    WmState {
        hero: Seq::empty(),
        buyin: Seq::empty(),
        rake: Seq::empty(),
        prize: Seq::empty(),
        start: 0,
        duration: 0,
        place: 0,
        won: Seq::empty(),
        players: 3,
    }
}

/// One trimmed line of a Winamax summary.
pub open spec fn wm_step(st: WmState, l: Seq<char>) -> WmState {
    let n = l.len() as int;
    if starts_with(l, "Player : "@) {
        WmState { hero: trim(l.subrange(9, n)), ..st }
    } else if starts_with(l, "Buy-In : "@) {
        let p = split_on(l.subrange(9, n), '+');
        WmState { buyin: p, rake: if p.len() >= 2 { p.drop_first() } else { st.rake }, ..st }
    } else if starts_with(l, "Prizepool : "@) {
        WmState { prize: l.subrange(12, n), ..st }
    } else if starts_with(l, "Tournament started "@) {
        WmState {
            start: match spec_parse_date(l.subrange(19, n)) {
                Some(t) => t,
                None => 0,
            },
            ..st
        }
    } else if starts_with(l, "You played "@) {
        WmState { duration: st.duration + played(l.subrange(11, n)), ..st }
    } else if starts_with(l, "You finished in "@) {
        WmState {
            place: match parse_u8(digit_prefix(l.subrange(16, n))) {
                Some(x) => x,
                None => 0,
            },
            ..st
        }
    } else if starts_with(l, "You won "@) {
        WmState { won: l.subrange(8, n), ..st }
    } else if starts_with(l, "Registered players : "@) {
        WmState {
            players: match parse_u8(trim(l.subrange(21, n))) {
                Some(x) => x,
                None => 3,
            },
            ..st
        }
    } else {
        st
    }
}

pub open spec fn wm_upto(ls: Seq<Seq<char>>, k: int) -> WmState
    decreases k,
{
    if k <= 0 {
        wm_start()
    } else {
        wm_step(wm_upto(ls, k - 1), trim(ls[k - 1]))
    }
}

/// Every start date among the first `k` lines can be computed.
pub open spec fn wm_dates_fit(ls: Seq<Seq<char>>, k: int) -> bool
    decreases k,
{
    k <= 0 || (wm_dates_fit(ls, k - 1) && (starts_with(trim(ls[k - 1]), "Tournament started "@) ==> date_fits(
        trim(ls[k - 1]).subrange(19, trim(ls[k - 1]).len() as int),
    )))
}

/// A Winamax summary can be read: its start dates can be computed and its times played add
/// up to at most `i64::MAX` seconds.
pub open spec fn spec_wm_fits(c: Seq<char>) -> bool {
    let ls = line_texts(c);
    wm_dates_fit(ls, ls.len() as int) && wm_upto(ls, ls.len() as int).duration <= i64::MAX
}

/// What a Winamax summary says: the tournament's code (between the first parentheses of
/// the first line), its name, and what its lines say.
pub struct WmSummaryText {
    pub code: Seq<char>,
    pub name: Seq<char>,
    pub lines: WmState,
}

pub open spec fn spec_wm_summary(c: Seq<char>) -> Option<WmSummaryText> {
    let first = first_line(c);
    let ls = line_texts(c);
    match spec_between(first, "("@, ")"@) {
        None => None,
        Some(code) => Some(
            WmSummaryText {
                code,
                name: trim(before(or_text(second_piece(first, ":"@), Seq::empty()), "("@)),
                lines: wm_upto(ls, ls.len() as int),
            },
        ),
    }
}

/// Texts that start with different characters cannot both start a line.
proof fn lemma_prefix_excl(l: Seq<char>, p: Seq<char>, q: Seq<char>)
    requires
        starts_with(l, p),
        p.len() > 0,
        q.len() > 0,
        p[0] != q[0],
    ensures
        !starts_with(l, q),
{
    assert(l.subrange(0, p.len() as int)[0] == l[0]);
    if starts_with(l, q) {
        assert(l.subrange(0, q.len() as int)[0] == l[0]);
    }
}

/// The decimals read the texts, one for one.
pub open spec fn decs_are(v: Seq<Decimal>, t: Seq<Seq<char>>) -> bool {
    v.len() == t.len() && forall|i: int| 0 <= i < t.len() ==> dec_is(#[trigger] v[i], t[i])
}

/// A Winamax summary as read.
pub struct WinamaxSummary {
    pub code: String,
    pub name: String,
    pub hero: String,
    pub buyin: Vec<Decimal>,
    pub rake: Vec<Decimal>,
    pub prize: Decimal,
    pub start: i64,
    pub duration: i64,
    pub place: u8,
    pub won: Decimal,
    pub players: u8,
}

pub open spec fn wm_reads(h: WinamaxSummary, t: WmSummaryText) -> bool {
    &&& h.code@ == t.code
    &&& h.name@ == t.name
    &&& h.hero@ == t.lines.hero
    &&& decs_are(h.buyin@, t.lines.buyin)
    &&& decs_are(h.rake@, t.lines.rake)
    &&& dec_is(h.prize, t.lines.prize)
    &&& h.start == t.lines.start
    &&& h.duration == t.lines.duration
    &&& h.place == t.lines.place
    &&& dec_is(h.won, t.lines.won)
    &&& h.players == t.lines.players
}

proof fn lemma_wm_step_duration(ls: Seq<Seq<char>>, k: int)
    requires
        k > 0,
    ensures
        wm_upto(ls, k - 1).duration <= wm_upto(ls, k).duration,
{
    let l = trim(ls[k - 1]);
    if starts_with(l, "You played "@) {
        reveal_strlit("You played ");
        let v = l.subrange(11, l.len() as int);
        lemma_played_nonneg(v, v.len() as int);
    }
}

proof fn lemma_wm_duration_nonneg(ls: Seq<Seq<char>>, k: int)
    ensures
        0 <= wm_upto(ls, k).duration,
    decreases k,
{
    if k > 0 {
        lemma_wm_duration_nonneg(ls, k - 1);
        lemma_wm_step_duration(ls, k);
    }
}

proof fn lemma_wm_duration_grows(ls: Seq<Seq<char>>, a: int, b: int)
    requires
        0 <= a <= b,
    ensures
        0 <= wm_upto(ls, a).duration <= wm_upto(ls, b).duration,
    decreases b,
{
    if b > a {
        lemma_wm_duration_grows(ls, a, b - 1);
        lemma_wm_step_duration(ls, b);
    } else {
        lemma_wm_duration_nonneg(ls, a);
    }
}

fn decs_copy(v: &Vec<Decimal>, from: usize) -> (r: Vec<Decimal>)
    requires
        from <= v@.len(),
    ensures
        r@.len() == v@.len() - from,
        forall|i: int|
            0 <= i < r@.len() ==> (#[trigger] r@[i]).negative == v@[i + from].negative && r@[i].digits@
                == v@[i + from].digits@ && r@[i].scale == v@[i + from].scale,
{
    let mut r: Vec<Decimal> = Vec::new();
    let mut k = from;
    while k < v.len()
        invariant
            from <= k <= v@.len(),
            r@.len() == k - from,
            forall|i: int|
                0 <= i < r@.len() ==> (#[trigger] r@[i]).negative == v@[i + from].negative && r@[i].digits@
                    == v@[i + from].digits@ && r@[i].scale == v@[i + from].scale,
        decreases v@.len() - k,
    {
        r.push(dec_copy(&v[k]));
        k = k + 1;
    }
    r
}

/// Whether a Winamax summary can be read (see `spec_wm_fits`).
pub fn wm_fits(c: &str) -> (r: bool)
    ensures
        r == spec_wm_fits(c@),
{
    proof {
        reveal_strlit("Tournament started ");
        reveal_strlit("You played ");
    }
    let lines = crate::parser::expresso::text_lines(c);
    let ghost ls = line_texts(c@);
    let n = lines.len();
    let mut dates = true;
    let mut dur: i64 = 0;
    let mut k: usize = 0;
    while k < n
        invariant
            k <= n == ls.len(),
            ls == line_texts(c@),
            views(lines@) == ls,
            dates == wm_dates_fit(ls, k as int),
            dur as int == wm_upto(ls, k as int).duration,
        decreases n - k,
    {
        proof {
            reveal_strlit("Player : ");
            reveal_strlit("Buy-In : ");
            reveal_strlit("Prizepool : ");
            reveal_strlit("Tournament started ");
            reveal_strlit("You played ");
        }
        let line = &lines[k];
        assert(views(lines@)[k as int] == line@);
        let (a, b) = trim_range(line, 0, line.len());
        assert(line@.subrange(0, line@.len() as int) =~= line@);
        let t = sub_vec(line, a, b);
        assert(trim(ls[k as int]) == t@);
        let m = t.len();
        proof {
            lemma_wm_duration_grows(ls, k as int, k + 1);
        }
        if starts_with_exec(&t, &chars_of("Tournament started ")) {
            let v = sub_vec(&t, 19, m);
            let ok = crate::parser::date_in_range(string_of(&v, 0, v.len()).as_str());
            assert(v@.subrange(0, v@.len() as int) =~= v@);
            dates = dates && ok;
        } else if starts_with_exec(&t, &chars_of("You played ")) {
            let v = sub_vec(&t, 11, m);
            proof {
                lemma_prefix_excl(t@, "You played "@, "Player : "@);
                lemma_prefix_excl(t@, "You played "@, "Buy-In : "@);
                lemma_prefix_excl(t@, "You played "@, "Prizepool : "@);
            }
            assert(wm_upto(ls, k + 1).duration == dur + played(v@));
            match played_exec(&v) {
                Some(x) => {
                    if x > 9223372036854775807i64 - dur {
                        proof {
                            lemma_wm_duration_grows(ls, k + 1, n as int);
                        }
                        return false;
                    }
                    dur = dur + x;
                },
                None => {
                    proof {
                        lemma_wm_duration_grows(ls, k + 1, n as int);
                    }
                    return false;
                },
            }
        }
        k = k + 1;
    }
    dates
}

struct WmExec {
    hero: Vec<char>,
    buyin: Vec<Decimal>,
    rake: Vec<Decimal>,
    prize: Decimal,
    start: i64,
    duration: i64,
    place: u8,
    won: Decimal,
    players: u8,
}

spec fn wm_is(e: WmExec, s: WmState) -> bool {
    &&& e.hero@ == s.hero
    &&& decs_are(e.buyin@, s.buyin)
    &&& decs_are(e.rake@, s.rake)
    &&& dec_is(e.prize, s.prize)
    &&& e.start == s.start
    &&& e.duration == s.duration
    &&& e.place == s.place
    &&& dec_is(e.won, s.won)
    &&& e.players == s.players
}

/// One trimmed line of a Winamax summary (see `wm_step`).
#[verifier::rlimit(40)]
fn wm_line(e: &mut WmExec, t: &Vec<char>, Ghost(s): Ghost<WmState>)
    requires
        wm_is(*old(e), s),
        s.duration >= 0,
        wm_step(s, t@).duration <= i64::MAX,
        starts_with(t@, "Tournament started "@) ==> date_fits(t@.subrange(19, t@.len() as int)),
    ensures
        wm_is(*final(e), wm_step(s, t@)),
{
    proof {
        reveal_strlit("Player : ");
        reveal_strlit("Buy-In : ");
        reveal_strlit("Prizepool : ");
        reveal_strlit("Tournament started ");
        reveal_strlit("You played ");
        reveal_strlit("You finished in ");
        reveal_strlit("You won ");
        reveal_strlit("Registered players : ");
    }
    let m = t.len();
    if starts_with_exec(t, &chars_of("Player : ")) {
        let (a, b) = trim_range(t, 9, m);
        e.hero = sub_vec(t, a, b);
        assert(wm_is(*e, wm_step(s, t@)));
    } else if starts_with_exec(t, &chars_of("Buy-In : ")) {
        let v = sub_vec(t, 9, m);
        let p = crate::parser::expresso::split_nums(&v, '+');
        if p.len() >= 2 {
            e.rake = decs_copy(&p, 1);
            assert(split_on(v@, '+').drop_first().len() == p@.len() - 1);
            assert forall|i: int| 0 <= i < e.rake@.len() implies dec_is(#[trigger] e.rake@[i], split_on(v@, '+').drop_first()[i]) by {
                assert(dec_is(p@[i + 1], split_on(v@, '+')[i + 1]));
            }
        }
        e.buyin = p;
        assert(wm_is(*e, wm_step(s, t@)));
    } else if starts_with_exec(t, &chars_of("Prizepool : ")) {
        e.prize = crate::parser::expresso::read_num(&sub_vec(t, 12, m));
        assert(wm_is(*e, wm_step(s, t@)));
    } else if starts_with_exec(t, &chars_of("Tournament started ")) {
        let v = sub_vec(t, 19, m);
        assert(v@.subrange(0, v@.len() as int) =~= v@);
        e.start = match crate::parser::parse_date(string_of(&v, 0, v.len()).as_str()) {
            Some(x) => x,
            None => 0,
        };
        assert(wm_is(*e, wm_step(s, t@)));
    } else if starts_with_exec(t, &chars_of("You played ")) {
        let v = sub_vec(t, 11, m);
        proof {
            lemma_played_nonneg(v@, v@.len() as int);
        }
        match played_exec(&v) {
            Some(x) => {
                e.duration = e.duration + x;
            },
            None => {},
        }
        assert(wm_is(*e, wm_step(s, t@)));
    } else if starts_with_exec(t, &chars_of("You finished in ")) {
        let d = digit_prefix_exec(&sub_vec(t, 16, m));
        e.place = match crate::parser::expresso::parse_u8_exec(&d) {
            Some(x) => x,
            None => 0,
        };
    } else if starts_with_exec(t, &chars_of("You won ")) {
        e.won = crate::parser::expresso::read_num(&sub_vec(t, 8, m));
    } else if starts_with_exec(t, &chars_of("Registered players : ")) {
        let (a, b) = trim_range(t, 21, m);
        e.players = match crate::parser::expresso::parse_u8_exec(&sub_vec(t, a, b)) {
            Some(x) => x,
            None => 3,
        };
    }
}

/// Reads a Winamax tournament summary (see `spec_wm_summary`).
#[verifier::rlimit(40)]
pub fn read_wm_summary(c: &str) -> (r: Option<WinamaxSummary>)
    requires
        spec_wm_fits(c@),
    ensures
        match r {
            None => spec_wm_summary(c@) is None,
            Some(h) => spec_wm_summary(c@) matches Some(t) && wm_reads(h, t),
        },
{
    proof {
        reveal_strlit("");
    }
    let cv = chars_of(c);
    let first = first_line_exec(&cv);
    let fs = string_of(&first, 0, first.len());
    assert(first@.subrange(0, first@.len() as int) =~= first@);
    let code = match crate::parser::stars::between(fs.as_str(), "(", ")") {
        Some(x) => x,
        None => return None,
    };
    let name_piece: Vec<char> = match crate::parser::expresso::second_piece_exec(&first, &chars_of(":")) {
        Some(x) => x,
        None => Vec::new(),
    };
    let nb = crate::parser::expresso::before_exec(&name_piece, &chars_of("("));
    let (na, nz) = trim_range(&nb, 0, nb.len());
    assert(nb@.subrange(0, nb@.len() as int) =~= nb@);
    let name = string_of(&nb, na, nz);
    let lines = crate::parser::expresso::text_lines(c);
    let ghost ls = line_texts(c@);
    let n = lines.len();
    let mut e = WmExec {
        hero: Vec::new(),
        buyin: Vec::new(),
        rake: Vec::new(),
        prize: crate::parser::expresso::zero(),
        start: 0,
        duration: 0,
        place: 0,
        won: crate::parser::expresso::zero(),
        players: 3,
    };
    let mut k: usize = 0;
    while k < n
        invariant
            k <= n == ls.len(),
            ls == line_texts(c@),
            views(lines@) == ls,
            wm_is(e, wm_upto(ls, k as int)),
            wm_dates_fit(ls, n as int),
            wm_upto(ls, n as int).duration <= i64::MAX,
        decreases n - k,
    {
        let line = &lines[k];
        assert(views(lines@)[k as int] == line@);
        let (a, b) = trim_range(line, 0, line.len());
        assert(line@.subrange(0, line@.len() as int) =~= line@);
        let t = sub_vec(line, a, b);
        proof {
            lemma_wm_duration_grows(ls, k + 1, n as int);
            lemma_wm_duration_nonneg(ls, k as int);
            lemma_wm_dates_prefix(ls, k + 1, n as int);
        }
        wm_line(&mut e, &t, Ghost(wm_upto(ls, k as int)));
        k = k + 1;
    }
    let h = WinamaxSummary {
        code,
        name,
        hero: string_of(&e.hero, 0, e.hero.len()),
        buyin: e.buyin,
        rake: e.rake,
        prize: e.prize,
        start: e.start,
        duration: e.duration,
        place: e.place,
        won: e.won,
        players: e.players,
    };
    assert(e.hero@.subrange(0, e.hero@.len() as int) =~= e.hero@);
    Some(h)
}

proof fn lemma_wm_dates_prefix(ls: Seq<Seq<char>>, a: int, b: int)
    requires
        a <= b,
        wm_dates_fit(ls, b),
    ensures
        wm_dates_fit(ls, a),
    decreases b - a,
{
    if a < b {
        lemma_wm_dates_prefix(ls, a, b - 1);
    }
}

// ---------------------------------------------------------------- PokerStars

/// The pieces among the first `k` that read as numbers greater than zero.
pub open spec fn positive_pieces(ps: Seq<Seq<char>>, k: int) -> Seq<Seq<char>>
    decreases k,
{
    if k <= 0 {
        Seq::empty()
    } else {
        let prev = positive_pieces(ps, k - 1);
        if text_positive(ps[k - 1]) {
            prev.push(ps[k - 1])
        } else {
            prev
        }
    }
}

/// The text reads as a number other than zero.
pub open spec fn text_nonzero(t: Seq<char>) -> bool {
    exists|i: int| 0 <= i < spec_parse_num(t).1.len() && spec_parse_num(t).1[i] != 0
}

/// What the lines of a PokerStars summary say after some of them (the last line of each
/// kind counts).
pub struct PsState {
    /// the buy-in amounts greater than zero ("€4.60/€0.40" or "+")
    pub buyin: Seq<Seq<char>>,
    /// those of the last buy-in line with at least two of them
    pub split: Seq<Seq<char>>,
    pub prize: Seq<char>,
    /// the first number of the last line that ends with "players", if it has one
    pub players: Option<Seq<char>>,
    pub place: u8,
    pub start: int,
    /// the amount of the first "1: Name (Country), €10.00" line that is not zero
    pub won: Seq<char>,
}

pub open spec fn ps_start() -> PsState {
    PsState {
        buyin: Seq::empty(),
        split: Seq::empty(),
        prize: Seq::empty(),
        players: None,
        place: 0,
        start: 0,
        won: Seq::empty(),
    }
}

/// One trimmed line of a PokerStars summary.
pub open spec fn ps_step(st: PsState, l: Seq<char>) -> PsState {
    let n = l.len() as int;
    if starts_with(l, "Buy-In:"@) {
        let ps = split_on(slash_as_plus(l.subrange(7, n)), '+');
        let pos = positive_pieces(ps, ps.len() as int);
        PsState { buyin: pos, split: if pos.len() >= 2 { pos } else { st.split }, ..st }
    } else if starts_with(l, "Total Prize Pool:"@) {
        PsState { prize: first_word(l.subrange(17, n)), ..st }
    } else if ends_with(l, "players"@) {
        PsState {
            players: if first_number_text(l).len() > 0 { Some(first_number_text(l)) } else { None },
            ..st
        }
    } else if starts_with(l, "You finished in "@) {
        PsState {
            place: match parse_u8(digit_prefix(l.subrange(16, n))) {
                Some(x) => x,
                None => 0,
            },
            ..st
        }
    } else if starts_with(l, "Tournament started"@) {
        PsState {
            start: match spec_find_date(l) {
                Some(t) => t,
                None => 0,
            },
            ..st
        }
    } else if starts_with(l, "1:"@) && contains(l, "("@) {
        if text_nonzero(st.won) {
            st
        } else {
            match second_piece(l, "),"@) {
                Some(v) => PsState { won: first_word(v), ..st },
                None => st,
            }
        }
    } else {
        st
    }
}

pub open spec fn ps_upto(ls: Seq<Seq<char>>, k: int) -> PsState
    decreases k,
{
    if k <= 0 {
        ps_start()
    } else {
        ps_step(ps_upto(ls, k - 1), trim(ls[k - 1]))
    }
}

/// Every start date among the first `k` lines can be computed.
pub open spec fn ps_dates_fit(ls: Seq<Seq<char>>, k: int) -> bool
    decreases k,
{
    k <= 0 || (ps_dates_fit(ls, k - 1) && (ps_date_line(trim(ls[k - 1])) ==> date_pair_fits(trim(ls[k - 1]))))
}

/// A line read as the start of the tournament.
pub open spec fn ps_date_line(l: Seq<char>) -> bool {
    &&& !starts_with(l, "Buy-In:"@)
    &&& !starts_with(l, "Total Prize Pool:"@)
    &&& !ends_with(l, "players"@)
    &&& !starts_with(l, "You finished in "@)
    &&& starts_with(l, "Tournament started"@)
}

/// A PokerStars summary can be read: its dates can be computed.
pub open spec fn spec_ps_fits(c: Seq<char>) -> bool {
    let ls = line_texts(strip_bom(c));
    ps_dates_fit(ls, ls.len() as int)
}

/// What a PokerStars summary says: the tournament's number (the digits after
/// "Tournament #" in its first line), and what its lines say; the amount won counts only
/// for the first place.
pub struct PsSummaryText {
    pub code: Seq<char>,
    pub lines: PsState,
    pub won: Seq<char>,
}

pub open spec fn spec_ps_summary(c: Seq<char>) -> Option<PsSummaryText> {
    let body = strip_bom(c);
    let first = first_line(trim_start_by(body, 0));
    let code = digit_prefix(or_text(spec_between(first, "Tournament #"@, ","@), Seq::empty()));
    let ls = line_texts(body);
    let st = ps_upto(ls, ls.len() as int);
    if code.len() == 0 {
        None
    } else {
        Some(PsSummaryText { code, lines: st, won: if st.place == 1 { st.won } else { Seq::empty() } })
    }
}

/// A PokerStars summary as read.
pub struct PokerStarsSummary {
    pub code: String,
    pub buyin: Vec<Decimal>,
    pub split: Vec<Decimal>,
    pub prize: Decimal,
    pub players: Option<Decimal>,
    pub place: u8,
    pub start: i64,
    pub won: Decimal,
}

pub open spec fn ps_reads(h: PokerStarsSummary, t: PsSummaryText) -> bool {
    &&& h.code@ == t.code
    &&& decs_are(h.buyin@, t.lines.buyin)
    &&& decs_are(h.split@, t.lines.split)
    &&& dec_is(h.prize, t.lines.prize)
    &&& (match h.players {
        Some(d) => t.lines.players matches Some(x) && dec_is(d, x),
        None => t.lines.players is None,
    })
    &&& h.place == t.lines.place
    &&& h.start == t.lines.start
    &&& dec_is(h.won, t.won)
}

struct PsExec {
    buyin: Vec<Decimal>,
    split: Vec<Decimal>,
    prize: Decimal,
    players: Option<Decimal>,
    place: u8,
    start: i64,
    won: Decimal,
}

spec fn ps_is(e: PsExec, s: PsState) -> bool {
    &&& decs_are(e.buyin@, s.buyin)
    &&& decs_are(e.split@, s.split)
    &&& dec_is(e.prize, s.prize)
    &&& (match e.players {
        Some(d) => s.players matches Some(x) && dec_is(d, x),
        None => s.players is None,
    })
    &&& e.place == s.place
    &&& e.start == s.start
    &&& dec_is(e.won, s.won)
}

/// Buy-in amounts greater than zero of a "Buy-In:" value (see `positive_pieces`).
fn positive_exec(v: &Vec<char>) -> (out: Vec<Decimal>)
    ensures
        decs_are(
            out@,
            positive_pieces(split_on(slash_as_plus(v@), '+'), split_on(slash_as_plus(v@), '+').len() as int),
        ),
{
    let ps = crate::parser::expresso::split_chars(&crate::parser::stars_hand::slash_as_plus_exec(v), '+');
    let ghost pv = views(ps@);
    let mut out: Vec<Decimal> = Vec::new();
    let mut k: usize = 0;
    while k < ps.len()
        invariant
            k <= ps@.len() == pv.len(),
            pv == views(ps@),
            pv == split_on(slash_as_plus(v@), '+'),
            decs_are(out@, positive_pieces(pv, k as int)),
        decreases ps@.len() - k,
    {
        assert(pv[k as int] == ps@[k as int]@);
        let d = crate::parser::expresso::read_num(&ps[k]);
        let pos = crate::parser::stars_hand::dec_positive(&d);
        assert(spec_parse_num(ps@[k as int]@).1 == d.digits@);
        assert(pos == text_positive(pv[k as int]));
        if pos {
            let ghost ob = out@;
            out.push(d);
            proof {
                assert forall|i: int| 0 <= i < out@.len() implies dec_is(#[trigger] out@[i], positive_pieces(pv, k + 1)[i]) by {
                    if i < ob.len() {
                        assert(out@[i] == ob[i]);
                    }
                }
            }
        }
        k = k + 1;
    }
    out
}

fn dec_nonzero(d: &Decimal) -> (r: bool)
    ensures
        r == (exists|i: int| 0 <= i < d.digits@.len() && d.digits@[i] != 0),
{
    let mut i: usize = 0;
    while i < d.digits.len()
        invariant
            i <= d.digits@.len(),
            forall|j: int| 0 <= j < i ==> d.digits@[j] == 0,
        decreases d.digits@.len() - i,
    {
        if d.digits[i] != 0 {
            assert(d.digits@[i as int] != 0);
            return true;
        }
        i = i + 1;
    }
    false
}

/// One trimmed line of a PokerStars summary (see `ps_step`).
#[verifier::rlimit(40)]
fn ps_line(e: &mut PsExec, t: &Vec<char>, Ghost(s): Ghost<PsState>)
    requires
        ps_is(*old(e), s),
        ps_date_line(t@) ==> date_pair_fits(t@),
    ensures
        ps_is(*final(e), ps_step(s, t@)),
{
    proof {
        reveal_strlit("Buy-In:");
        reveal_strlit("Total Prize Pool:");
        reveal_strlit("You finished in ");
        reveal_strlit("1:");
        reveal_strlit("(");
        reveal_strlit("),");
    }
    let m = t.len();
    if starts_with_exec(t, &chars_of("Buy-In:")) {
        let pos = positive_exec(&sub_vec(t, 7, m));
        if pos.len() >= 2 {
            e.split = decs_copy(&pos, 0);
        }
        e.buyin = pos;
    } else if starts_with_exec(t, &chars_of("Total Prize Pool:")) {
        let w = crate::parser::stars_hand::first_word_exec(&sub_vec(t, 17, m));
        e.prize = crate::parser::expresso::read_num(&w);
    } else if ends_with_exec(t, &chars_of("players")) {
        e.players = first_num_opt(t);
    } else if starts_with_exec(t, &chars_of("You finished in ")) {
        let d = digit_prefix_exec(&sub_vec(t, 16, m));
        e.place = match crate::parser::expresso::parse_u8_exec(&d) {
            Some(x) => x,
            None => 0,
        };
    } else if starts_with_exec(t, &chars_of("Tournament started")) {
        let ts = string_of(t, 0, m);
        assert(t@.subrange(0, m as int) =~= t@);
        e.start = match crate::parser::stars::find_date(ts.as_str()) {
            Some(x) => x,
            None => 0,
        };
    } else if starts_with_exec(t, &chars_of("1:")) && contains_exec(t, &chars_of("(")) {
        let nz = dec_nonzero(&e.won);
        assert(spec_parse_num(s.won).1 == e.won.digits@);
        if !nz {
            match crate::parser::expresso::second_piece_exec(t, &chars_of("),")) {
                Some(v) => {
                    let w = crate::parser::stars_hand::first_word_exec(&v);
                    e.won = crate::parser::expresso::read_num(&w);
                },
                None => {},
            }
        }
    }
}

proof fn lemma_ps_dates_prefix(ls: Seq<Seq<char>>, a: int, b: int)
    requires
        a <= b,
        ps_dates_fit(ls, b),
    ensures
        ps_dates_fit(ls, a),
    decreases b - a,
{
    if a < b {
        lemma_ps_dates_prefix(ls, a, b - 1);
    }
}

/// Whether a PokerStars summary can be read (see `spec_ps_fits`).
pub fn ps_fits(c: &str) -> (r: bool)
    ensures
        r == spec_ps_fits(c@),
{
    let v = crate::parser::stars_hand::strip_bom_exec(&chars_of(c));
    let body = string_of(&v, 0, v.len());
    assert(v@.subrange(0, v@.len() as int) =~= v@);
    let lines = crate::parser::expresso::text_lines(body.as_str());
    let ghost ls = line_texts(strip_bom(c@));
    let n = lines.len();
    let mut ok = true;
    let mut k: usize = 0;
    while k < n
        invariant
            k <= n == ls.len(),
            ls == line_texts(strip_bom(c@)),
            views(lines@) == ls,
            ok == ps_dates_fit(ls, k as int),
        decreases n - k,
    {
        let line = &lines[k];
        assert(views(lines@)[k as int] == line@);
        let (a, b) = trim_range(line, 0, line.len());
        assert(line@.subrange(0, line@.len() as int) =~= line@);
        let t = sub_vec(line, a, b);
        let date_line = !starts_with_exec(&t, &chars_of("Buy-In:")) && !starts_with_exec(&t, &chars_of("Total Prize Pool:"))
            && !ends_with_exec(&t, &chars_of("players")) && !starts_with_exec(&t, &chars_of("You finished in "))
            && starts_with_exec(&t, &chars_of("Tournament started"));
        if date_line {
            let ts = string_of(&t, 0, t.len());
            assert(t@.subrange(0, t@.len() as int) =~= t@);
            let fits = crate::parser::stars::find_date_in_range(ts.as_str());
            ok = ok && fits;
        }
        k = k + 1;
    }
    ok
}

/// Reads a PokerStars tournament summary (see `spec_ps_summary`).
#[verifier::rlimit(40)]
pub fn read_ps_summary(c: &str) -> (r: Option<PokerStarsSummary>)
    requires
        spec_ps_fits(c@),
    ensures
        match r {
            None => spec_ps_summary(c@) is None,
            Some(h) => spec_ps_summary(c@) matches Some(t) && ps_reads(h, t),
        },
{
    proof {
        reveal_strlit("");
    }
    let v = crate::parser::stars_hand::strip_bom_exec(&chars_of(c));
    let a0 = trim_start_index(&v);
    let first = first_line_exec(&sub_vec(&v, a0, v.len()));
    let fs = string_of(&first, 0, first.len());
    assert(first@.subrange(0, first@.len() as int) =~= first@);
    let between: Vec<char> = match crate::parser::stars::between(fs.as_str(), "Tournament #", ",") {
        Some(x) => chars_of(x.as_str()),
        None => Vec::new(),
    };
    let code = digit_prefix_exec(&between);
    if code.len() == 0 {
        return None;
    }
    let body = string_of(&v, 0, v.len());
    assert(v@.subrange(0, v@.len() as int) =~= v@);
    let lines = crate::parser::expresso::text_lines(body.as_str());
    let ghost ls = line_texts(strip_bom(c@));
    let n = lines.len();
    let mut e = PsExec {
        buyin: Vec::new(),
        split: Vec::new(),
        prize: crate::parser::expresso::zero(),
        players: None,
        place: 0,
        start: 0,
        won: crate::parser::expresso::zero(),
    };
    let mut k: usize = 0;
    while k < n
        invariant
            k <= n == ls.len(),
            ls == line_texts(strip_bom(c@)),
            views(lines@) == ls,
            ps_is(e, ps_upto(ls, k as int)),
            ps_dates_fit(ls, n as int),
        decreases n - k,
    {
        let line = &lines[k];
        assert(views(lines@)[k as int] == line@);
        let (a, b) = trim_range(line, 0, line.len());
        assert(line@.subrange(0, line@.len() as int) =~= line@);
        let t = sub_vec(line, a, b);
        proof {
            lemma_ps_dates_prefix(ls, k + 1, n as int);
        }
        ps_line(&mut e, &t, Ghost(ps_upto(ls, k as int)));
        k = k + 1;
    }
    let won = if e.place == 1 { dec_copy(&e.won) } else { crate::parser::expresso::zero() };
    let h = PokerStarsSummary {
        code: string_of(&code, 0, code.len()),
        buyin: e.buyin,
        split: e.split,
        prize: e.prize,
        players: e.players,
        place: e.place,
        start: e.start,
        won,
    };
    assert(code@.subrange(0, code@.len() as int) =~= code@);
    Some(h)
}

} // verus!
