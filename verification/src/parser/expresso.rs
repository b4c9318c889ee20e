//! Reading one Winamax Expresso hand: header, seats, and the lines of play, into exact
//! values (amounts as written, read as decimals). Pots and stacks are then summed by the
//! caller.
use vstd::prelude::*;
use crate::model::{ActKind, Card};
use crate::parser::{Decimal, spec_parse_num, spec_parse_date, date_fits};
use crate::parser::winamax::{spec_between, bracket_cards, spec_tid_from_table, between_vec, cards_in_brackets, tid_from_table};
use crate::text::{trim_end_by, is_ws_exec, contains, find, find_from, rfind, starts_with, trim, chars_of, find_exec, rfind_exec, starts_with_exec, contains_exec, sub_vec, string_of, trim_range, lemma_find_from_range, lemma_rfind_range};

verus! {

// ---------------------------------------------------------------- text pieces

/// Text before the first `sep` (all of `s` without one): `s.split(sep).next()`.
pub open spec fn before(s: Seq<char>, sep: Seq<char>) -> Seq<char> {
    match find(s, sep) {
        Some(i) => s.subrange(0, i),
        None => s,
    }
}

/// Second piece of `s.split(sep)`: the text between the first and the second `sep`.
pub open spec fn second_piece(s: Seq<char>, sep: Seq<char>) -> Option<Seq<char>> {
    match find(s, sep) {
        Some(i) => Some(before(s.subrange(i + sep.len(), s.len() as int), sep)),
        None => None,
    }
}

/// Text after the last " - " (all of `s` without one): `s.rsplit(" - ").next()`.
pub open spec fn last_piece(s: Seq<char>) -> Seq<char> {
    match rfind(s, " - "@) {
        Some(i) => s.subrange(i + 3, s.len() as int),
        None => s,
    }
}

/// Text before the first ',' or ')'.
pub open spec fn before_comma_paren(s: Seq<char>) -> Seq<char>
    decreases s.len(),
{
    if s.len() == 0 {
        s
    } else if s[0] == ',' || s[0] == ')' {
        Seq::empty()
    } else {
        seq![s[0]] + before_comma_paren(s.drop_first())
    }
}

/// All characters are ASCII digits.
pub open spec fn all_digits(s: Seq<char>) -> bool {
    forall|i: int| 0 <= i < s.len() ==> '0' <= #[trigger] s[i] <= '9'
}

/// Value of a string of ASCII digits.
pub open spec fn digits_value(s: Seq<char>) -> int
    decreases s.len(),
{
    if s.len() == 0 {
        0
    } else {
        digits_value(s.drop_last()) * 10 + (s.last() as int - '0' as int)
    }
}

/// `s.parse::<u8>()`: an optional '+', then at least one ASCII digit, value at most 255.
pub open spec fn parse_u8(s: Seq<char>) -> Option<u8> {
    let body = if s.len() > 0 && s[0] == '+' { s.drop_first() } else { s };
    if body.len() > 0 && all_digits(body) && digits_value(body) <= 255 {
        Some(digits_value(body) as u8)
    } else {
        None
    }
}

// ---------------------------------------------------------------- header and seats

/// The header line names a tournament.
pub open spec fn head_ok(head: Seq<char>) -> bool {
    contains(head, "Tournament"@)
}

/// A seat line: starts with "Seat " and is not a section line.
pub open spec fn is_seat_line(l: Seq<char>) -> bool {
    starts_with(l, "Seat "@) && !contains(l, "***"@)
}

/// Seat line `Seat 1: Name (500)`: name, seat number (0 when unreadable), stack text; none
/// when the line has no ':' or no '(' after it.
pub open spec fn seat_line(l: Seq<char>) -> Option<(Seq<char>, u8, Seq<char>)> {
    let num = match spec_between(l, "Seat "@, ":"@) {
        Some(t) => match parse_u8(trim(t)) {
            Some(n) => n,
            None => 0u8,
        },
        None => 0u8,
    };
    match find(l, ":"@) {
        None => None,
        Some(c) => {
            let rest = l.subrange(c + 1, l.len() as int);
            match rfind(rest, "("@) {
                None => None,
                Some(o) => Some(
                    (
                        trim(rest.subrange(0, o)),
                        num,
                        before_comma_paren(rest.subrange(o + 1, rest.len() as int)),
                    ),
                ),
            }
        },
    }
}

/// The seats read from line `i` on, and the first line after them; none when a seat line
/// cannot be read.
pub open spec fn seats_from(lines: Seq<Seq<char>>, i: int) -> Option<(Seq<(Seq<char>, u8, Seq<char>)>, int)>
    decreases lines.len() - i,
{
    if 0 <= i < lines.len() && is_seat_line(lines[i]) {
        match seat_line(lines[i]) {
            None => None,
            Some(s) => match seats_from(lines, i + 1) {
                None => None,
                Some((rest, end)) => Some((seq![s] + rest, end)),
            },
        }
    } else {
        Some((Seq::empty(), i))
    }
}

// ---------------------------------------------------------------- lines of play

/// `l` starts with the seat name `name` followed by a space.
pub open spec fn starts_with_name(l: Seq<char>, name: Seq<char>) -> bool {
    starts_with(l, name) && name.len() < l.len() && l[name.len() as int] == ' '
}

/// Length of the name of a speaker found (0 for none).
pub open spec fn name_len(b: Option<(int, int)>) -> int {
    match b {
        Some(x) => x.1,
        None => 0,
    }
}

/// Seat whose name starts the line (the longest such name, the first of equal ones), and the
/// length of that name, among the first `k` seats.
pub open spec fn speaker(names: Seq<Seq<char>>, l: Seq<char>, k: int) -> Option<(int, int)>
    decreases k,
{
    if k <= 0 {
        None
    } else {
        let b = speaker(names, l, k - 1);
        if starts_with_name(l, names[k - 1]) && (b is None || names[k - 1].len() > name_len(b)) {
            Some((k - 1, names[k - 1].len() as int))
        } else {
            b
        }
    }
}

/// First seat named `n` among the first `k` seats.
pub open spec fn seat_named(names: Seq<Seq<char>>, n: Seq<char>, k: int) -> Option<int>
    decreases k,
{
    if k <= 0 {
        None
    } else {
        match seat_named(names, n, k - 1) {
            Some(x) => Some(x),
            None => if names[k - 1] == n {
                Some(k - 1)
            } else {
                None
            },
        }
    }
}

/// A line of play read as an action: kind and amount text (for a raise, the total it
/// raises to).
pub open spec fn verb_action(verb: Seq<char>) -> Option<(ActKind, Seq<char>)> {
    if starts_with(verb, "posts small blind"@) {
        Some((ActKind::SmallBlind, verb.subrange(17, verb.len() as int)))
    } else if starts_with(verb, "posts big blind"@) {
        Some((ActKind::BigBlind, verb.subrange(15, verb.len() as int)))
    } else if starts_with(verb, "posts ante"@) {
        Some((ActKind::Ante, verb.subrange(10, verb.len() as int)))
    } else if starts_with(verb, "folds"@) {
        Some((ActKind::Fold, Seq::empty()))
    } else if starts_with(verb, "checks"@) {
        Some((ActKind::Check, Seq::empty()))
    } else if starts_with(verb, "calls"@) {
        Some((ActKind::Call, before(verb.subrange(5, verb.len() as int), " and"@)))
    } else if starts_with(verb, "bets"@) {
        Some((ActKind::Bet, before(verb.subrange(4, verb.len() as int), " and"@)))
    } else if starts_with(verb, "raises"@) {
        Some(
            (
                ActKind::Raise,
                match second_piece(verb, " to "@) {
                    Some(x) => before(x, " and"@),
                    None => Seq::empty(),
                },
            ),
        )
    } else {
        None
    }
}

/// State of the reader after some lines of play: in the summary, street, number of street
/// lines seen, board, hero's name, known hole cards per seat, actions (street, seat, kind,
/// amount text, all-in, street lines seen before it), amounts collected (seat, amount text).
pub struct PlayState {
    pub summary: bool,
    pub street: u8,
    pub part: int,
    pub board: Seq<u8>,
    pub hero_name: Seq<char>,
    pub cards: Seq<Option<(u8, u8)>>,
    pub acts: Seq<(u8, u8, ActKind, Seq<char>, bool, int)>,
    pub collects: Seq<(u8, Seq<char>)>,
}

/// The state before the first line of play, for `n` seats.
pub open spec fn start_state(n: int) -> PlayState {
    PlayState {
        summary: false,
        street: 0,
        part: 0,
        board: Seq::empty(),
        hero_name: Seq::empty(),
        cards: Seq::new(n as nat, |i: int| None),
        acts: Seq::empty(),
        collects: Seq::empty(),
    }
}

/// One line of play.
pub open spec fn play_step(st: PlayState, names: Seq<Seq<char>>, l: Seq<char>) -> PlayState {
    if starts_with(l, "*** SUMMARY"@) {
        PlayState { summary: true, ..st }
    } else if st.summary {
        st
    } else if starts_with(l, "Dealt to "@) {
        let r = l.subrange(9, l.len() as int);
        let cut = match rfind(r, "["@) {
            Some(i) => i,
            None => r.len() as int,
        };
        let n = trim(r.subrange(0, cut));
        let cs = bracket_cards(r);
        match seat_named(names, n, names.len() as int) {
            Some(k) => if cs.len() == 2 {
                PlayState { hero_name: n, cards: st.cards.update(k, Some((cs[0], cs[1]))), ..st }
            } else {
                PlayState { hero_name: n, ..st }
            },
            None => PlayState { hero_name: n, ..st },
        }
    } else if starts_with(l, "*** FLOP"@) || starts_with(l, "*** TURN"@) || starts_with(l, "*** RIVER"@) {
        let street: u8 = if starts_with(l, "*** FLOP"@) {
            1
        } else if starts_with(l, "*** TURN"@) {
            2
        } else {
            3
        };
        PlayState { street, part: st.part + 1, board: bracket_cards(l), ..st }
    } else if starts_with(l, "***"@) {
        st
    } else {
        match speaker(names, l, names.len() as int) {
            None => st,
            Some((k, nl)) => {
                let verb = trim(l.subrange(nl, l.len() as int));
                let allin = contains(verb, "all-in"@);
                if starts_with(verb, "shows"@) {
                    let cs = bracket_cards(verb);
                    if cs.len() >= 2 {
                        PlayState { cards: st.cards.update(k, Some((cs[0], cs[1]))), ..st }
                    } else {
                        st
                    }
                } else if starts_with(verb, "collected"@) {
                    PlayState {
                        collects: st.collects.push(
                            (k as u8, before(verb.subrange(9, verb.len() as int), " from"@)),
                        ),
                        ..st
                    }
                } else {
                    match verb_action(verb) {
                        Some((kind, text)) => PlayState {
                            acts: st.acts.push((st.street, k as u8, kind, text, allin, st.part)),
                            ..st
                        },
                        None => st,
                    }
                }
            },
        }
    }
}

/// State after the lines of play `lines[from..to]`.
pub open spec fn play_upto(lines: Seq<Seq<char>>, names: Seq<Seq<char>>, from: int, to: int) -> PlayState
    decreases to - from,
{
    if to <= from {
        start_state(names.len() as int)
    } else {
        play_step(play_upto(lines, names, from, to - 1), names, lines[to - 1])
    }
}

/// The names of the seats.
pub open spec fn seat_names(seats: Seq<(Seq<char>, u8, Seq<char>)>) -> Seq<Seq<char>> {
    Seq::new(seats.len(), |i: int| seats[i].0)
}

/// First seat with seat number `num`, among the first `k`.
pub open spec fn seat_numbered(seats: Seq<(Seq<char>, u8, Seq<char>)>, num: u8, k: int) -> Option<int>
    decreases k,
{
    if k <= 0 {
        None
    } else {
        match seat_numbered(seats, num, k - 1) {
            Some(x) => Some(x),
            None => if seats[k - 1].1 == num {
                Some(k - 1)
            } else {
                None
            },
        }
    }
}

/// A hand as written: header fields, seats, lines of play.
pub struct HandText {
    pub tid: Seq<char>,
    pub name: Seq<char>,
    pub buy: Seq<char>,
    pub hid: Seq<char>,
    pub blinds: (Seq<char>, Seq<char>, Seq<char>),
    pub ts: int,
    pub button: int,
    pub seats: Seq<(Seq<char>, u8, Seq<char>)>,
    pub hero: int,
    pub play: PlayState,
}

/// Pieces of `s` between the separators `sep` (one character): `s.split(sep)`.
pub open spec fn split_on(s: Seq<char>, sep: char) -> Seq<Seq<char>>
    decreases s.len(),
{
    if s.len() == 0 {
        seq![Seq::empty()]
    } else {
        let r = split_on(s.drop_last(), sep);
        if s.last() == sep {
            r.push(Seq::empty())
        } else {
            r.update(r.len() - 1, r.last().push(s.last()))
        }
    }
}

pub(crate) proof fn lemma_split_on_len(s: Seq<char>, sep: char)
    ensures
        split_on(s, sep).len() >= 1,
    decreases s.len(),
{
    if s.len() > 0 {
        lemma_split_on_len(s.drop_last(), sep);
    }
}

/// Ante, small blind and big blind texts of the header's "(a/b/c)" or "(b/c)".
pub open spec fn blind_texts(p: Seq<Seq<char>>) -> (Seq<char>, Seq<char>, Seq<char>) {
    if p.len() == 3 {
        (p[0], p[1], p[2])
    } else if p.len() == 2 {
        (Seq::empty(), p[0], p[1])
    } else {
        (Seq::empty(), Seq::empty(), Seq::empty())
    }
}

/// A Winamax hand from its lines: the header names the tournament, the table line gives the
/// tournament number and the button seat, at least two seats are read, and the hero is one
/// of them.
pub open spec fn spec_read_hand(lines: Seq<Seq<char>>) -> Option<HandText> {
    if lines.len() < 2 || !head_ok(lines[0]) {
        None
    } else {
        let head = lines[0];
        let table = lines[1];
        match (spec_tid_from_table(table), seats_from(lines, 2)) {
            (Some(tid), Some((seats, end))) => {
                if seats.len() < 2 {
                    None
                } else {
                    let names = seat_names(seats);
                    let play = play_upto(lines, names, end, lines.len() as int);
                    let btn = match spec_between(table, "Seat #"@, " is"@) {
                        Some(t) => match parse_u8(t) {
                            Some(n) => n,
                            None => 0u8,
                        },
                        None => 0u8,
                    };
                    match seat_named(names, play.hero_name, names.len() as int) {
                        None => None,
                        Some(hero) => Some(
                            HandText {
                                tid,
                                name: match spec_between(head, "Tournament \""@, "\""@) {
                                    Some(x) => x,
                                    None => "Expresso"@,
                                },
                                buy: match spec_between(head, "buyIn: "@, " level"@) {
                                    Some(x) => x,
                                    None => Seq::empty(),
                                },
                                hid: match spec_between(head, "HandId: #"@, " "@) {
                                    Some(x) => x,
                                    None => Seq::empty(),
                                },
                                blinds: blind_texts(
                                    split_on(
                                        match spec_between(head, "("@, ")"@) {
                                            Some(x) => x,
                                            None => Seq::empty(),
                                        },
                                        '/',
                                    ),
                                ),
                                ts: match spec_parse_date(last_piece(head)) {
                                    Some(t) => t,
                                    None => 0,
                                },
                                button: match seat_numbered(seats, btn, seats.len() as int) {
                                    Some(b) => b,
                                    None => 0,
                                },
                                seats,
                                hero,
                                play,
                            },
                        ),
                    }
                }
            },
            _ => None,
        }
    }
}

// ---------------------------------------------------------------- reading, executable

pub(crate) fn before_exec(v: &Vec<char>, sep: &Vec<char>) -> (r: Vec<char>)
    ensures
        r@ == before(v@, sep@),
{
    match find_exec(v, sep, 0) {
        Some(i) => {
            proof {
                lemma_find_from_range(v@, sep@, 0);
            }
            sub_vec(v, 0, i)
        },
        None => {
            assert(v@.subrange(0, v@.len() as int) =~= v@);
            sub_vec(v, 0, v.len())
        },
    }
}

pub(crate) fn second_piece_exec(v: &Vec<char>, sep: &Vec<char>) -> (r: Option<Vec<char>>)
    ensures
        match r {
            Some(x) => second_piece(v@, sep@) == Some(x@),
            None => second_piece(v@, sep@) is None,
        },
{
    match find_exec(v, sep, 0) {
        Some(i) => {
            proof {
                lemma_find_from_range(v@, sep@, 0);
            }
            let n = v.len();
            assert(i + sep@.len() <= n);
            let rest = sub_vec(v, i + sep.len(), n);
            Some(before_exec(&rest, sep))
        },
        None => None,
    }
}

fn last_piece_exec(v: &Vec<char>) -> (r: Vec<char>)
    ensures
        r@ == last_piece(v@),
{
    let sep = chars_of(" - ");
    proof {
        reveal_strlit(" - ");
    }
    match rfind_exec(v, &sep) {
        Some(i) => {
            proof {
                lemma_rfind_range(v@, sep@);
            }
            let n = v.len();
            assert(i + 3 <= n);
            sub_vec(v, i + 3, n)
        },
        None => {
            assert(v@.subrange(0, v@.len() as int) =~= v@);
            sub_vec(v, 0, v.len())
        },
    }
}

proof fn lemma_before_comma_paren(s: Seq<char>, i: int)
    requires
        0 <= i <= s.len(),
        forall|j: int| 0 <= j < i ==> s[j] != ',' && s[j] != ')',
        i == s.len() || s[i] == ',' || s[i] == ')',
    ensures
        before_comma_paren(s) == s.subrange(0, i),
    decreases i,
{
    if i > 0 {
        lemma_before_comma_paren(s.drop_first(), i - 1);
        assert(seq![s[0]] + s.drop_first().subrange(0, i - 1) =~= s.subrange(0, i));
    } else if s.len() > 0 {
        assert(s.subrange(0, 0) =~= Seq::<char>::empty());
    } else {
        assert(s.subrange(0, 0) =~= s);
    }
}

fn before_comma_paren_exec(v: &Vec<char>) -> (r: Vec<char>)
    ensures
        r@ == before_comma_paren(v@),
{
    let mut i: usize = 0;
    while i < v.len() && v[i] != ',' && v[i] != ')'
        invariant
            i <= v@.len(),
            forall|j: int| 0 <= j < i ==> v@[j] != ',' && v@[j] != ')',
        decreases v@.len() - i,
    {
        i = i + 1;
    }
    proof {
        lemma_before_comma_paren(v@, i as int);
    }
    sub_vec(v, 0, i)
}

pub(crate) fn parse_u8_exec(v: &Vec<char>) -> (r: Option<u8>)
    ensures
        r == parse_u8(v@),
{
    let start: usize = if v.len() > 0 && v[0] == '+' { 1 } else { 0 };
    let ghost body = if v@.len() > 0 && v@[0] == '+' { v@.drop_first() } else { v@ };
    assert(body =~= v@.subrange(start as int, v@.len() as int));
    if start >= v.len() {
        return None;
    }
    let mut val: u32 = 0;
    let mut i = start;
    while i < v.len()
        invariant
            start <= i <= v@.len(),
            start < v@.len(),
            body =~= v@.subrange(start as int, v@.len() as int),
            body == (if v@.len() > 0 && v@[0] == '+' { v@.drop_first() } else { v@ }),
            all_digits(v@.subrange(start as int, i as int)),
            val == digits_value(v@.subrange(start as int, i as int)),
            val <= 255,
        decreases v@.len() - i,
    {
        let c = v[i];
        if c < '0' || c > '9' {
            assert(body[i - start] == c);
            assert(!all_digits(body));
            return None;
        }
        let d = (c as u32) - ('0' as u32);
        assert(v@.subrange(start as int, i + 1).drop_last() =~= v@.subrange(start as int, i as int));
        if val * 10 + d > 255 {
            proof {
                assert(body.subrange(0, i + 1 - start) =~= v@.subrange(start as int, i + 1));
                assert(all_digits(v@.subrange(start as int, i + 1)));
                lemma_digits_grow(body, i + 1 - start);
            }
            return None;
        }
        val = val * 10 + d;
        assert(all_digits(v@.subrange(start as int, i + 1)));
        i = i + 1;
    }
    assert(v@.subrange(start as int, i as int) =~= body);
    Some(val as u8)
}

/// A digit string's value is at least the value of any of its prefixes.
pub(crate) proof fn lemma_digits_grow(s: Seq<char>, k: int)
    requires
        0 <= k <= s.len(),
        all_digits(s.subrange(0, k)),
    ensures
        all_digits(s) ==> digits_value(s) >= digits_value(s.subrange(0, k)),
    decreases s.len() - k,
{
    if all_digits(s) && k < s.len() {
        assert(all_digits(s.subrange(0, k + 1)));
        lemma_digits_grow(s, k + 1);
        assert(s.subrange(0, k + 1).drop_last() =~= s.subrange(0, k));
        assert(digits_value(s.subrange(0, k)) >= 0) by {
            lemma_digits_nonneg(s.subrange(0, k));
        }
        assert(digits_value(s.subrange(0, k + 1)) >= digits_value(s.subrange(0, k))) by (nonlinear_arith)
            requires
                digits_value(s.subrange(0, k + 1)) == digits_value(s.subrange(0, k)) * 10 + (s[k] as int
                    - '0' as int),
                '0' <= s[k] <= '9',
                digits_value(s.subrange(0, k)) >= 0,
        ;
    } else if all_digits(s) {
        assert(s.subrange(0, k) =~= s);
    }
}

pub(crate) proof fn lemma_digits_nonneg(s: Seq<char>)
    requires
        all_digits(s),
    ensures
        digits_value(s) >= 0,
    decreases s.len(),
{
    if s.len() > 0 {
        assert(all_digits(s.drop_last()));
        lemma_digits_nonneg(s.drop_last());
    }
}

/// `d` is the decimal read from `t`.
pub open spec fn dec_is(d: Decimal, t: Seq<char>) -> bool {
    (d.negative, d.digits@, d.scale as int) == spec_parse_num(t)
}

pub(crate) fn read_num(v: &Vec<char>) -> (d: Decimal)
    ensures
        dec_is(d, v@),
{
    let s = string_of(v, 0, v.len());
    assert(v@.subrange(0, v@.len() as int) =~= v@);
    crate::parser::parse_num(s.as_str())
}

pub(crate) fn zero() -> (d: Decimal)
    ensures
        dec_is(d, Seq::empty()),
{
    let v: Vec<char> = Vec::new();
    read_num(&v)
}

/// The amounts of a buy-in written as parts joined by '+' ("4,60€ + 0,40€"), each read
/// as `parse_num` reads it.
pub fn buyin_parts(s: &str) -> (r: Vec<Decimal>)
    ensures
        r@.len() == split_on(s@, '+').len(),
        forall|j: int| 0 <= j < r@.len() ==> dec_is(#[trigger] r@[j], split_on(s@, '+')[j]),
{
    split_nums(&chars_of(s), '+')
}

/// Decimals read from the pieces of `v` between the separators `sep`.
pub(crate) fn split_nums(v: &Vec<char>, sep: char) -> (out: Vec<Decimal>)
    ensures
        out@.len() == split_on(v@, sep).len(),
        forall|j: int| 0 <= j < out@.len() ==> dec_is(#[trigger] out@[j], split_on(v@, sep)[j]),
{
    let mut out: Vec<Decimal> = Vec::new();
    let mut cur: Vec<char> = Vec::new();
    let mut i: usize = 0;
    while i < v.len()
        invariant
            i <= v@.len(),
            out@.len() + 1 == split_on(v@.take(i as int), sep).len(),
            forall|j: int| 0 <= j < out@.len() ==> dec_is(#[trigger] out@[j], split_on(v@.take(i as int), sep)[j]),
            cur@ == split_on(v@.take(i as int), sep).last(),
        decreases v@.len() - i,
    {
        let c = v[i];
        let ghost t = v@.take(i + 1);
        assert(t.drop_last() =~= v@.take(i as int));
        proof {
            lemma_split_on_len(v@.take(i as int), sep);
        }
        if c == sep {
            out.push(read_num(&cur));
            cur = Vec::new();
        } else {
            cur.push(c);
        }
        i = i + 1;
    }
    assert(v@.take(v@.len() as int) =~= v@);
    out.push(read_num(&cur));
    out
}

pub(crate) fn blinds_of(v: &Vec<char>) -> (r: (Decimal, Decimal, Decimal))
    ensures
        dec_is(r.0, blind_texts(split_on(v@, '/')).0),
        dec_is(r.1, blind_texts(split_on(v@, '/')).1),
        dec_is(r.2, blind_texts(split_on(v@, '/')).2),
{
    let mut b = split_nums(v, '/');
    if b.len() == 3 {
        let c = b.pop().unwrap();
        let s = b.pop().unwrap();
        let a = b.pop().unwrap();
        (a, s, c)
    } else if b.len() == 2 {
        let c = b.pop().unwrap();
        let s = b.pop().unwrap();
        (zero(), s, c)
    } else {
        (zero(), zero(), zero())
    }
}

fn seat_line_exec(l: &Vec<char>) -> (r: Option<(String, u8, Decimal)>)
    ensures
        match r {
            None => seat_line(l@) is None,
            Some((n, num, st)) => seat_line(l@) matches Some((sn, snum, stext)) && n@ == sn && num
                == snum && dec_is(st, stext),
        },
{
    let num: u8 = match between_vec(l, &chars_of("Seat "), &chars_of(":")) {
        Some(t) => {
            let (a, b) = trim_range(&t, 0, t.len());
            assert(t@.subrange(0, t@.len() as int) =~= t@);
            match parse_u8_exec(&sub_vec(&t, a, b)) {
                Some(n) => n,
                None => 0,
            }
        },
        None => 0,
    };
    let colon = chars_of(":");
    let c = match find_exec(l, &colon, 0) {
        Some(c) => c,
        None => return None,
    };
    proof {
        lemma_find_from_range(l@, colon@, 0);
        reveal_strlit(":");
    }
    let n = l.len();
    let rest = sub_vec(l, c + 1, n);
    let open = chars_of("(");
    let o = match rfind_exec(&rest, &open) {
        Some(o) => o,
        None => return None,
    };
    proof {
        lemma_rfind_range(rest@, open@);
        reveal_strlit("(");
    }
    let m = rest.len();
    let (a, b) = trim_range(&rest, 0, o);
    let name = string_of(&rest, a, b);
    let st = read_num(&before_comma_paren_exec(&sub_vec(&rest, o + 1, m)));
    Some((name, num, st))
}

/// Views of a list of character vectors.
pub open spec fn views(v: Seq<Vec<char>>) -> Seq<Seq<char>> {
    Seq::new(v.len(), |i: int| v[i]@)
}

fn speaker_exec(names: &Vec<Vec<char>>, l: &Vec<char>) -> (r: Option<(usize, usize)>)
    ensures
        match r {
            None => speaker(views(names@), l@, names@.len() as int) is None,
            Some((k, nl)) => speaker(views(names@), l@, names@.len() as int) == Some((k as int, nl as int))
                && k < names@.len() && nl < l@.len(),
        },
{
    let mut best: Option<(usize, usize)> = None;
    let mut k: usize = 0;
    while k < names.len()
        invariant
            k <= names@.len(),
            match best {
                None => speaker(views(names@), l@, k as int) is None,
                Some((b, nl)) => speaker(views(names@), l@, k as int) == Some((b as int, nl as int)) && b < k
                    && nl < l@.len(),
            },
        decreases names@.len() - k,
    {
        let name = &names[k];
        assert(views(names@)[k as int] == name@);
        let m = name.len();
        let hit = starts_with_exec(l, name) && m < l.len() && l[m] == ' ';
        let longer = match best {
            None => true,
            Some((_, nl)) => m > nl,
        };
        if hit && longer {
            best = Some((k, m));
        }
        k = k + 1;
    }
    best
}

fn seat_named_exec(names: &Vec<Vec<char>>, n: &Vec<char>) -> (r: Option<usize>)
    ensures
        match r {
            None => seat_named(views(names@), n@, names@.len() as int) is None,
            Some(k) => seat_named(views(names@), n@, names@.len() as int) == Some(k as int) && k
                < names@.len(),
        },
{
    let mut k: usize = 0;
    while k < names.len()
        invariant
            k <= names@.len(),
            seat_named(views(names@), n@, k as int) is None,
        decreases names@.len() - k,
    {
        assert(views(names@)[k as int] == names@[k as int]@);
        if crate::text::same_chars(&names[k], n) {
            proof {
                assert(seat_named(views(names@), n@, k + 1) == Some(k as int));
                lemma_seat_named_stable(views(names@), n@, k + 1, names@.len() as int);
            }
            return Some(k);
        }
        k = k + 1;
    }
    None
}

proof fn lemma_seat_named_stable(names: Seq<Seq<char>>, n: Seq<char>, k: int, m: int)
    requires
        0 <= k <= m,
        seat_named(names, n, k) is Some,
    ensures
        seat_named(names, n, m) == seat_named(names, n, k),
    decreases m - k,
{
    if m > k {
        lemma_seat_named_stable(names, n, k, m - 1);
    }
}

fn verb_action_exec(verb: &Vec<char>) -> (r: Option<(ActKind, Vec<char>)>)
    ensures
        match r {
            None => verb_action(verb@) is None,
            Some((k, t)) => verb_action(verb@) == Some((k, t@)),
        },
{
    let n = verb.len();
    let and = chars_of(" and");
    proof {
        reveal_strlit("posts small blind");
        reveal_strlit("posts big blind");
        reveal_strlit("posts ante");
        reveal_strlit("calls");
        reveal_strlit("bets");
    }
    if starts_with_exec(verb, &chars_of("posts small blind")) {
        Some((ActKind::SmallBlind, sub_vec(verb, 17, n)))
    } else if starts_with_exec(verb, &chars_of("posts big blind")) {
        Some((ActKind::BigBlind, sub_vec(verb, 15, n)))
    } else if starts_with_exec(verb, &chars_of("posts ante")) {
        Some((ActKind::Ante, sub_vec(verb, 10, n)))
    } else if starts_with_exec(verb, &chars_of("folds")) {
        Some((ActKind::Fold, Vec::new()))
    } else if starts_with_exec(verb, &chars_of("checks")) {
        Some((ActKind::Check, Vec::new()))
    } else if starts_with_exec(verb, &chars_of("calls")) {
        Some((ActKind::Call, before_exec(&sub_vec(verb, 5, n), &and)))
    } else if starts_with_exec(verb, &chars_of("bets")) {
        Some((ActKind::Bet, before_exec(&sub_vec(verb, 4, n), &and)))
    } else if starts_with_exec(verb, &chars_of("raises")) {
        let t = match second_piece_exec(verb, &chars_of(" to ")) {
            Some(x) => before_exec(&x, &and),
            None => Vec::new(),
        };
        Some((ActKind::Raise, t))
    } else {
        None
    }
}

// ---------------------------------------------------------------- the hand

/// A seat of a hand: name, seat number, starting stack as written, hole cards if known.
pub struct SeatText {
    pub name: String,
    pub seat: u8,
    pub stack: Decimal,
    pub cards: Option<[Card; 2]>,
}

/// An action as written: street, seat index, kind, amount (for a raise, the street total it
/// raises to), all-in as written, and the number of street lines before it (the amounts a
/// player puts in are counted again from zero after each street line).
pub struct ActText {
    pub street: u8,
    pub p: u8,
    pub kind: ActKind,
    pub amount: Decimal,
    pub allin: bool,
    pub part: usize,
}

/// A Winamax hand read from its lines.
pub struct WinamaxHand {
    /// "wmx:" and the tournament number
    pub tid: String,
    /// "wmx:" and the hand number
    pub id: String,
    pub name: String,
    pub buy: String,
    pub ante: Decimal,
    pub sb: Decimal,
    pub bb: Decimal,
    pub ts: i64,
    pub button: u8,
    pub hero_name: String,
    pub hero: u8,
    pub seats: Vec<SeatText>,
    pub board: Vec<Card>,
    pub actions: Vec<ActText>,
    /// amounts collected from the pots: seat index, amount
    pub collects: Vec<(u8, Decimal)>,
}

/// The views of the lines.
pub open spec fn line_views(lines: Seq<String>) -> Seq<Seq<char>> {
    Seq::new(lines.len(), |i: int| lines[i]@)
}

pub open spec fn cards_are(c: Option<[Card; 2]>, t: Option<(u8, u8)>) -> bool {
    match c {
        Some(a) => t == Some((a[0], a[1])),
        None => t is None,
    }
}

pub open spec fn act_is(a: ActText, t: (u8, u8, ActKind, Seq<char>, bool, int)) -> bool {
    a.street == t.0 && a.p == t.1 && a.kind == t.2 && dec_is(a.amount, t.3) && a.allin == t.4
        && a.part == t.5
}

/// `h` holds what `t` says: the identifiers with their "wmx:" prefix, the blinds, the seats
/// and their cards, the board, the actions and the amounts collected.
pub open spec fn reads(h: WinamaxHand, t: HandText) -> bool {
    &&& h.tid@ == "wmx:"@ + t.tid
    &&& h.id@ == "wmx:"@ + t.hid
    &&& h.name@ == t.name
    &&& h.buy@ == t.buy
    &&& dec_is(h.ante, t.blinds.0)
    &&& dec_is(h.sb, t.blinds.1)
    &&& dec_is(h.bb, t.blinds.2)
    &&& h.ts == t.ts
    &&& h.button == t.button as u8
    &&& h.hero_name@ == t.play.hero_name
    &&& h.hero == t.hero as u8
    &&& h.seats@.len() == t.seats.len()
    &&& forall|i: int|
        0 <= i < t.seats.len() ==> {
            &&& (#[trigger] h.seats@[i]).name@ == t.seats[i].0
            &&& h.seats@[i].seat == t.seats[i].1
            &&& dec_is(h.seats@[i].stack, t.seats[i].2)
            &&& cards_are(h.seats@[i].cards, t.play.cards[i])
        }
    &&& h.board@ == t.play.board
    &&& h.actions@.len() == t.play.acts.len()
    &&& forall|i: int| 0 <= i < t.play.acts.len() ==> act_is(#[trigger] h.actions@[i], t.play.acts[i])
    &&& h.collects@.len() == t.play.collects.len()
    &&& forall|i: int|
        0 <= i < t.play.collects.len() ==> (#[trigger] h.collects@[i]).0 == t.play.collects[i].0
            && dec_is(h.collects@[i].1, t.play.collects[i].1)
}

/// The reader's state while it goes through the lines of play.
struct Play {
    summary: bool,
    street: u8,
    part: usize,
    board: Vec<Card>,
    hero_name: Vec<char>,
    cards: Vec<Option<[Card; 2]>>,
    acts: Vec<ActText>,
    collects: Vec<(u8, Decimal)>,
}

spec fn play_is(p: Play, st: PlayState) -> bool {
    &&& p.summary == st.summary
    &&& p.street == st.street
    &&& p.part == st.part
    &&& p.board@ == st.board
    &&& p.hero_name@ == st.hero_name
    &&& p.cards@.len() == st.cards.len()
    &&& forall|i: int| 0 <= i < st.cards.len() ==> cards_are(#[trigger] p.cards@[i], st.cards[i])
    &&& p.acts@.len() == st.acts.len()
    &&& forall|i: int| 0 <= i < st.acts.len() ==> act_is(#[trigger] p.acts@[i], st.acts[i])
    &&& p.collects@.len() == st.collects.len()
    &&& forall|i: int|
        0 <= i < st.collects.len() ==> (#[trigger] p.collects@[i]).0 == st.collects[i].0 && dec_is(
            p.collects@[i].1,
            st.collects[i].1,
        )
}

proof fn lemma_play_step_cards(st: PlayState, names: Seq<Seq<char>>, l: Seq<char>)
    requires
        st.cards.len() == names.len(),
    ensures
        play_step(st, names, l).cards.len() == st.cards.len(),
{
    lemma_speaker_range(names, l, names.len() as int);
    reveal_strlit("Dealt to ");
    if starts_with(l, "Dealt to "@) {
        let r = l.subrange(9, l.len() as int);
        let cut = match rfind(r, "["@) {
            Some(i) => i,
            None => r.len() as int,
        };
        lemma_seat_named_range(names, trim(r.subrange(0, cut)), names.len() as int);
    }
}

proof fn lemma_speaker_range(names: Seq<Seq<char>>, l: Seq<char>, k: int)
    ensures
        speaker(names, l, k) matches Some(x) ==> 0 <= x.0 < k,
    decreases k,
{
    if k > 0 {
        lemma_speaker_range(names, l, k - 1);
    }
}

proof fn lemma_seat_named_range(names: Seq<Seq<char>>, n: Seq<char>, k: int)
    ensures
        seat_named(names, n, k) matches Some(x) ==> 0 <= x < k,
    decreases k,
{
    if k > 0 {
        lemma_seat_named_range(names, n, k - 1);
    }
}

fn set_cards(p: &mut Play, k: usize, cs: &Vec<Card>, Ghost(st): Ghost<PlayState>)
    requires
        play_is(*old(p), st),
        k < st.cards.len(),
        cs@.len() >= 2,
    ensures
        play_is(*final(p), PlayState { cards: st.cards.update(k as int, Some((cs@[0], cs@[1]))), ..st }),
{
    p.cards.set(k, Some([cs[0], cs[1]]));
    proof {
        let nst = PlayState { cards: st.cards.update(k as int, Some((cs@[0], cs@[1]))), ..st };
        assert forall|i: int| 0 <= i < nst.cards.len() implies cards_are(#[trigger] p.cards@[i], nst.cards[i]) by {
            if i != k {
                assert(p.cards@[i] == old(p).cards@[i]);
            }
        }
    }
}

fn play_line(p: &mut Play, names: &Vec<Vec<char>>, l: &Vec<char>, Ghost(st): Ghost<PlayState>)
    requires
        play_is(*old(p), st),
        st.cards.len() == names@.len(),
        old(p).part < usize::MAX,
    ensures
        play_is(*final(p), play_step(st, views(names@), l@)),
        final(p).part <= old(p).part + 1,
{
    let ghost nm = views(names@);
    proof {
        reveal_strlit("*** SUMMARY");
        reveal_strlit("Dealt to ");
        reveal_strlit("*** FLOP");
        reveal_strlit("*** TURN");
        reveal_strlit("*** RIVER");
        reveal_strlit("***");
        reveal_strlit("[");
        reveal_strlit("collected");
        reveal_strlit(" from");
    }
    let n = l.len();
    if starts_with_exec(l, &chars_of("*** SUMMARY")) {
        p.summary = true;
        return;
    }
    if p.summary {
        return;
    }
    if starts_with_exec(l, &chars_of("Dealt to ")) {
        let r = sub_vec(l, 9, n);
        let br = chars_of("[");
        let cut = match rfind_exec(&r, &br) {
            Some(i) => {
                proof {
                    lemma_rfind_range(r@, br@);
                }
                i
            },
            None => r.len(),
        };
        let (a, b) = trim_range(&r, 0, cut);
        let who = sub_vec(&r, a, b);
        let rs = string_of(&r, 0, r.len());
        assert(r@.subrange(0, r@.len() as int) =~= r@);
        let cs = cards_in_brackets(rs.as_str());
        let k = seat_named_exec(names, &who);
        let ghost st1 = PlayState { hero_name: who@, ..st };
        p.hero_name = who;
        match k {
            Some(k) => {
                if cs.len() == 2 {
                    set_cards(p, k, &cs, Ghost(st1));
                }
            },
            None => {},
        }
        return;
    }
    let fl = starts_with_exec(l, &chars_of("*** FLOP"));
    let tu = starts_with_exec(l, &chars_of("*** TURN"));
    let ri = starts_with_exec(l, &chars_of("*** RIVER"));
    if fl || tu || ri {
        p.street = if fl {
            1
        } else if tu {
            2
        } else {
            3
        };
        p.part = p.part + 1;
        let ls = string_of(l, 0, n);
        assert(l@.subrange(0, n as int) =~= l@);
        p.board = cards_in_brackets(ls.as_str());
        return;
    }
    if starts_with_exec(l, &chars_of("***")) {
        return;
    }
    match speaker_exec(names, l) {
        None => {},
        Some((k, nl)) => {
            let (a, b) = trim_range(l, nl, n);
            let verb = sub_vec(l, a, b);
            let m = verb.len();
            let allin = contains_exec(&verb, &chars_of("all-in"));
            if starts_with_exec(&verb, &chars_of("shows")) {
                let vs = string_of(&verb, 0, m);
                assert(verb@.subrange(0, m as int) =~= verb@);
                let cs = cards_in_brackets(vs.as_str());
                if cs.len() >= 2 {
                    set_cards(p, k, &cs, Ghost(st));
                }
            } else if starts_with_exec(&verb, &chars_of("collected")) {
                let text = before_exec(&sub_vec(&verb, 9, m), &chars_of(" from"));
                let d = read_num(&text);
                p.collects.push((k as u8, d));
                proof {
                    let nst = play_step(st, nm, l@);
                    assert forall|i: int| 0 <= i < nst.collects.len() implies (#[trigger] p.collects@[i]).0
                        == nst.collects[i].0 && dec_is(p.collects@[i].1, nst.collects[i].1) by {
                        if i < old(p).collects@.len() {
                            assert(p.collects@[i] == old(p).collects@[i]);
                        }
                    }
                }
            } else {
                match verb_action_exec(&verb) {
                    None => {},
                    Some((kind, text)) => {
                        let d = read_num(&text);
                        let act = ActText { street: p.street, p: k as u8, kind, amount: d, allin, part: p.part };
                        p.acts.push(act);
                        proof {
                            let nst = play_step(st, nm, l@);
                            assert forall|i: int| 0 <= i < nst.acts.len() implies act_is(#[trigger] p.acts@[i], nst.acts[i]) by {
                                if i < old(p).acts@.len() {
                                    assert(p.acts@[i] == old(p).acts@[i]);
                                }
                            }
                        }
                    },
                }
            }
        },
    }
}

fn is_seat_line_exec(s: &str) -> (r: bool)
    ensures
        r == is_seat_line(s@),
{
    let v = chars_of(s);
    starts_with_exec(&v, &chars_of("Seat ")) && !contains_exec(&v, &chars_of("***"))
}

pub(crate) fn text_or(x: Option<Vec<char>>, d: &str) -> (r: String)
    ensures
        r@ == (match x {
            Some(v) => v@,
            None => d@,
        }),
{
    match x {
        Some(v) => {
            assert(v@.subrange(0, v@.len() as int) =~= v@);
            string_of(&v, 0, v.len())
        },
        None => String::from_str(d),
    }
}

pub(crate) fn prefixed(p: &str, s: &String) -> (r: String)
    ensures
        r@ == p@ + s@,
{
    let mut r = String::from_str(p);
    r.append(s.as_str());
    r
}

/// Reads one Winamax hand from its lines (the header line, the table line, the seats, then
/// the lines of play); see `spec_read_hand`. The date of the header must be one that
/// `parse_date` can compute (see `date_in_range`).
pub fn read_hand(lines: &Vec<String>) -> (r: Option<WinamaxHand>)
    requires
        lines@.len() > 0 && head_ok(lines@[0]@) ==> date_fits(last_piece(lines@[0]@)),
    ensures
        match r {
            None => spec_read_hand(line_views(lines@)) is None,
            Some(h) => spec_read_hand(line_views(lines@)) matches Some(t) && reads(h, t),
        },
{
    let n = lines.len();
    let ghost lv = line_views(lines@);
    if n < 2 {
        return None;
    }
    assert(lv[0] == lines@[0]@ && lv[1] == lines@[1]@);
    let head = chars_of(lines[0].as_str());
    if !contains_exec(&head, &chars_of("Tournament")) {
        return None;
    }
    let name = text_or(between_vec(&head, &chars_of("Tournament \""), &chars_of("\"")), "Expresso");
    let buy = text_or(between_vec(&head, &chars_of("buyIn: "), &chars_of(" level")), "");
    let hid = text_or(between_vec(&head, &chars_of("HandId: #"), &chars_of(" ")), "");
    proof {
        reveal_strlit("");
    }
    let bl = match between_vec(&head, &chars_of("("), &chars_of(")")) {
        Some(x) => x,
        None => Vec::new(),
    };
    let (ante, sb, bb) = blinds_of(&bl);
    let lp = last_piece_exec(&head);
    let lps = string_of(&lp, 0, lp.len());
    assert(lp@.subrange(0, lp@.len() as int) =~= lp@);
    let ts: i64 = match crate::parser::parse_date(lps.as_str()) {
        Some(t) => t,
        None => 0,
    };
    let table = chars_of(lines[1].as_str());
    let tid = match tid_from_table(lines[1].as_str()) {
        Some(t) => t,
        None => return None,
    };
    let btn: u8 = match between_vec(&table, &chars_of("Seat #"), &chars_of(" is")) {
        Some(t) => match parse_u8_exec(&t) {
            Some(x) => x,
            None => 0,
        },
        None => 0,
    };
    // seats
    let mut seats: Vec<(String, u8, Decimal)> = Vec::new();
    let mut names: Vec<Vec<char>> = Vec::new();
    let ghost mut acc: Seq<(Seq<char>, u8, Seq<char>)> = Seq::empty();
    let mut i: usize = 2;
    while i < n && is_seat_line_exec(lines[i].as_str())
        invariant
            2 <= i <= n == lines@.len(),
            lv == line_views(lines@),
            head_ok(lv[0]),
            spec_tid_from_table(lv[1]) is Some,
            seats_from(lv, 2) == (match seats_from(lv, i as int) {
                None => None,
                Some((rest, end)) => Some((acc + rest, end)),
            }),
            seats@.len() == acc.len(),
            names@.len() == acc.len(),
            forall|q: int|
                0 <= q < acc.len() ==> (#[trigger] seats@[q]).0@ == acc[q].0 && seats@[q].1 == acc[q].1
                    && dec_is(seats@[q].2, acc[q].2),
            forall|q: int| 0 <= q < acc.len() ==> (#[trigger] names@[q])@ == acc[q].0,
        decreases n - i,
    {
        let l = chars_of(lines[i].as_str());
        assert(lv[i as int] == l@);
        match seat_line_exec(&l) {
            None => return None,
            Some((nm, num, st)) => {
                let ghost sl = seat_line(l@)->0;
                let v = chars_of(nm.as_str());
                names.push(v);
                seats.push((nm, num, st));
                proof {
                    assert(seats_from(lv, i as int) == (match seats_from(lv, i + 1) {
                        None => None,
                        Some((rest, end)) => Some((seq![sl] + rest, end)),
                    }));
                    match seats_from(lv, i + 1) {
                        None => {},
                        Some((rest, end)) => {
                            assert(acc + (seq![sl] + rest) =~= acc.push(sl) + rest);
                        },
                    }
                    acc = acc.push(sl);
                }
            },
        }
        i = i + 1;
    }
    let end = i;
    proof {
        if i < n {
            assert(lv[i as int] == lines@[i as int]@);
        }
        assert(seats_from(lv, i as int) == Some((Seq::<(Seq<char>, u8, Seq<char>)>::empty(), i as int)));
        assert(acc + Seq::<(Seq<char>, u8, Seq<char>)>::empty() =~= acc);
    }
    let ns = seats.len();
    if ns < 2 {
        return None;
    }
    let ghost nm = seat_names(acc);
    assert(views(names@) =~= nm);
    // lines of play
    let mut cards: Vec<Option<[Card; 2]>> = Vec::new();
    let mut q: usize = 0;
    while q < ns
        invariant
            q <= ns,
            cards@.len() == q,
            forall|x: int| 0 <= x < q ==> cards@[x] is None,
        decreases ns - q,
    {
        cards.push(None);
        q = q + 1;
    }
    let mut p = Play {
        summary: false,
        street: 0,
        part: 0,
        board: Vec::new(),
        hero_name: Vec::new(),
        cards,
        acts: Vec::new(),
        collects: Vec::new(),
    };
    let mut j = end;
    while j < n
        invariant
            end <= j <= n == lines@.len(),
            lv == line_views(lines@),
            views(names@) == nm,
            nm.len() == ns,
            play_is(p, play_upto(lv, nm, end as int, j as int)),
            play_upto(lv, nm, end as int, j as int).cards.len() == ns,
            p.part <= j - end,
        decreases n - j,
    {
        let l = chars_of(lines[j].as_str());
        assert(lv[j as int] == l@);
        play_line(&mut p, &names, &l, Ghost(play_upto(lv, nm, end as int, j as int)));
        proof {
            lemma_play_step_cards(play_upto(lv, nm, end as int, j as int), nm, l@);
        }
        j = j + 1;
    }
    let ghost play = play_upto(lv, nm, end as int, n as int);
    let hero = match seat_named_exec(&names, &p.hero_name) {
        Some(h) => h,
        None => return None,
    };
    // button: first seat with the button's number
    let mut button: usize = 0;
    let mut found = false;
    let mut b: usize = 0;
    while b < ns
        invariant
            b <= ns == seats@.len() == acc.len(),
            forall|q: int| 0 <= q < acc.len() ==> (#[trigger] seats@[q]).1 == acc[q].1,
            found ==> seat_numbered(acc, btn, b as int) == Some(button as int),
            !found ==> seat_numbered(acc, btn, b as int) is None && button == 0,
        decreases ns - b,
    {
        if !found && seats[b].1 == btn {
            button = b;
            found = true;
        }
        b = b + 1;
    }
    // the hand
    let mut out_seats: Vec<SeatText> = Vec::new();
    let mut k: usize = 0;
    while k < ns
        invariant
            k <= ns == seats@.len() == acc.len() == p.cards@.len(),
            play.cards.len() == ns,
            forall|q: int|
                0 <= q < acc.len() ==> (#[trigger] seats@[q]).0@ == acc[q].0 && seats@[q].1 == acc[q].1
                    && dec_is(seats@[q].2, acc[q].2),
            forall|q: int| 0 <= q < ns ==> cards_are(#[trigger] p.cards@[q], play.cards[q]),
            out_seats@.len() == k,
            forall|q: int|
                0 <= q < k ==> {
                    &&& (#[trigger] out_seats@[q]).name@ == acc[q].0
                    &&& out_seats@[q].seat == acc[q].1
                    &&& dec_is(out_seats@[q].stack, acc[q].2)
                    &&& cards_are(out_seats@[q].cards, play.cards[q])
                },
        decreases ns - k,
    {
        let (nm0, num, st) = &seats[k];
        let st2 = Decimal { negative: st.negative, digits: st.digits.clone(), scale: st.scale };
        let name2 = String::from_str(nm0.as_str());
        out_seats.push(SeatText { name: name2, seat: *num, stack: st2, cards: p.cards[k] });
        k = k + 1;
    }
    let hero_name = text_or(Some(p.hero_name), "");
    let h = WinamaxHand {
        tid: prefixed("wmx:", &tid),
        id: prefixed("wmx:", &hid),
        name,
        buy,
        ante,
        sb,
        bb,
        ts,
        button: button as u8,
        hero_name,
        hero: hero as u8,
        seats: out_seats,
        board: p.board,
        actions: p.acts,
        collects: p.collects,
    };
    proof {
        let t = spec_read_hand(lv)->0;
        assert(t.seats == acc);
        assert(h.tid@ == "wmx:"@ + t.tid);
        assert(h.id@ == "wmx:"@ + t.hid);
        assert(h.name@ == t.name);
        assert(h.buy@ == t.buy);
        assert(h.ts == t.ts);
        let sbtn = match spec_between(lv[1], "Seat #"@, " is"@) {
            Some(x) => match parse_u8(x) {
                Some(y) => y,
                None => 0u8,
            },
            None => 0u8,
        };
        assert(sbtn == btn);
        assert(h.button == t.button as u8);
        assert(h.hero_name@ == t.play.hero_name);
        assert(h.hero == t.hero as u8);
        assert(h.seats@.len() == t.seats.len());
        assert(h.board@ == t.play.board);
        assert(reads(h, t));
    }
    Some(h)
}

// ---------------------------------------------------------------- hands of a file

/// A line without the '\r' of a "\r\n" ending.
pub open spec fn strip_cr(x: Seq<char>) -> Seq<char> {
    if x.len() > 0 && x.last() == '\r' {
        x.drop_last()
    } else {
        x
    }
}

/// The lines of a text (`str::lines`): split at '\n', a '\r' before the '\n' dropped, no
/// empty last line after a final line ending.
pub open spec fn line_texts(s: Seq<char>) -> Seq<Seq<char>> {
    let p = split_on(s, '\n');
    let first = Seq::new((p.len() - 1) as nat, |i: int| strip_cr(p[i]));
    if p.last().len() == 0 {
        first
    } else {
        first.push(p.last())
    }
}

/// The hands among the first `k` lines: a hand starts at a line "Winamax Poker - "; its
/// lines are kept without trailing whitespace; lines before the first hand are dropped.
pub open spec fn blocks_upto(ls: Seq<Seq<char>>, k: int) -> Seq<Seq<Seq<char>>>
    decreases k,
{
    if k <= 0 {
        Seq::empty()
    } else {
        let b = blocks_upto(ls, k - 1);
        let l = ls[k - 1];
        let b2 = if starts_with(l, "Winamax Poker - "@) {
            b.push(Seq::empty())
        } else {
            b
        };
        if b2.len() > 0 {
            b2.update(b2.len() - 1, b2.last().push(trim_end_by(l, 0)))
        } else {
            b2
        }
    }
}

/// The hands of a Winamax file, each as its lines.
pub open spec fn spec_blocks(c: Seq<char>) -> Seq<Seq<Seq<char>>> {
    blocks_upto(line_texts(c), line_texts(c).len() as int)
}

pub(crate) fn split_chars(v: &Vec<char>, sep: char) -> (out: Vec<Vec<char>>)
    ensures
        views(out@) == split_on(v@, sep),
{
    let mut out: Vec<Vec<char>> = Vec::new();
    let mut cur: Vec<char> = Vec::new();
    let mut i: usize = 0;
    while i < v.len()
        invariant
            i <= v@.len(),
            views(out@).push(cur@) == split_on(v@.take(i as int), sep),
        decreases v@.len() - i,
    {
        let c = v[i];
        assert(v@.take(i + 1).drop_last() =~= v@.take(i as int));
        let ghost before = views(out@).push(cur@);
        proof {
            lemma_split_on_len(v@.take(i as int), sep);
        }
        if c == sep {
            out.push(cur);
            cur = Vec::new();
            assert(views(out@).push(cur@) =~= before.push(Seq::empty()));
        } else {
            cur.push(c);
            assert(views(out@).push(cur@) =~= before.update(before.len() - 1, before.last().push(c)));
        }
        i = i + 1;
    }
    assert(v@.take(v@.len() as int) =~= v@);
    out.push(cur);
    out
}

fn trim_end_vec(v: &Vec<char>) -> (r: Vec<char>)
    ensures
        r@ == trim_end_by(v@, 0),
{
    let mut e = v.len();
    assert(v@.subrange(0, e as int) =~= v@);
    while e > 0 && is_ws_exec(v[e - 1])
        invariant
            e <= v@.len(),
            trim_end_by(v@, 0) == trim_end_by(v@.subrange(0, e as int), 0),
        decreases e,
    {
        assert(v@.subrange(0, e as int).drop_last() =~= v@.subrange(0, e - 1));
        e = e - 1;
    }
    assert(e == 0 ==> v@.subrange(0, e as int) =~= Seq::<char>::empty());
    sub_vec(v, 0, e)
}

/// The hands of a Winamax file, each as its lines (see `spec_blocks`).
pub fn hand_blocks(c: &str) -> (out: Vec<Vec<String>>)
    ensures
        out@.len() == spec_blocks(c@).len(),
        forall|i: int|
            0 <= i < out@.len() ==> line_views((#[trigger] out@[i])@) == spec_blocks(c@)[i],
{
    proof {
        reveal_strlit("Winamax Poker - ");
    }
    let v = chars_of(c);
    let pieces = split_chars(&v, '\n');
    let ghost p = split_on(v@, '\n');
    proof {
        lemma_split_on_len(v@, '\n');
    }
    let np = pieces.len();
    let ghost ls = line_texts(c@);
    let nl: usize = if pieces[np - 1].len() == 0 { np - 1 } else { np };
    assert(views(pieces@)[np - 1] == pieces@[np - 1]@);
    assert(ls.len() == nl);
    let mut out: Vec<Vec<String>> = Vec::new();
    let start = chars_of("Winamax Poker - ");
    let mut k: usize = 0;
    while k < nl
        invariant
            k <= nl <= np == pieces@.len(),
            views(pieces@) == p,
            p == split_on(c@, '\n'),
            ls == line_texts(c@),
            ls.len() == nl,
            start@ == "Winamax Poker - "@,
            out@.len() == blocks_upto(ls, k as int).len(),
            forall|i: int|
                0 <= i < out@.len() ==> line_views((#[trigger] out@[i])@) == blocks_upto(ls, k as int)[i],
        decreases nl - k,
    {
        let piece = &pieces[k];
        assert(views(pieces@)[k as int] == piece@);
        let line: Vec<char> = if k + 1 < np && piece.len() > 0 && piece[piece.len() - 1] == '\r' {
            sub_vec(piece, 0, piece.len() - 1)
        } else {
            sub_vec(piece, 0, piece.len())
        };
        assert(piece@.subrange(0, piece@.len() as int) =~= piece@);
        assert(piece@.len() > 0 ==> piece@.subrange(0, piece@.len() - 1) =~= piece@.drop_last());
        assert(line@ == ls[k as int]);
        let ghost b = blocks_upto(ls, k as int);
        if starts_with_exec(&line, &start) {
            out.push(Vec::new());
        }
        let ghost b2 = if starts_with(ls[k as int], "Winamax Poker - "@) { b.push(Seq::empty()) } else { b };
        assert(out@.len() == b2.len());
        assert(forall|i: int| 0 <= i < out@.len() ==> line_views((#[trigger] out@[i])@) == b2[i]);
        let no = out.len();
        if no > 0 {
            let t = trim_end_vec(&line);
            let ts = string_of(&t, 0, t.len());
            assert(t@.subrange(0, t@.len() as int) =~= t@);
            let ghost ob = out@;
            let mut last = out.pop().unwrap();
            assert(last == ob[no - 1]);
            let ghost lb = last@;
            last.push(ts);
            assert(line_views(last@) =~= line_views(lb).push(trim_end_by(ls[k as int], 0)));
            out.push(last);
            assert(out@ =~= ob.update(no - 1, last));
            assert forall|i: int| 0 <= i < out@.len() implies line_views((#[trigger] out@[i])@)
                == blocks_upto(ls, k + 1)[i] by {
                if i < no - 1 {
                    assert(out@[i] == ob[i]);
                }
            }
        }
        k = k + 1;
    }
    out
}

/// The date of the header line can be computed (what `read_hand` needs of its lines).
pub fn head_date_in_range(lines: &Vec<String>) -> (r: bool)
    ensures
        r == (lines@.len() > 0 && head_ok(lines@[0]@) ==> date_fits(last_piece(lines@[0]@))),
{
    if lines.len() == 0 {
        return true;
    }
    let head = chars_of(lines[0].as_str());
    if !contains_exec(&head, &chars_of("Tournament")) {
        return true;
    }
    let lp = last_piece_exec(&head);
    let lps = string_of(&lp, 0, lp.len());
    assert(lp@.subrange(0, lp@.len() as int) =~= lp@);
    crate::parser::date_in_range(lps.as_str())
}

/// The lines of a text (see `line_texts`).
pub(crate) fn text_lines(c: &str) -> (out: Vec<Vec<char>>)
    ensures
        views(out@) == line_texts(c@),
{
    let v = chars_of(c);
    let pieces = split_chars(&v, '\n');
    proof {
        lemma_split_on_len(v@, '\n');
    }
    let ghost p = split_on(v@, '\n');
    let np = pieces.len();
    let nl: usize = if pieces[np - 1].len() == 0 { np - 1 } else { np };
    assert(views(pieces@)[np - 1] == pieces@[np - 1]@);
    let mut out: Vec<Vec<char>> = Vec::new();
    let mut k: usize = 0;
    while k < nl
        invariant
            k <= nl <= np == pieces@.len(),
            views(pieces@) == p,
            p == split_on(c@, '\n'),
            nl == line_texts(c@).len(),
            views(out@) == line_texts(c@).take(k as int),
        decreases nl - k,
    {
        let piece = &pieces[k];
        assert(views(pieces@)[k as int] == piece@);
        let line: Vec<char> = if k + 1 < np && piece.len() > 0 && piece[piece.len() - 1] == '\r' {
            sub_vec(piece, 0, piece.len() - 1)
        } else {
            sub_vec(piece, 0, piece.len())
        };
        assert(piece@.subrange(0, piece@.len() as int) =~= piece@);
        assert(piece@.len() > 0 ==> piece@.subrange(0, piece@.len() - 1) =~= piece@.drop_last());
        assert(line@ == line_texts(c@)[k as int]);
        let ghost ob = out@;
        let ghost lw = line@;
        out.push(line);
        assert(views(out@) =~= views(ob).push(lw));
        assert(line_texts(c@).take(k + 1) =~= line_texts(c@).take(k as int).push(lw));
        k = k + 1;
    }
    assert(line_texts(c@).take(nl as int) =~= line_texts(c@));
    out
}

} // verus!
