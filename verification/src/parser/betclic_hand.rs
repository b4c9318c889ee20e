//! Reading one Betclic hand ("ExportHH" text): header fields, seats, and the lines of the
//! sections, into exact values (amounts as written, read as decimals). Stacks and pots are
//! then summed by the caller.
use vstd::prelude::*;
use crate::model::{ActKind, Card};
use crate::parser::{Decimal, spec_parse_num, date_tz_fits, first_number_text, spec_parse_date_tz};
use crate::parser::betclic::spec_header;
use crate::parser::common::bracket_cards;
use crate::parser::expresso::{dec_is, second_piece, parse_u8, line_texts, split_on, act_is, cards_are};
use crate::parser::expresso::{before_exec, second_piece_exec, parse_u8_exec, read_num, zero, text_or, prefixed, text_lines, views};
use crate::text::{contains, find, rfind, starts_with, trim, trim_by, upper_seq, chars_of, find_exec, rfind_exec, starts_with_exec, contains_exec, sub_vec, string_of, trim_range, trim_range_by, upper_vec, lemma_find_from_range, lemma_rfind_range, occurs_at, trim_start_by, trim_start_index};

verus! {

// ---------------------------------------------------------------- text pieces

/// ASCII lower case of a character.
pub open spec fn lower_char(c: char) -> char {
    if 'A' <= c && c <= 'Z' {
        ((c as u32) + 32) as char
    } else {
        c
    }
}

/// ASCII lower case of a text.
pub open spec fn lower_seq(s: Seq<char>) -> Seq<char> {
    Seq::new(s.len(), |i: int| lower_char(s[i]))
}

/// `s` without its trailing '*'.
pub open spec fn trim_end_stars(s: Seq<char>) -> Seq<char>
    decreases s.len(),
{
    if s.len() > 0 && s.last() == '*' {
        trim_end_stars(s.drop_last())
    } else {
        s
    }
}

/// Title of a section line "*** TITLE ***", upper case.
pub open spec fn tag_of(l: Seq<char>) -> Seq<char> {
    upper_seq(trim(trim_end_stars(l.subrange(3, l.len() as int))))
}

/// The characters before the first non-digit.
pub open spec fn digit_prefix(s: Seq<char>) -> Seq<char>
    decreases s.len(),
{
    if s.len() > 0 && '0' <= s[0] <= '9' {
        seq![s[0]] + digit_prefix(s.drop_first())
    } else {
        Seq::empty()
    }
}

/// The characters are digits or ':' (a clock "21:49:24").
pub open spec fn clock_like(s: Seq<char>) -> bool {
    forall|i: int| 0 <= i < s.len() ==> ('0' <= #[trigger] s[i] <= '9' || s[i] == ':')
}

/// A line of play without its leading clock "21:49:24 - ".
pub open spec fn strip_clock(l: Seq<char>) -> Seq<char> {
    match find(l, " - "@) {
        Some(i) => if clock_like(l.subrange(0, i)) {
            l.subrange(i + 3, l.len() as int)
        } else {
            l
        },
        None => l,
    }
}

/// Amount won: the number after the last " of " ("wins 1st side pot of 155"), else the first
/// number of the text.
pub open spec fn win_text(what: Seq<char>) -> Option<Seq<char>> {
    let after = match rfind(what, " of "@) {
        Some(i) => first_number_text(what.subrange(i + 4, what.len() as int)),
        None => Seq::empty(),
    };
    if after.len() > 0 {
        Some(after)
    } else if first_number_text(what).len() > 0 {
        Some(first_number_text(what))
    } else {
        None
    }
}

/// An action line, `w` in lower case: kind and amount text (for a raise, the total it raises
/// to).
pub open spec fn b_verb(w: Seq<char>, what: Seq<char>) -> Option<(ActKind, Seq<char>)> {
    if starts_with(w, "posts ante"@) {
        Some((ActKind::Ante, first_number_text(what)))
    } else if starts_with(w, "posts sb"@) || starts_with(w, "posts small"@) {
        Some((ActKind::SmallBlind, first_number_text(what)))
    } else if starts_with(w, "posts bb"@) || starts_with(w, "posts big"@) {
        Some((ActKind::BigBlind, first_number_text(what)))
    } else if starts_with(w, "fold"@) {
        Some((ActKind::Fold, Seq::empty()))
    } else if starts_with(w, "check"@) {
        Some((ActKind::Check, Seq::empty()))
    } else if starts_with(w, "call"@) {
        Some((ActKind::Call, first_number_text(what)))
    } else if starts_with(w, "bet"@) {
        Some((ActKind::Bet, first_number_text(what)))
    } else if starts_with(w, "raise"@) {
        Some(
            (
                ActKind::Raise,
                first_number_text(
                    match second_piece(what, " to "@) {
                        Some(x) => x,
                        None => what,
                    },
                ),
            ),
        )
    } else {
        None
    }
}

// ---------------------------------------------------------------- state of the reader

/// A seat: name, seat number, stack text, hole cards if known.
pub type SeatB = (Seq<char>, u8, Seq<char>, Option<(u8, u8)>);

/// The reader's state after some lines: section (0 none, 1 players, 2 actions, 3 hole
/// cards, 4 other), street, number of street sections seen, board, seats, hero, button,
/// actions, amounts won (seat, amount text), places announced (seat, place, amount text),
/// some amount won was written.
pub struct BState {
    pub section: int,
    pub street: u8,
    pub part: int,
    pub board: Seq<u8>,
    pub seats: Seq<SeatB>,
    pub hero: Option<int>,
    pub button: int,
    pub acts: Seq<(u8, u8, ActKind, Seq<char>, bool, int)>,
    pub wins: Seq<(u8, Seq<char>)>,
    pub placed: Seq<(int, u8, Seq<char>)>,
    pub had_wins: bool,
}

pub open spec fn b_start() -> BState {
    BState {
        section: 0,
        street: 0,
        part: 0,
        board: Seq::empty(),
        seats: Seq::empty(),
        hero: None,
        button: 0,
        acts: Seq::empty(),
        wins: Seq::empty(),
        placed: Seq::empty(),
        had_wins: false,
    }
}

/// Seat whose name starts the line, followed by ':' or ' ' (the longest name, the last of
/// equal ones), among the first `k` seats.
pub open spec fn b_speaker(seats: Seq<SeatB>, body: Seq<char>, k: int) -> Option<int>
    decreases k,
{
    if k <= 0 {
        None
    } else {
        let b = b_speaker(seats, body, k - 1);
        let name = seats[k - 1].0;
        let hit = starts_with(body, name) && name.len() < body.len() && (body[name.len() as int]
            == ':' || body[name.len() as int] == ' ');
        if hit && (b is None || name.len() >= seats[b->0].0.len()) {
            Some(k - 1)
        } else {
            b
        }
    }
}

/// A section line "*** TITLE ***": new section and street, the amounts put in on the street
/// counted again from zero on the flop, turn and river, and the board from its cards.
pub open spec fn section_step(st: BState, l: Seq<char>) -> BState {
    let tag = tag_of(l);
    let street_tag = starts_with(tag, "FLOP"@) || starts_with(tag, "TURN"@) || starts_with(tag, "RIVER"@);
    let (section, street): (int, u8) = if starts_with(tag, "PLAYERS"@) {
        (1, st.street)
    } else if starts_with(tag, "PRE"@) {
        (2, 0)
    } else if starts_with(tag, "FLOP"@) {
        (2, 1)
    } else if starts_with(tag, "TURN"@) {
        (2, 2)
    } else if starts_with(tag, "RIVER"@) {
        (2, 3)
    } else if starts_with(tag, "SHOW"@) || starts_with(tag, "SUMMARY"@) {
        (2, st.street)
    } else if starts_with(tag, "HOLE"@) {
        (3, st.street)
    } else {
        (4, st.street)
    };
    let cs = bracket_cards(l);
    BState {
        section,
        street,
        part: if street > 0 && street_tag { st.part + 1 } else { st.part },
        board: if cs.len() >= st.board.len() { cs } else { st.board + cs },
        ..st
    }
}

/// A "Board:" or "Community Cards:" line: its cards replace a shorter board.
pub open spec fn board_step(st: BState, l: Seq<char>) -> BState {
    let b = if starts_with(l, "Board:"@) {
        l.subrange(6, l.len() as int)
    } else {
        l.subrange(16, l.len() as int)
    };
    let cs = bracket_cards("["@ + trim_by(trim(b), 2) + "]"@);
    if cs.len() > st.board.len() {
        BState { board: cs, ..st }
    } else {
        st
    }
}

/// A seat line of the players section: "Seat 1: Name (500) [BTN Hero]".
pub open spec fn seat_step(st: BState, l: Seq<char>) -> BState {
    match find(l, ":"@) {
        None => st,
        Some(colon) => {
            let rest = l.subrange(colon + 1, l.len() as int);
            match find(rest, "("@) {
                None => st,
                Some(open) => {
                    let n = st.seats.len() as int;
                    let tags = match rfind(rest, "["@) {
                        Some(i) => upper_seq(rest.subrange(i, rest.len() as int)),
                        None => Seq::empty(),
                    };
                    let num: u8 = match parse_u8(trim(l.subrange(4, colon))) {
                        Some(x) => x,
                        None => (n + 1) as u8,
                    };
                    let cs = bracket_cards(rest);
                    let seat: SeatB = (
                        trim(rest.subrange(0, open)),
                        num,
                        first_number_text(rest.subrange(open, rest.len() as int)),
                        if cs.len() == 2 { Some((cs[0], cs[1])) } else { None },
                    );
                    BState {
                        seats: st.seats.push(seat),
                        hero: if contains(tags, "HERO"@) { Some(n) } else { st.hero },
                        button: if contains(tags, "BTN"@) || contains(tags, "BUTTON"@) { n } else { st.button },
                        ..st
                    }
                },
            }
        },
    }
}

/// The seats with new hole cards for seat `k`.
pub open spec fn with_cards(seats: Seq<SeatB>, k: int, cs: Seq<u8>) -> Seq<SeatB> {
    seats.update(k, (seats[k].0, seats[k].1, seats[k].2, Some((cs[0], cs[1]))))
}

/// A line of the actions or hole-cards sections, spoken by seat `who`: `what` is what
/// follows the name.
pub open spec fn play_line_b(st: BState, who: int, what: Seq<char>) -> BState {
    let w = lower_seq(what);
    let cs = bracket_cards(what);
    if st.section == 3 {
        if cs.len() >= 2 {
            BState { seats: with_cards(st.seats, who, cs), ..st }
        } else {
            st
        }
    } else if starts_with(w, "finished "@) {
        let rest = w.subrange(9, w.len() as int);
        let place: u8 = match parse_u8(digit_prefix(rest)) {
            Some(x) => x,
            None => 0,
        };
        let won = match find(rest, " wins "@) {
            Some(i) => first_number_text(rest.subrange(i + 6, rest.len() as int)),
            None => Seq::empty(),
        };
        BState { placed: st.placed.push((who, place, won)), ..st }
    } else if cs.len() >= 2 && (starts_with(w, "show"@) || starts_with(w, "dealt"@) || starts_with(
        w,
        "cards"@,
    ) || starts_with(w, "muck"@) || starts_with(w, "hole"@)) {
        BState { seats: with_cards(st.seats, who, cs), ..st }
    } else if starts_with(w, "win"@) || starts_with(w, "collect"@) || starts_with(w, "won"@) {
        match win_text(what) {
            Some(t) => BState { wins: st.wins.push((who as u8, t)), had_wins: true, ..st },
            None => st,
        }
    } else {
        let allin = contains(w, "all-in"@) || contains(w, "all in"@) || contains(w, "allin"@);
        match b_verb(w, what) {
            Some((kind, text)) => BState {
                acts: st.acts.push((st.street, who as u8, kind, text, allin, st.part)),
                ..st
            },
            None => st,
        }
    }
}

/// One trimmed line of the block.
pub open spec fn b_step(st: BState, l: Seq<char>) -> BState {
    if starts_with(l, "***"@) {
        section_step(st, l)
    } else if starts_with(l, "Board:"@) || starts_with(l, "Community Cards:"@) {
        board_step(st, l)
    } else if st.section == 1 && starts_with(l, "Seat"@) {
        seat_step(st, l)
    } else if st.section != 2 && st.section != 3 {
        st
    } else {
        let body = strip_clock(l);
        match b_speaker(st.seats, body, st.seats.len() as int) {
            None => st,
            Some(who) => {
                let name = st.seats[who].0;
                play_line_b(st, who, trim(body.subrange(name.len() as int + 1, body.len() as int)))
            },
        }
    }
}

/// State after the first `k` lines of the block.
pub open spec fn b_upto(ls: Seq<Seq<char>>, k: int) -> BState
    decreases k,
{
    if k <= 0 {
        b_start()
    } else {
        b_step(b_upto(ls, k - 1), trim(ls[k - 1]))
    }
}

// ---------------------------------------------------------------- reading, executable

pub(crate) fn lower_vec(v: &Vec<char>) -> (r: Vec<char>)
    ensures
        r@ == lower_seq(v@),
{
    let mut r: Vec<char> = Vec::new();
    let mut i: usize = 0;
    while i < v.len()
        invariant
            i <= v@.len(),
            r@ == lower_seq(v@.take(i as int)),
        decreases v@.len() - i,
    {
        let c = v[i];
        let d = if 'A' <= c && c <= 'Z' { (((c as u32) + 32) as u8) as char } else { c };
        r.push(d);
        assert(r@ =~= lower_seq(v@.take(i + 1)));
        i = i + 1;
    }
    assert(v@.take(v@.len() as int) =~= v@);
    r
}

proof fn lemma_trim_end_stars(s: Seq<char>, e: int)
    requires
        0 <= e <= s.len(),
        forall|j: int| e <= j < s.len() ==> s[j] == '*',
        e == 0 || s[e - 1] != '*',
    ensures
        trim_end_stars(s) == s.subrange(0, e),
    decreases s.len() - e,
{
    if e < s.len() {
        lemma_trim_end_stars(s.drop_last(), e);
        assert(s.drop_last().subrange(0, e) =~= s.subrange(0, e));
    } else {
        assert(s.subrange(0, e) =~= s);
    }
}

/// Title of a section line (see `tag_of`).
fn tag_exec(l: &Vec<char>) -> (r: Vec<char>)
    requires
        l@.len() >= 3,
    ensures
        r@ == tag_of(l@),
{
    let n = l.len();
    let s = sub_vec(l, 3, n);
    let mut e = s.len();
    while e > 0 && s[e - 1] == '*'
        invariant
            e <= s@.len(),
            forall|j: int| e <= j < s@.len() ==> s@[j] == '*',
        decreases e,
    {
        e = e - 1;
    }
    proof {
        lemma_trim_end_stars(s@, e as int);
    }
    let (a, b) = trim_range(&s, 0, e);
    upper_vec(&sub_vec(&s, a, b))
}

proof fn lemma_digit_prefix(s: Seq<char>, i: int)
    requires
        0 <= i <= s.len(),
        forall|j: int| 0 <= j < i ==> '0' <= #[trigger] s[j] <= '9',
        i == s.len() || !('0' <= s[i] <= '9'),
    ensures
        digit_prefix(s) == s.subrange(0, i),
    decreases i,
{
    if i > 0 {
        lemma_digit_prefix(s.drop_first(), i - 1);
        assert(seq![s[0]] + s.drop_first().subrange(0, i - 1) =~= s.subrange(0, i));
    } else {
        assert(s.subrange(0, 0) =~= Seq::<char>::empty());
    }
}

pub(crate) fn digit_prefix_exec(v: &Vec<char>) -> (r: Vec<char>)
    ensures
        r@ == digit_prefix(v@),
{
    let mut i: usize = 0;
    while i < v.len() && '0' <= v[i] && v[i] <= '9'
        invariant
            i <= v@.len(),
            forall|j: int| 0 <= j < i ==> '0' <= #[trigger] v@[j] <= '9',
        decreases v@.len() - i,
    {
        i = i + 1;
    }
    proof {
        lemma_digit_prefix(v@, i as int);
    }
    sub_vec(v, 0, i)
}

fn strip_clock_exec(l: &Vec<char>) -> (r: Vec<char>)
    ensures
        r@ == strip_clock(l@),
{
    let sep = chars_of(" - ");
    proof {
        reveal_strlit(" - ");
    }
    let n = l.len();
    match find_exec(l, &sep, 0) {
        Some(i) => {
            proof {
                lemma_find_from_range(l@, sep@, 0);
            }
            let mut k: usize = 0;
            while k < i && (('0' <= l[k] && l[k] <= '9') || l[k] == ':')
                invariant
                    k <= i < n == l@.len(),
                    forall|j: int| 0 <= j < k ==> ('0' <= #[trigger] l@[j] <= '9' || l@[j] == ':'),
                decreases i - k,
            {
                k = k + 1;
            }
            if k == i {
                assert(clock_like(l@.subrange(0, i as int))) by {
                    assert forall|j: int| 0 <= j < i implies ('0' <= #[trigger] l@.subrange(0, i as int)[j] <= '9'
                        || l@.subrange(0, i as int)[j] == ':') by {
                        assert(l@.subrange(0, i as int)[j] == l@[j]);
                    }
                }
                sub_vec(l, i + 3, n)
            } else {
                assert(!clock_like(l@.subrange(0, i as int))) by {
                    assert(l@.subrange(0, i as int)[k as int] == l@[k as int]);
                }
                assert(l@.subrange(0, n as int) =~= l@);
                sub_vec(l, 0, n)
            }
        },
        None => {
            assert(l@.subrange(0, n as int) =~= l@);
            sub_vec(l, 0, n)
        },
    }
}

pub(crate) fn first_num_text(v: &Vec<char>) -> (d: Decimal)
    ensures
        dec_is(d, first_number_text(v@)),
{
    let s = string_of(v, 0, v.len());
    assert(v@.subrange(0, v@.len() as int) =~= v@);
    match crate::parser::first_num(s.as_str()) {
        Some(d) => d,
        None => zero(),
    }
}

pub(crate) fn first_num_opt(v: &Vec<char>) -> (r: Option<Decimal>)
    ensures
        match r {
            Some(d) => first_number_text(v@).len() > 0 && dec_is(d, first_number_text(v@)),
            None => first_number_text(v@).len() == 0,
        },
{
    let s = string_of(v, 0, v.len());
    assert(v@.subrange(0, v@.len() as int) =~= v@);
    crate::parser::first_num(s.as_str())
}

fn win_text_exec(what: &Vec<char>) -> (r: Option<Decimal>)
    ensures
        match r {
            Some(d) => win_text(what@) matches Some(t) && dec_is(d, t),
            None => win_text(what@) is None,
        },
{
    let of = chars_of(" of ");
    proof {
        reveal_strlit(" of ");
    }
    let n = what.len();
    let after: Option<Decimal> = match rfind_exec(what, &of) {
        Some(i) => {
            proof {
                lemma_rfind_range(what@, of@);
            }
            first_num_opt(&sub_vec(what, i + 4, n))
        },
        None => {
            proof {
                reveal_strlit("");
            }
            None
        },
    };
    match after {
        Some(d) => Some(d),
        None => first_num_opt(what),
    }
}

fn b_verb_exec(w: &Vec<char>, what: &Vec<char>) -> (r: Option<(ActKind, Decimal)>)
    ensures
        match r {
            Some((k, d)) => b_verb(w@, what@) matches Some((sk, t)) && k == sk && dec_is(d, t),
            None => b_verb(w@, what@) is None,
        },
{
    proof {
        reveal_strlit("");
    }
    if starts_with_exec(w, &chars_of("posts ante")) {
        Some((ActKind::Ante, first_num_text(what)))
    } else if starts_with_exec(w, &chars_of("posts sb")) || starts_with_exec(w, &chars_of("posts small")) {
        Some((ActKind::SmallBlind, first_num_text(what)))
    } else if starts_with_exec(w, &chars_of("posts bb")) || starts_with_exec(w, &chars_of("posts big")) {
        Some((ActKind::BigBlind, first_num_text(what)))
    } else if starts_with_exec(w, &chars_of("fold")) {
        Some((ActKind::Fold, zero()))
    } else if starts_with_exec(w, &chars_of("check")) {
        Some((ActKind::Check, zero()))
    } else if starts_with_exec(w, &chars_of("call")) {
        Some((ActKind::Call, first_num_text(what)))
    } else if starts_with_exec(w, &chars_of("bet")) {
        Some((ActKind::Bet, first_num_text(what)))
    } else if starts_with_exec(w, &chars_of("raise")) {
        let t = match second_piece_exec(what, &chars_of(" to ")) {
            Some(x) => x,
            None => sub_vec(what, 0, what.len()),
        };
        assert(what@.subrange(0, what@.len() as int) =~= what@);
        Some((ActKind::Raise, first_num_text(&t)))
    } else {
        None
    }
}

/// The reader's state, executable: the seats as parallel lists.
struct BExec {
    section: u8,
    street: u8,
    part: usize,
    board: Vec<Card>,
    names: Vec<Vec<char>>,
    nums: Vec<u8>,
    stacks: Vec<Decimal>,
    cards: Vec<Option<[Card; 2]>>,
    hero: Option<usize>,
    button: usize,
    acts: Vec<crate::parser::expresso::ActText>,
    wins: Vec<(u8, Decimal)>,
    placed: Vec<(usize, u8, Decimal)>,
    had_wins: bool,
}

spec fn b_is(e: BExec, s: BState) -> bool {
    &&& e.section as int == s.section
    &&& e.street == s.street
    &&& e.part == s.part
    &&& e.board@ == s.board
    &&& e.names@.len() == s.seats.len()
    &&& e.nums@.len() == s.seats.len()
    &&& e.stacks@.len() == s.seats.len()
    &&& e.cards@.len() == s.seats.len()
    &&& forall|i: int|
        0 <= i < s.seats.len() ==> {
            &&& (#[trigger] e.names@[i])@ == s.seats[i].0
            &&& e.nums@[i] == s.seats[i].1
            &&& dec_is(e.stacks@[i], s.seats[i].2)
            &&& cards_are(e.cards@[i], s.seats[i].3)
        }
    &&& (match e.hero {
        Some(h) => s.hero == Some(h as int),
        None => s.hero is None,
    })
    &&& e.button == s.button
    &&& e.acts@.len() == s.acts.len()
    &&& forall|i: int| 0 <= i < s.acts.len() ==> act_is(#[trigger] e.acts@[i], s.acts[i])
    &&& e.wins@.len() == s.wins.len()
    &&& forall|i: int|
        0 <= i < s.wins.len() ==> (#[trigger] e.wins@[i]).0 == s.wins[i].0 && dec_is(e.wins@[i].1, s.wins[i].1)
    &&& e.placed@.len() == s.placed.len()
    &&& forall|i: int|
        0 <= i < s.placed.len() ==> (#[trigger] e.placed@[i]).0 == s.placed[i].0 && e.placed@[i].1
            == s.placed[i].1 && dec_is(e.placed@[i].2, s.placed[i].2)
    &&& e.had_wins == s.had_wins
}

fn b_section(e: &mut BExec, l: &Vec<char>, Ghost(s): Ghost<BState>)
    requires
        b_is(*old(e), s),
        starts_with(l@, "***"@),
        old(e).part < usize::MAX,
    ensures
        b_is(*final(e), section_step(s, l@)),
        final(e).names@.len() == old(e).names@.len(),
        final(e).part <= old(e).part + 1,
{
    proof {
        reveal_strlit("***");
    }
    let tag = tag_exec(l);
    let is = |p: &str| -> (r: bool)
        ensures
            r == starts_with(tag@, p@),
    { starts_with_exec(&tag, &chars_of(p)) };
    let street_tag = is("FLOP") || is("TURN") || is("RIVER");
    let (section, street): (u8, u8) = if is("PLAYERS") {
        (1, e.street)
    } else if is("PRE") {
        (2, 0)
    } else if is("FLOP") {
        (2, 1)
    } else if is("TURN") {
        (2, 2)
    } else if is("RIVER") {
        (2, 3)
    } else if is("SHOW") || is("SUMMARY") {
        (2, e.street)
    } else if is("HOLE") {
        (3, e.street)
    } else {
        (4, e.street)
    };
    let ls = string_of(l, 0, l.len());
    assert(l@.subrange(0, l@.len() as int) =~= l@);
    let cs = crate::parser::common::cards_in_brackets(ls.as_str());
    e.section = section;
    e.street = street;
    if street > 0 && street_tag {
        e.part = e.part + 1;
    }
    if cs.len() >= e.board.len() {
        e.board = cs;
    } else {
        let mut nb: Vec<Card> = Vec::new();
        let mut i: usize = 0;
        while i < e.board.len()
            invariant
                i <= e.board@.len(),
                nb@ == e.board@.take(i as int),
            decreases e.board@.len() - i,
        {
            nb.push(e.board[i]);
            assert(e.board@.take(i + 1) =~= e.board@.take(i as int).push(e.board@[i as int]));
            i = i + 1;
        }
        assert(e.board@.take(e.board@.len() as int) =~= e.board@);
        let ghost b0 = nb@;
        let mut k: usize = 0;
        while k < cs.len()
            invariant
                k <= cs@.len(),
                nb@ == b0 + cs@.take(k as int),
            decreases cs@.len() - k,
        {
            nb.push(cs[k]);
            assert(b0 + cs@.take(k + 1) =~= (b0 + cs@.take(k as int)).push(cs@[k as int]));
            k = k + 1;
        }
        assert(cs@.take(cs@.len() as int) =~= cs@);
        e.board = nb;
    }
}

fn b_board(e: &mut BExec, l: &Vec<char>, Ghost(s): Ghost<BState>)
    requires
        b_is(*old(e), s),
        starts_with(l@, "Board:"@) || starts_with(l@, "Community Cards:"@),
    ensures
        b_is(*final(e), board_step(s, l@)),
        final(e).names@.len() == old(e).names@.len(),
        final(e).part == old(e).part,
{
    proof {
        reveal_strlit("Board:");
        reveal_strlit("Community Cards:");
        reveal_strlit("[");
        reveal_strlit("]");
    }
    let n = l.len();
    let b = if starts_with_exec(l, &chars_of("Board:")) {
        sub_vec(l, 6, n)
    } else {
        sub_vec(l, 16, n)
    };
    let (a0, b0) = trim_range(&b, 0, b.len());
    assert(b@.subrange(0, b@.len() as int) =~= b@);
    let t = sub_vec(&b, a0, b0);
    let (a1, b1) = trim_range_by(&t, 0, t.len(), 2);
    assert(t@.subrange(0, t@.len() as int) =~= t@);
    let mut text = String::from_str("[");
    text.append(string_of(&t, a1, b1).as_str());
    text.append("]");
    let cs = crate::parser::common::cards_in_brackets(text.as_str());
    if cs.len() > e.board.len() {
        e.board = cs;
    }
}

proof fn lemma_seat_colon(l: Seq<char>, c: int)
    requires
        starts_with(l, "Seat"@),
        occurs_at(l, ":"@, c),
    ensures
        c >= 4,
{
    reveal_strlit("Seat");
    reveal_strlit(":");
    if c < 4 {
        assert(l.subrange(c, c + 1)[0] == ':');
        assert(l[c] == ':');
        assert(l.subrange(0, 4)[c] == l[c]);
    }
}

#[verifier::spinoff_prover]
#[verifier::rlimit(60)]
fn b_seat(e: &mut BExec, l: &Vec<char>, Ghost(s): Ghost<BState>)
    requires
        b_is(*old(e), s),
        starts_with(l@, "Seat"@),
        old(e).names@.len() < 255,
    ensures
        b_is(*final(e), seat_step(s, l@)),
        final(e).names@.len() <= old(e).names@.len() + 1,
        final(e).part == old(e).part,
{
    proof {
        reveal_strlit("Seat");
        reveal_strlit(":");
        reveal_strlit("(");
        reveal_strlit("[");
    }
    let n = l.len();
    let colon_s = chars_of(":");
    let colon = match find_exec(l, &colon_s, 0) {
        Some(c) => c,
        None => return,
    };
    proof {
        lemma_find_from_range(l@, colon_s@, 0);
        lemma_seat_colon(l@, colon as int);
    }
    let rest = sub_vec(l, colon + 1, n);
    let open_s = chars_of("(");
    let open = match find_exec(&rest, &open_s, 0) {
        Some(o) => o,
        None => return,
    };
    proof {
        lemma_find_from_range(rest@, open_s@, 0);
    }
    let m = rest.len();
    let k = e.names.len();
    let tags: Vec<char> = match rfind_exec(&rest, &chars_of("[")) {
        Some(i) => {
            proof {
                lemma_rfind_range(rest@, "["@);
            }
            upper_vec(&sub_vec(&rest, i, m))
        },
        None => Vec::new(),
    };
    let numtext = sub_vec(l, 4, colon);
    let (a, b) = trim_range(&numtext, 0, numtext.len());
    assert(numtext@.subrange(0, numtext@.len() as int) =~= numtext@);
    let num: u8 = match parse_u8_exec(&sub_vec(&numtext, a, b)) {
        Some(x) => x,
        None => (k as u8) + 1,
    };
    let rs = string_of(&rest, 0, m);
    assert(rest@.subrange(0, m as int) =~= rest@);
    let cs = crate::parser::common::cards_in_brackets(rs.as_str());
    let (na, nb) = trim_range(&rest, 0, open);
    let name = sub_vec(&rest, na, nb);
    let stack = first_num_text(&sub_vec(&rest, open, m));
    let cards: Option<[Card; 2]> = if cs.len() == 2 { Some([cs[0], cs[1]]) } else { None };
    if contains_exec(&tags, &chars_of("HERO")) {
        e.hero = Some(k);
    }
    if contains_exec(&tags, &chars_of("BTN")) || contains_exec(&tags, &chars_of("BUTTON")) {
        e.button = k;
    }
    let ghost old_names = e.names@;
    let ghost old_stacks = e.stacks@;
    let ghost old_nums = e.nums@;
    let ghost old_cards = e.cards@;
    e.names.push(name);
    e.nums.push(num);
    e.stacks.push(stack);
    e.cards.push(cards);
    proof {
        let ns = seat_step(s, l@);
        assert forall|i: int| 0 <= i < ns.seats.len() implies {
            &&& (#[trigger] e.names@[i])@ == ns.seats[i].0
            &&& e.nums@[i] == ns.seats[i].1
            &&& dec_is(e.stacks@[i], ns.seats[i].2)
            &&& cards_are(e.cards@[i], ns.seats[i].3)
        } by {
            if i < k {
                assert(e.names@[i] == old_names[i]);
                assert(e.nums@[i] == old_nums[i]);
                assert(e.stacks@[i] == old_stacks[i]);
                assert(e.cards@[i] == old_cards[i]);
            }
        }
    }
}

/// The seat that speaks a line (see `b_speaker`).
fn b_speaker_exec(names: &Vec<Vec<char>>, body: &Vec<char>, Ghost(seats): Ghost<Seq<SeatB>>) -> (r: Option<usize>)
    requires
        names@.len() == seats.len(),
        forall|i: int| 0 <= i < seats.len() ==> (#[trigger] names@[i])@ == seats[i].0,
    ensures
        match r {
            Some(k) => b_speaker(seats, body@, seats.len() as int) == Some(k as int) && k < seats.len(),
            None => b_speaker(seats, body@, seats.len() as int) is None,
        },
{
    let n = names.len();
    let mut best: Option<usize> = None;
    let mut k: usize = 0;
    while k < n
        invariant
            k <= n == names@.len() == seats.len(),
            forall|i: int| 0 <= i < seats.len() ==> (#[trigger] names@[i])@ == seats[i].0,
            match best {
                Some(b) => b_speaker(seats, body@, k as int) == Some(b as int) && b < k,
                None => b_speaker(seats, body@, k as int) is None,
            },
        decreases n - k,
    {
        let name = &names[k];
        assert(name@ == seats[k as int].0);
        let m = name.len();
        let hit = m < body.len() && starts_with_exec(body, name) && (body[m] == ':' || body[m] == ' ');
        if hit {
            let better = match best {
                None => true,
                Some(b) => {
                    assert(names@[b as int]@ == seats[b as int].0);
                    m >= names[b].len()
                },
            };
            if better {
                best = Some(k);
            }
        }
        k = k + 1;
    }
    best
}

fn b_set_cards(e: &mut BExec, k: usize, cs: &Vec<Card>, Ghost(s): Ghost<BState>)
    requires
        b_is(*old(e), s),
        k < s.seats.len(),
        cs@.len() >= 2,
    ensures
        b_is(*final(e), BState { seats: with_cards(s.seats, k as int, cs@), ..s }),
        final(e).names@ == old(e).names@,
        final(e).part == old(e).part,
        final(e).section == old(e).section,
{
    e.cards.set(k, Some([cs[0], cs[1]]));
    proof {
        let ns = with_cards(s.seats, k as int, cs@);
        assert forall|i: int| 0 <= i < ns.len() implies {
            &&& (#[trigger] e.names@[i])@ == ns[i].0
            &&& e.nums@[i] == ns[i].1
            &&& dec_is(e.stacks@[i], ns[i].2)
            &&& cards_are(e.cards@[i], ns[i].3)
        } by {
            if i != k {
                assert(e.cards@[i] == old(e).cards@[i]);
            }
        }
    }
}

/// A line of play spoken by seat `who` (see `play_line_b`).
#[verifier::spinoff_prover]
#[verifier::rlimit(80)]
fn b_play(e: &mut BExec, who: usize, what: &Vec<char>, Ghost(s): Ghost<BState>)
    requires
        b_is(*old(e), s),
        who < s.seats.len() < 256,
    ensures
        b_is(*final(e), play_line_b(s, who as int, what@)),
        final(e).names@ == old(e).names@,
        final(e).part == old(e).part,
        final(e).section == old(e).section,
{
    proof {
        reveal_strlit("finished ");
        reveal_strlit(" wins ");
        reveal_strlit("");
    }
    let w = lower_vec(what);
    let ws = string_of(what, 0, what.len());
    assert(what@.subrange(0, what@.len() as int) =~= what@);
    let cs = crate::parser::common::cards_in_brackets(ws.as_str());
    if e.section == 3 {
        if cs.len() >= 2 {
            b_set_cards(e, who, &cs, Ghost(s));
        }
        return;
    }
    let wn = w.len();
    if starts_with_exec(&w, &chars_of("finished ")) {
        let rest = sub_vec(&w, 9, wn);
        let place: u8 = match parse_u8_exec(&digit_prefix_exec(&rest)) {
            Some(x) => x,
            None => 0,
        };
        let wins_s = chars_of(" wins ");
        let won = match find_exec(&rest, &wins_s, 0) {
            Some(i) => {
                proof {
                    lemma_find_from_range(rest@, wins_s@, 0);
                }
                first_num_text(&sub_vec(&rest, i + 6, rest.len()))
            },
            None => zero(),
        };
        let ghost old_placed = e.placed@;
        e.placed.push((who, place, won));
        proof {
            let ns = play_line_b(s, who as int, what@);
            assert forall|i: int| 0 <= i < ns.placed.len() implies (#[trigger] e.placed@[i]).0 == ns.placed[i].0
                && e.placed@[i].1 == ns.placed[i].1 && dec_is(e.placed@[i].2, ns.placed[i].2) by {
                if i < old_placed.len() {
                    assert(e.placed@[i] == old_placed[i]);
                }
            }
        }
        return;
    }
    let shows = starts_with_exec(&w, &chars_of("show")) || starts_with_exec(&w, &chars_of("dealt"))
        || starts_with_exec(&w, &chars_of("cards")) || starts_with_exec(&w, &chars_of("muck"))
        || starts_with_exec(&w, &chars_of("hole"));
    if cs.len() >= 2 && shows {
        b_set_cards(e, who, &cs, Ghost(s));
        return;
    }
    if starts_with_exec(&w, &chars_of("win")) || starts_with_exec(&w, &chars_of("collect"))
        || starts_with_exec(&w, &chars_of("won")) {
        match win_text_exec(what) {
            Some(d) => {
                let ghost old_wins = e.wins@;
                e.wins.push((who as u8, d));
                e.had_wins = true;
                proof {
                    let ns = play_line_b(s, who as int, what@);
                    assert forall|i: int| 0 <= i < ns.wins.len() implies (#[trigger] e.wins@[i]).0 == ns.wins[i].0
                        && dec_is(e.wins@[i].1, ns.wins[i].1) by {
                        if i < old_wins.len() {
                            assert(e.wins@[i] == old_wins[i]);
                        }
                    }
                }
            },
            None => {},
        }
        return;
    }
    let allin = contains_exec(&w, &chars_of("all-in")) || contains_exec(&w, &chars_of("all in"))
        || contains_exec(&w, &chars_of("allin"));
    match b_verb_exec(&w, what) {
        Some((kind, d)) => {
            let ghost old_acts = e.acts@;
            let a = crate::parser::expresso::ActText {
                street: e.street,
                p: who as u8,
                kind,
                amount: d,
                allin,
                part: e.part,
            };
            e.acts.push(a);
            proof {
                let ns = play_line_b(s, who as int, what@);
                assert forall|i: int| 0 <= i < ns.acts.len() implies act_is(#[trigger] e.acts@[i], ns.acts[i]) by {
                    if i < old_acts.len() {
                        assert(e.acts@[i] == old_acts[i]);
                    }
                }
            }
        },
        None => {},
    }
}

proof fn lemma_b_speaker_range(seats: Seq<SeatB>, body: Seq<char>, k: int)
    ensures
        b_speaker(seats, body, k) matches Some(x) ==> 0 <= x < k && seats[x].0.len() < body.len(),
    decreases k,
{
    if k > 0 {
        lemma_b_speaker_range(seats, body, k - 1);
    }
}

/// One trimmed line of the block (see `b_step`).
fn b_line(e: &mut BExec, l: &Vec<char>, Ghost(s): Ghost<BState>)
    requires
        b_is(*old(e), s),
        old(e).part < usize::MAX,
        old(e).names@.len() < 255,
    ensures
        b_is(*final(e), b_step(s, l@)),
        final(e).names@.len() <= old(e).names@.len() + (if starts_with(l@, "Seat"@) { 1int } else { 0 }),
        final(e).part <= old(e).part + 1,
{
    if starts_with_exec(l, &chars_of("***")) {
        b_section(e, l, Ghost(s));
    } else if starts_with_exec(l, &chars_of("Board:")) || starts_with_exec(l, &chars_of("Community Cards:")) {
        b_board(e, l, Ghost(s));
    } else if e.section == 1 && starts_with_exec(l, &chars_of("Seat")) {
        b_seat(e, l, Ghost(s));
    } else if e.section != 2 && e.section != 3 {
    } else {
        let body = strip_clock_exec(l);
        match b_speaker_exec(&e.names, &body, Ghost(s.seats)) {
            None => {},
            Some(who) => {
                proof {
                    lemma_b_speaker_range(s.seats, body@, s.seats.len() as int);
                }
                let m = e.names[who].len();
                assert(e.names@[who as int]@ == s.seats[who as int].0);
                let bn = body.len();
                let (a, b) = trim_range(&body, m + 1, bn);
                let what = sub_vec(&body, a, b);
                b_play(e, who, &what, Ghost(s));
            },
        }
    }
}

// ---------------------------------------------------------------- the hand

/// The first of two optional texts that is present.
pub open spec fn either(a: Option<Seq<char>>, b: Option<Seq<char>>) -> Option<Seq<char>> {
    match a {
        Some(x) => Some(x),
        None => b,
    }
}

/// An optional text, or `d` where it is absent.
pub open spec fn or_text(a: Option<Seq<char>>, d: Seq<char>) -> Seq<char> {
    match a {
        Some(x) => x,
        None => d,
    }
}

/// Small and big blind texts of a "Blinds:" value "10/20" (what is missing reads as zero).
pub open spec fn blind_pair(b: Option<Seq<char>>) -> (Seq<char>, Seq<char>) {
    match b {
        Some(v) => {
            let p = split_on(v, '/');
            (p[0], if p.len() > 1 { p[1] } else { Seq::empty() })
        },
        None => (Seq::empty(), Seq::empty()),
    }
}

/// Place and amount of the first announcement about seat `who` from the `i`-th on; place 0
/// and no amount when there is none.
pub open spec fn placed_of(placed: Seq<(int, u8, Seq<char>)>, who: int, i: int) -> (u8, Seq<char>)
    decreases placed.len() - i,
{
    if i < 0 || i >= placed.len() {
        (0u8, Seq::empty())
    } else if placed[i].0 == who {
        (placed[i].1, placed[i].2)
    } else {
        placed_of(placed, who, i + 1)
    }
}

/// Number of lines among the first `k` that start with "Seat" once trimmed.
pub open spec fn seat_lines(ls: Seq<Seq<char>>, k: int) -> int
    decreases k,
{
    if k <= 0 {
        0
    } else {
        seat_lines(ls, k - 1) + if starts_with(trim(ls[k - 1]), "Seat"@) { 1int } else { 0 }
    }
}

/// What a block says: identifiers, header texts, the date, the state after all its lines,
/// the hero's seat and what the summary announced for the hero.
pub struct BHandText {
    pub hid: Seq<char>,
    pub tcode: Seq<char>,
    pub name: Seq<char>,
    pub buyin: Seq<char>,
    pub ts: int,
    pub ante: Seq<char>,
    pub sb: Seq<char>,
    pub bb: Seq<char>,
    pub prize: Seq<char>,
    pub mult: Seq<char>,
    pub play: BState,
    pub hero: int,
    pub place: u8,
    pub won: Seq<char>,
}

/// A Betclic hand from one block: a "Hand ID:" and a game, tournament or table identifier
/// in the header, at least two seats, and a seat tagged "Hero".
pub open spec fn spec_read_block(block: Seq<char>) -> Option<BHandText> {
    let ls = line_texts(block);
    let st = b_upto(ls, ls.len() as int);
    let tcode = either(
        either(spec_header(block, "Game ID:"@), spec_header(block, "Tournament ID:"@)),
        spec_header(block, "Table ID:"@),
    );
    match (spec_header(block, "Hand ID:"@), tcode) {
        (Some(hid), Some(tcode)) => if st.seats.len() < 2 {
            None
        } else {
            match st.hero {
                None => None,
                Some(hero) => Some(
                    BHandText {
                        hid,
                        tcode,
                        name: or_text(spec_header(block, "Game Name:"@), "Betclic"@),
                        buyin: or_text(
                            either(spec_header(block, "Buy In:"@), spec_header(block, "Buy-In:"@)),
                            Seq::empty(),
                        ),
                        ts: match spec_header(block, "Date & Time:"@) {
                            Some(d) => match spec_parse_date_tz(d) {
                                Some(t) => t,
                                None => 0,
                            },
                            None => 0,
                        },
                        ante: or_text(spec_header(block, "Ante:"@), Seq::empty()),
                        sb: blind_pair(spec_header(block, "Blinds:"@)).0,
                        bb: blind_pair(spec_header(block, "Blinds:"@)).1,
                        prize: or_text(
                            either(
                                either(spec_header(block, "Prize Pool:"@), spec_header(block, "Prizepool:"@)),
                                either(spec_header(block, "Total Prize:"@), spec_header(block, "Prize:"@)),
                            ),
                            Seq::empty(),
                        ),
                        mult: match spec_header(block, "Multiplier:"@) {
                            Some(m) => first_number_text(m),
                            None => Seq::empty(),
                        },
                        play: st,
                        hero,
                        place: placed_of(st.placed, hero, 0).0,
                        won: placed_of(st.placed, hero, 0).1,
                    },
                ),
            }
        },
        _ => None,
    }
}

/// The block can be read without overflow: fewer than 255 seat lines, and a date that
/// `parse_date_tz` can compute.
pub open spec fn spec_block_fits(block: Seq<char>) -> bool {
    &&& seat_lines(line_texts(block), line_texts(block).len() as int) < 255
    &&& (spec_header(block, "Date & Time:"@) matches Some(d) ==> date_tz_fits(d))
}

/// A Betclic hand as read from its block. Amounts are exact decimals as written; stacks,
/// bets and pots are summed by the caller.
pub struct BetclicHand {
    /// "bcl:" and the game (tournament) identifier
    pub tid: String,
    /// "bcl:" and the hand identifier
    pub id: String,
    pub name: String,
    pub buyin: String,
    pub ts: i64,
    pub ante: Decimal,
    pub sb: Decimal,
    pub bb: Decimal,
    pub prize: Decimal,
    pub mult: Decimal,
    pub seats: Vec<crate::parser::expresso::SeatText>,
    pub button: u8,
    pub hero: u8,
    pub board: Vec<Card>,
    /// actions; for a raise, the amount is the street total it raises to
    pub actions: Vec<crate::parser::expresso::ActText>,
    /// amounts won: seat index, amount
    pub wins: Vec<(u8, Decimal)>,
    pub had_wins: bool,
    pub hero_place: u8,
    pub hero_prize: Decimal,
}

/// `h` holds what `t` says.
pub open spec fn reads_block(h: BetclicHand, t: BHandText) -> bool {
    &&& h.tid@ == "bcl:"@ + t.tcode
    &&& h.id@ == "bcl:"@ + t.hid
    &&& h.name@ == t.name
    &&& h.buyin@ == t.buyin
    &&& h.ts == t.ts
    &&& dec_is(h.ante, t.ante)
    &&& dec_is(h.sb, t.sb)
    &&& dec_is(h.bb, t.bb)
    &&& dec_is(h.prize, t.prize)
    &&& dec_is(h.mult, t.mult)
    &&& h.seats@.len() == t.play.seats.len()
    &&& forall|i: int|
        0 <= i < t.play.seats.len() ==> {
            &&& (#[trigger] h.seats@[i]).name@ == t.play.seats[i].0
            &&& h.seats@[i].seat == t.play.seats[i].1
            &&& dec_is(h.seats@[i].stack, t.play.seats[i].2)
            &&& cards_are(h.seats@[i].cards, t.play.seats[i].3)
        }
    &&& h.button as int == t.play.button
    &&& h.hero as int == t.hero
    &&& h.board@ == t.play.board
    &&& h.actions@.len() == t.play.acts.len()
    &&& forall|i: int| 0 <= i < t.play.acts.len() ==> act_is(#[trigger] h.actions@[i], t.play.acts[i])
    &&& h.wins@.len() == t.play.wins.len()
    &&& forall|i: int|
        0 <= i < t.play.wins.len() ==> (#[trigger] h.wins@[i]).0 == t.play.wins[i].0 && dec_is(
            h.wins@[i].1,
            t.play.wins[i].1,
        )
    &&& h.had_wins == t.play.had_wins
    &&& h.hero_place == t.place
    &&& dec_is(h.hero_prize, t.won)
}

proof fn lemma_seat_lines_mono(ls: Seq<Seq<char>>, a: int, b: int)
    requires
        a <= b,
    ensures
        seat_lines(ls, a) <= seat_lines(ls, b),
    decreases b - a,
{
    if a < b {
        lemma_seat_lines_mono(ls, a, b - 1);
    }
}

pub(crate) fn dec_copy(d: &Decimal) -> (r: Decimal)
    ensures
        r.negative == d.negative && r.digits@ == d.digits@ && r.scale == d.scale,
{
    Decimal { negative: d.negative, digits: d.digits.clone(), scale: d.scale }
}

proof fn lemma_b_upto_bounds(ls: Seq<Seq<char>>, k: int)
    ensures
        b_upto(ls, k).button <= b_upto(ls, k).seats.len(),
        b_upto(ls, k).hero matches Some(h) ==> 0 <= h < b_upto(ls, k).seats.len(),
        0 <= b_upto(ls, k).button,
    decreases k,
{
    if k > 0 {
        lemma_b_upto_bounds(ls, k - 1);
        lemma_b_step_bounds(b_upto(ls, k - 1), trim(ls[k - 1]));
    }
}

proof fn lemma_b_step_bounds(st: BState, l: Seq<char>)
    requires
        0 <= st.button <= st.seats.len(),
        st.hero matches Some(h) ==> 0 <= h < st.seats.len(),
    ensures
        0 <= b_step(st, l).button <= b_step(st, l).seats.len(),
        b_step(st, l).hero matches Some(h) ==> 0 <= h < b_step(st, l).seats.len(),
{
    let body = strip_clock(l);
    lemma_b_speaker_range(st.seats, body, st.seats.len() as int);
    if starts_with(l, "***"@) {
    } else if starts_with(l, "Board:"@) || starts_with(l, "Community Cards:"@) {
    } else if st.section == 1 && starts_with(l, "Seat"@) {
    } else if st.section != 2 && st.section != 3 {
    } else {
        match b_speaker(st.seats, body, st.seats.len() as int) {
            None => {},
            Some(who) => {
                let name = st.seats[who].0;
                let what = trim(body.subrange(name.len() as int + 1, body.len() as int));
                let cs = bracket_cards(what);
                if cs.len() >= 2 {
                    assert(with_cards(st.seats, who, cs).len() == st.seats.len());
                }
            },
        }
    }
}

/// Whether a block can be read by `read_block` (see `spec_block_fits`).
pub fn block_fits(block: &str) -> (r: bool)
    ensures
        r == spec_block_fits(block@),
{
    let lines = text_lines(block);
    let ghost ls = line_texts(block@);
    let n = lines.len();
    let mut count: usize = 0;
    let mut k: usize = 0;
    while k < n
        invariant
            k <= n == ls.len(),
            views(lines@) == ls,
            count == seat_lines(ls, k as int),
            count <= k,
        decreases n - k,
    {
        let line = &lines[k];
        assert(views(lines@)[k as int] == line@);
        let (a, b) = trim_range(line, 0, line.len());
        assert(line@.subrange(0, line@.len() as int) =~= line@);
        let t = sub_vec(line, a, b);
        if starts_with_exec(&t, &chars_of("Seat")) {
            count = count + 1;
        }
        k = k + 1;
    }
    let date_ok = match crate::parser::betclic::header(block, "Date & Time:") {
        Some(d) => crate::parser::date_tz_in_range(d.as_str()),
        None => true,
    };
    count < 255 && date_ok
}

/// Reads one Betclic hand from its block of lines (see `spec_read_block`).
#[verifier::rlimit(60)]
#[verifier::spinoff_prover]
pub fn read_block(block: &str) -> (r: Option<BetclicHand>)
    requires
        spec_block_fits(block@),
    ensures
        match r {
            None => spec_read_block(block@) is None,
            Some(h) => spec_read_block(block@) matches Some(t) && reads_block(h, t),
        },
{
    let hid = match crate::parser::betclic::header(block, "Hand ID:") {
        Some(x) => x,
        None => return None,
    };
    let tcode = match crate::parser::betclic::header(block, "Game ID:") {
        Some(x) => x,
        None => match crate::parser::betclic::header(block, "Tournament ID:") {
            Some(x) => x,
            None => match crate::parser::betclic::header(block, "Table ID:") {
                Some(x) => x,
                None => return None,
            },
        },
    };
    let lines = text_lines(block);
    let ghost ls = line_texts(block@);
    let n = lines.len();
    let mut e = BExec {
        section: 0,
        street: 0,
        part: 0,
        board: Vec::new(),
        names: Vec::new(),
        nums: Vec::new(),
        stacks: Vec::new(),
        cards: Vec::new(),
        hero: None,
        button: 0,
        acts: Vec::new(),
        wins: Vec::new(),
        placed: Vec::new(),
        had_wins: false,
    };
    let mut k: usize = 0;
    while k < n
        invariant
            k <= n == ls.len(),
            views(lines@) == ls,
            b_is(e, b_upto(ls, k as int)),
            e.part <= k,
            e.names@.len() <= seat_lines(ls, k as int),
            seat_lines(ls, n as int) < 255,
        decreases n - k,
    {
        let line = &lines[k];
        assert(views(lines@)[k as int] == line@);
        let (a, b) = trim_range(line, 0, line.len());
        assert(line@.subrange(0, line@.len() as int) =~= line@);
        let t = sub_vec(line, a, b);
        proof {
            lemma_seat_lines_mono(ls, k + 1, n as int);
        }
        b_line(&mut e, &t, Ghost(b_upto(ls, k as int)));
        k = k + 1;
    }
    let ghost st = b_upto(ls, n as int);
    proof {
        lemma_b_upto_bounds(ls, n as int);
    }
    let ns = e.names.len();
    if ns < 2 {
        return None;
    }
    let hero = match e.hero {
        Some(h) => h,
        None => return None,
    };
    // header texts
    let name = match crate::parser::betclic::header(block, "Game Name:") {
        Some(x) => x,
        None => String::from_str("Betclic"),
    };
    let buyin = match crate::parser::betclic::header(block, "Buy In:") {
        Some(x) => x,
        None => match crate::parser::betclic::header(block, "Buy-In:") {
            Some(x) => x,
            None => String::new(),
        },
    };
    let ts: i64 = match crate::parser::betclic::header(block, "Date & Time:") {
        Some(d) => match crate::parser::parse_date_tz(d.as_str()) {
            Some(t) => t,
            None => 0,
        },
        None => 0,
    };
    proof {
        reveal_strlit("");
    }
    let ante = match crate::parser::betclic::header(block, "Ante:") {
        Some(a) => crate::parser::parse_num(a.as_str()),
        None => zero(),
    };
    let (sb, bb) = match crate::parser::betclic::header(block, "Blinds:") {
        Some(b) => {
            let v = chars_of(b.as_str());
            let p = crate::parser::expresso::split_nums(&v, '/');
            proof {
                crate::parser::expresso::lemma_split_on_len(v@, '/');
            }
            let s0 = dec_copy(&p[0]);
            let s1 = if p.len() > 1 { dec_copy(&p[1]) } else { zero() };
            (s0, s1)
        },
        None => (zero(), zero()),
    };
    let prize_text = match crate::parser::betclic::header(block, "Prize Pool:") {
        Some(x) => Some(x),
        None => match crate::parser::betclic::header(block, "Prizepool:") {
            Some(x) => Some(x),
            None => match crate::parser::betclic::header(block, "Total Prize:") {
                Some(x) => Some(x),
                None => crate::parser::betclic::header(block, "Prize:"),
            },
        },
    };
    let prize = match prize_text {
        Some(x) => crate::parser::parse_num(x.as_str()),
        None => zero(),
    };
    let mult = match crate::parser::betclic::header(block, "Multiplier:") {
        Some(m) => first_num_text(&chars_of(m.as_str())),
        None => zero(),
    };
    // the hero's place and prize
    let np = e.placed.len();
    let mut q: usize = 0;
    while q < np && e.placed[q].0 != hero
        invariant
            q <= np == e.placed@.len() == st.placed.len(),
            forall|i: int|
                0 <= i < st.placed.len() ==> (#[trigger] e.placed@[i]).0 == st.placed[i].0 && e.placed@[i].1
                    == st.placed[i].1 && dec_is(e.placed@[i].2, st.placed[i].2),
            placed_of(st.placed, hero as int, 0) == placed_of(st.placed, hero as int, q as int),
        decreases np - q,
    {
        q = q + 1;
    }
    let (place, won): (u8, Decimal) = if q < np {
        (e.placed[q].1, dec_copy(&e.placed[q].2))
    } else {
        (0, zero())
    };
    // the seats
    let mut seats: Vec<crate::parser::expresso::SeatText> = Vec::new();
    let mut i: usize = 0;
    while i < ns
        invariant
            i <= ns == e.names@.len() == st.seats.len(),
            b_is(e, st),
            seats@.len() == i,
            forall|j: int|
                0 <= j < i ==> {
                    &&& (#[trigger] seats@[j]).name@ == st.seats[j].0
                    &&& seats@[j].seat == st.seats[j].1
                    &&& dec_is(seats@[j].stack, st.seats[j].2)
                    &&& cards_are(seats@[j].cards, st.seats[j].3)
                },
        decreases ns - i,
    {
        let nm = &e.names[i];
        assert(nm@ == st.seats[i as int].0);
        assert(nm@.subrange(0, nm@.len() as int) =~= nm@);
        let seat = crate::parser::expresso::SeatText {
            name: string_of(nm, 0, nm.len()),
            seat: e.nums[i],
            stack: dec_copy(&e.stacks[i]),
            cards: e.cards[i],
        };
        seats.push(seat);
        i = i + 1;
    }
    let h = BetclicHand {
        tid: prefixed("bcl:", &tcode),
        id: prefixed("bcl:", &hid),
        name,
        buyin,
        ts,
        ante,
        sb,
        bb,
        prize,
        mult,
        seats,
        button: e.button as u8,
        hero: hero as u8,
        board: e.board,
        actions: e.acts,
        wins: e.wins,
        had_wins: e.had_wins,
        hero_place: place,
        hero_prize: won,
    };
    Some(h)
}

// ---------------------------------------------------------------- hands of a file

/// A separating line: at least three characters once trimmed, all '-'.
pub open spec fn dash_line(l: Seq<char>) -> bool {
    let t = trim(l);
    t.len() >= 3 && forall|i: int| 0 <= i < t.len() ==> #[trigger] t[i] == '-'
}

/// Blocks closed and the block being read after the first `k` lines: a separating line
/// closes a block that holds more than whitespace; a line "Hand ID:" closes a block that
/// already has one; other lines are added with a line feed.
pub open spec fn bcl_blocks_upto(ls: Seq<Seq<char>>, k: int) -> (Seq<Seq<char>>, Seq<char>)
    decreases k,
{
    if k <= 0 {
        (Seq::empty(), Seq::empty())
    } else {
        let (bs, cur) = bcl_blocks_upto(ls, k - 1);
        let l = ls[k - 1];
        if dash_line(l) {
            if trim(cur).len() > 0 {
                (bs.push(cur), Seq::empty())
            } else {
                (bs, cur)
            }
        } else if starts_with(trim_start_by(l, 0), "Hand ID:"@) && contains(cur, "Hand ID:"@) {
            (bs.push(cur), l + "\n"@)
        } else {
            (bs, cur + l + "\n"@)
        }
    }
}

/// The hands of a Betclic file, each as its block of text.
pub open spec fn spec_betclic_blocks(c: Seq<char>) -> Seq<Seq<char>> {
    let ls = line_texts(c);
    let (bs, cur) = bcl_blocks_upto(ls, ls.len() as int);
    if trim(cur).len() > 0 {
        bs.push(cur)
    } else {
        bs
    }
}

fn dash_line_exec(l: &Vec<char>) -> (r: bool)
    ensures
        r == dash_line(l@),
{
    let (a, b) = trim_range(l, 0, l.len());
    assert(l@.subrange(0, l@.len() as int) =~= l@);
    let t = sub_vec(l, a, b);
    if t.len() < 3 {
        return false;
    }
    let mut i: usize = 0;
    while i < t.len()
        invariant
            i <= t@.len(),
            t@ == trim(l@),
            forall|j: int| 0 <= j < i ==> #[trigger] t@[j] == '-',
        decreases t@.len() - i,
    {
        if t[i] != '-' {
            return false;
        }
        i = i + 1;
    }
    true
}

fn append_line(cur: &mut Vec<char>, l: &Vec<char>)
    ensures
        final(cur)@ == old(cur)@ + l@ + "\n"@,
{
    proof {
        reveal_strlit("\n");
    }
    let ghost c0 = cur@;
    let mut i: usize = 0;
    while i < l.len()
        invariant
            i <= l@.len(),
            cur@ == c0 + l@.take(i as int),
        decreases l@.len() - i,
    {
        cur.push(l[i]);
        assert(c0 + l@.take(i + 1) =~= (c0 + l@.take(i as int)).push(l@[i as int]));
        i = i + 1;
    }
    assert(l@.take(l@.len() as int) =~= l@);
    cur.push('\n');
    assert(c0 + l@ + "\n"@ =~= (c0 + l@).push('\n'));
}

fn blank(v: &Vec<char>) -> (r: bool)
    ensures
        r == (trim(v@).len() == 0),
{
    let (a, b) = trim_range(v, 0, v.len());
    assert(v@.subrange(0, v@.len() as int) =~= v@);
    a == b
}

/// Splits a Betclic file into the blocks of its hands (see `spec_betclic_blocks`).
pub fn betclic_blocks(c: &str) -> (out: Vec<String>)
    ensures
        out@.len() == spec_betclic_blocks(c@).len(),
        forall|i: int| 0 <= i < out@.len() ==> (#[trigger] out@[i])@ == spec_betclic_blocks(c@)[i],
{
    proof {
        reveal_strlit("Hand ID:");
    }
    let lines = text_lines(c);
    let ghost ls = line_texts(c@);
    let n = lines.len();
    let key = chars_of("Hand ID:");
    let mut out: Vec<String> = Vec::new();
    let mut cur: Vec<char> = Vec::new();
    let mut k: usize = 0;
    while k < n
        invariant
            k <= n == ls.len(),
            views(lines@) == ls,
            key@ == "Hand ID:"@,
            out@.len() == bcl_blocks_upto(ls, k as int).0.len(),
            forall|i: int| 0 <= i < out@.len() ==> (#[trigger] out@[i])@ == bcl_blocks_upto(ls, k as int).0[i],
            cur@ == bcl_blocks_upto(ls, k as int).1,
        decreases n - k,
    {
        let l = &lines[k];
        assert(views(lines@)[k as int] == l@);
        let ghost ob = out@;
        if dash_line_exec(l) {
            if !blank(&cur) {
                assert(cur@.subrange(0, cur@.len() as int) =~= cur@);
                out.push(string_of(&cur, 0, cur.len()));
                cur = Vec::new();
            }
        } else {
            let a = trim_start_index(l);
            let ts = sub_vec(l, a, l.len());
            if starts_with_exec(&ts, &key) && contains_exec(&cur, &key) {
                assert(cur@.subrange(0, cur@.len() as int) =~= cur@);
                out.push(string_of(&cur, 0, cur.len()));
                cur = Vec::new();
                assert(cur@ =~= Seq::<char>::empty());
                append_line(&mut cur, l);
                assert(Seq::<char>::empty() + l@ + "\n"@ =~= l@ + "\n"@);
            } else {
                append_line(&mut cur, l);
            }
        }
        proof {
            assert forall|i: int| 0 <= i < out@.len() implies (#[trigger] out@[i])@ == bcl_blocks_upto(ls, k + 1).0[i] by {
                if i < ob.len() {
                    assert(out@[i] == ob[i]);
                }
            }
        }
        k = k + 1;
    }
    if !blank(&cur) {
        assert(cur@.subrange(0, cur@.len() as int) =~= cur@);
        let ghost ob = out@;
        out.push(string_of(&cur, 0, cur.len()));
        proof {
            assert forall|i: int| 0 <= i < out@.len() implies (#[trigger] out@[i])@ == spec_betclic_blocks(c@)[i] by {
                if i < ob.len() {
                    assert(out@[i] == ob[i]);
                }
            }
        }
    }
    out
}

} // verus!
