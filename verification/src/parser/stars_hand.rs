//! Reading one PokerStars or Unibet hand: the header line (identifiers, buy-in, blinds,
//! prize, date), the seats, and the lines of play, into exact values (amounts as written,
//! read as decimals). Stacks and pots are then summed by the caller.
use vstd::prelude::*;
use crate::model::{ActKind, Card};
use crate::parser::{Decimal, spec_parse_num, first_number_text};
use crate::parser::common::bracket_cards;
use crate::parser::expresso::{dec_is, before, second_piece, parse_u8, split_on, blind_texts, act_is, cards_are, line_texts, views};
use crate::parser::expresso::{before_exec, second_piece_exec, parse_u8_exec, zero, prefixed};
use crate::parser::betclic_hand::{digit_prefix, lower_seq, or_text, lower_vec, digit_prefix_exec, first_num_text, first_num_opt, dec_copy};
use crate::parser::stars::{spec_between, spec_clean_name, spec_find_date, date_pair_fits};
use crate::parser::ipoker::{word_end, lemma_word_end};
use crate::text::{contains, find, find_from, rfind, starts_with, trim, trim_start_by, upper_seq, is_ws, is_ws_exec};
use crate::text::{chars_of, find_exec, rfind_exec, starts_with_exec, contains_exec, sub_vec, string_of, trim_range, trim_start_index, upper_vec, lemma_find_from_range, lemma_rfind_range, occurs_at};

verus! {

// ---------------------------------------------------------------- the header line

/// First whitespace-separated word of a text (`split_whitespace().next()`), empty if none.
pub open spec fn first_word(x: Seq<char>) -> Seq<char> {
    let t = trim_start_by(x, 0);
    t.subrange(0, word_end(t, 0))
}

/// A text with '/' read as '+'.
pub open spec fn slash_as_plus(s: Seq<char>) -> Seq<char> {
    Seq::new(s.len(), |i: int| if s[i] == '/' { '+' } else { s[i] })
}

/// The text reads as a number greater than zero.
pub open spec fn text_positive(t: Seq<char>) -> bool {
    let (neg, ds, _) = spec_parse_num(t);
    !neg && exists|i: int| 0 <= i < ds.len() && ds[i] != 0
}

/// First words of the first `k` pieces that read as positive numbers.
pub open spec fn positive_words(ps: Seq<Seq<char>>, k: int) -> Seq<Seq<char>>
    decreases k,
{
    if k <= 0 {
        Seq::empty()
    } else {
        let prev = positive_words(ps, k - 1);
        let w = first_word(ps[k - 1]);
        if text_positive(w) {
            prev.push(w)
        } else {
            prev
        }
    }
}

/// Buy-in amounts: the field after "Tournament #…," up to the next comma and " - ", split
/// at '+' and '/', the first word of each piece, those greater than zero.
pub open spec fn buyin_texts(l: Seq<char>) -> Seq<Seq<char>> {
    let seg = match find(l, "Tournament #"@) {
        Some(p) => before(or_text(second_piece(l.subrange(p, l.len() as int), ","@), Seq::empty()), " - "@),
        None => Seq::empty(),
    };
    let ps = split_on(slash_as_plus(seg), '+');
    positive_words(ps, ps.len() as int)
}

/// A piece of the header that holds the blinds: a '/', and only digits, '/', '.', ',' and
/// spaces.
pub open spec fn blind_like(p: Seq<char>) -> bool {
    contains(p, "/"@) && forall|i: int|
        0 <= i < p.len() ==> ('0' <= #[trigger] p[i] <= '9' || p[i] == '/' || p[i] == '.' || p[i] == ','
            || p[i] == ' ')
}

/// First piece of `s.split(" - ")` that holds the blinds, or nothing.
pub open spec fn blind_piece(s: Seq<char>) -> Seq<char>
    decreases s.len(),
{
    match find(s, " - "@) {
        None => if blind_like(s) { s } else { Seq::empty() },
        Some(i) => {
            proof {
                reveal_strlit(" - ");
                lemma_find_from_range(s, " - "@, 0);
            }
            if blind_like(s.subrange(0, i)) {
                s.subrange(0, i)
            } else {
                blind_piece(s.subrange(i + 3, s.len() as int))
            }
        },
    }
}

/// The blinds of the header: "(10/20)", else a piece " - 25.00/50.00 - ".
pub open spec fn blinds_text(l: Seq<char>) -> Seq<char> {
    match spec_between(l, "("@, ")"@) {
        Some(b) => if contains(b, "/"@) { b } else { blind_piece(l) },
        None => blind_piece(l),
    }
}

/// What a hand header says: the room (Unibet or PokerStars), the hand and tournament
/// numbers, the buy-in amounts, the blinds, the prize, the date.
pub struct HeadText {
    pub unibet: bool,
    pub hid: Seq<char>,
    pub tcode: Seq<char>,
    pub buyin: Seq<Seq<char>>,
    pub sb: Seq<char>,
    pub bb: Seq<char>,
    pub prize: Seq<char>,
    pub ts: int,
}

/// A header names a hand number ("Hand #" and digits) and a tournament number
/// ("Tournament #" and digits before the next comma).
pub open spec fn spec_head(l: Seq<char>) -> Option<HeadText> {
    let hid = match find(l, "Hand #"@) {
        Some(p) => digit_prefix(l.subrange(p + 6, l.len() as int)),
        None => Seq::empty(),
    };
    let tcode = match spec_between(l, "Tournament #"@, ","@) {
        Some(b) => digit_prefix(trim(b)),
        None => Seq::empty(),
    };
    if hid.len() == 0 || tcode.len() == 0 {
        None
    } else {
        let bl = blind_texts(split_on(blinds_text(l), '/'));
        Some(
            HeadText {
                unibet: starts_with(l, "Unibet"@),
                hid,
                tcode,
                buyin: buyin_texts(l),
                sb: bl.1,
                bb: bl.2,
                prize: or_text(spec_between(l, "Total prize"@, " -"@), Seq::empty()),
                ts: match spec_find_date(l) {
                    Some(t) => t,
                    None => 0,
                },
            },
        )
    }
}

pub(crate) fn first_word_exec(x: &Vec<char>) -> (r: Vec<char>)
    ensures
        r@ == first_word(x@),
{
    let a = trim_start_index(x);
    let t = sub_vec(x, a, x.len());
    let mut i: usize = 0;
    while i < t.len() && !is_ws_exec(t[i])
        invariant
            i <= t@.len(),
            word_end(t@, 0) == word_end(t@, i as int),
        decreases t@.len() - i,
    {
        i = i + 1;
    }
    sub_vec(&t, 0, i)
}

pub(crate) fn slash_as_plus_exec(v: &Vec<char>) -> (r: Vec<char>)
    ensures
        r@ == slash_as_plus(v@),
{
    let mut r: Vec<char> = Vec::new();
    let mut i: usize = 0;
    while i < v.len()
        invariant
            i <= v@.len(),
            r@ == slash_as_plus(v@.take(i as int)),
        decreases v@.len() - i,
    {
        let c = v[i];
        r.push(if c == '/' { '+' } else { c });
        assert(r@ =~= slash_as_plus(v@.take(i + 1)));
        i = i + 1;
    }
    assert(v@.take(v@.len() as int) =~= v@);
    r
}

/// The decimal is greater than zero.
pub(crate) fn dec_positive(d: &Decimal) -> (r: bool)
    ensures
        r == (!d.negative && exists|i: int| 0 <= i < d.digits@.len() && d.digits@[i] != 0),
{
    if d.negative {
        return false;
    }
    let mut i: usize = 0;
    while i < d.digits.len()
        invariant
            i <= d.digits@.len(),
            !d.negative,
            forall|j: int| 0 <= j < i ==> d.digits@[j] == 0,
        decreases d.digits@.len() - i,
    {
        if d.digits[i] != 0 {
            assert(d.digits@[i as int] != 0);
            return true;
        }
        i = i + 1;
    }
    false
}

/// Buy-in amounts of a header (see `buyin_texts`).
fn buyin_exec(lv: &Vec<char>) -> (out: Vec<Decimal>)
    ensures
        out@.len() == buyin_texts(lv@).len(),
        forall|i: int| 0 <= i < out@.len() ==> dec_is(#[trigger] out@[i], buyin_texts(lv@)[i]),
{
    proof {
        reveal_strlit("Tournament #");
        reveal_strlit("");
    }
    let n = lv.len();
    let tk = chars_of("Tournament #");
    let seg: Vec<char> = match find_exec(lv, &tk, 0) {
        Some(p) => {
            proof {
                lemma_find_from_range(lv@, tk@, 0);
            }
            let a = sub_vec(lv, p, n);
            let sp = match second_piece_exec(&a, &chars_of(",")) {
                Some(x) => x,
                None => Vec::new(),
            };
            before_exec(&sp, &chars_of(" - "))
        },
        None => Vec::new(),
    };
    let ps = crate::parser::expresso::split_chars(&slash_as_plus_exec(&seg), '+');
    let ghost pv = views(ps@);
    let mut out: Vec<Decimal> = Vec::new();
    let mut k: usize = 0;
    while k < ps.len()
        invariant
            k <= ps@.len() == pv.len(),
            pv == views(ps@),
            pv == split_on(slash_as_plus(seg@), '+'),
            out@.len() == positive_words(pv, k as int).len(),
            forall|i: int| 0 <= i < out@.len() ==> dec_is(#[trigger] out@[i], positive_words(pv, k as int)[i]),
        decreases ps@.len() - k,
    {
        assert(pv[k as int] == ps@[k as int]@);
        let w = first_word_exec(&ps[k]);
        let d = crate::parser::expresso::read_num(&w);
        let pos = dec_positive(&d);
        assert(spec_parse_num(w@).1 == d.digits@);
        assert(pos == text_positive(w@));
        assert(w@ == first_word(pv[k as int]));
        if pos {
            let ghost ob = out@;
            out.push(d);
            proof {
                assert forall|i: int| 0 <= i < out@.len() implies dec_is(#[trigger] out@[i], positive_words(pv, k + 1)[i]) by {
                    if i < ob.len() {
                        assert(out@[i] == ob[i]);
                    }
                }
            }
        }
        k = k + 1;
    }
    out
}

fn blind_like_exec(p: &Vec<char>) -> (r: bool)
    ensures
        r == blind_like(p@),
{
    if !contains_exec(p, &chars_of("/")) {
        return false;
    }
    let mut i: usize = 0;
    while i < p.len()
        invariant
            i <= p@.len(),
            forall|j: int|
                0 <= j < i ==> ('0' <= #[trigger] p@[j] <= '9' || p@[j] == '/' || p@[j] == '.' || p@[j] == ','
                    || p@[j] == ' '),
        decreases p@.len() - i,
    {
        let c = p[i];
        if !(('0' <= c && c <= '9') || c == '/' || c == '.' || c == ',' || c == ' ') {
            return false;
        }
        i = i + 1;
    }
    true
}

fn blind_piece_exec(l: &Vec<char>) -> (r: Vec<char>)
    ensures
        r@ == blind_piece(l@),
{
    proof {
        reveal_strlit(" - ");
        reveal_strlit("");
    }
    let sep = chars_of(" - ");
    let mut cur = sub_vec(l, 0, l.len());
    assert(l@.subrange(0, l@.len() as int) =~= l@);
    loop
        invariant
            blind_piece(l@) == blind_piece(cur@),
            sep@ == " - "@,
        decreases cur@.len(),
    {
        proof {
            reveal_strlit(" - ");
        }
        match find_exec(&cur, &sep, 0) {
            None => {
                if blind_like_exec(&cur) {
                    return cur;
                } else {
                    return Vec::new();
                }
            },
            Some(i) => {
                proof {
                    lemma_find_from_range(cur@, sep@, 0);
                }
                assert(sep@.len() == 3);
                assert(i + 3 <= cur@.len());
                let p = sub_vec(&cur, 0, i);
                if blind_like_exec(&p) {
                    return p;
                }
                let m = cur.len();
                cur = sub_vec(&cur, i + 3, m);
            },
        }
    }
}

/// The parts of a header, read.
pub struct StarsHead {
    pub unibet: bool,
    pub hid: String,
    pub tcode: String,
    pub buyin: Vec<Decimal>,
    pub sb: Decimal,
    pub bb: Decimal,
    pub prize: Decimal,
    pub ts: i64,
}

pub open spec fn head_is(h: StarsHead, t: HeadText) -> bool {
    &&& h.unibet == t.unibet
    &&& h.hid@ == t.hid
    &&& h.tcode@ == t.tcode
    &&& h.buyin@.len() == t.buyin.len()
    &&& forall|i: int| 0 <= i < t.buyin.len() ==> dec_is(#[trigger] h.buyin@[i], t.buyin[i])
    &&& dec_is(h.sb, t.sb)
    &&& dec_is(h.bb, t.bb)
    &&& dec_is(h.prize, t.prize)
    &&& h.ts == t.ts
}

/// Reads a hand header (see `spec_head`).
pub fn read_head(l: &str) -> (r: Option<StarsHead>)
    requires
        date_pair_fits(l@),
    ensures
        match r {
            Some(h) => spec_head(l@) matches Some(t) && head_is(h, t),
            None => spec_head(l@) is None,
        },
{
    proof {
        reveal_strlit("Hand #");
        reveal_strlit("/");
        reveal_strlit("");
    }
    let lv = chars_of(l);
    let n = lv.len();
    let hk = chars_of("Hand #");
    let hid: Vec<char> = match find_exec(&lv, &hk, 0) {
        Some(p) => {
            proof {
                lemma_find_from_range(lv@, hk@, 0);
            }
            digit_prefix_exec(&sub_vec(&lv, p + 6, n))
        },
        None => Vec::new(),
    };
    let tcode: Vec<char> = match crate::parser::stars::between(l, "Tournament #", ",") {
        Some(b) => {
            let bv = chars_of(b.as_str());
            let (x, y) = trim_range(&bv, 0, bv.len());
            assert(bv@.subrange(0, bv@.len() as int) =~= bv@);
            digit_prefix_exec(&sub_vec(&bv, x, y))
        },
        None => Vec::new(),
    };
    if hid.len() == 0 || tcode.len() == 0 {
        return None;
    }
    let bt: Vec<char> = match crate::parser::stars::between(l, "(", ")") {
        Some(b) => {
            let bv = chars_of(b.as_str());
            if contains_exec(&bv, &chars_of("/")) {
                bv
            } else {
                blind_piece_exec(&lv)
            }
        },
        None => blind_piece_exec(&lv),
    };
    let (_ante, sb, bb) = crate::parser::expresso::blinds_of(&bt);
    let prize = match crate::parser::stars::between(l, "Total prize", " -") {
        Some(x) => crate::parser::expresso::read_num(&chars_of(x.as_str())),
        None => zero(),
    };
    let ts: i64 = match crate::parser::stars::find_date(l) {
        Some(t) => t,
        None => 0,
    };
    let h = StarsHead {
        unibet: starts_with_exec(&lv, &chars_of("Unibet")),
        hid: string_of(&hid, 0, hid.len()),
        tcode: string_of(&tcode, 0, tcode.len()),
        buyin: buyin_exec(&lv),
        sb,
        bb,
        prize,
        ts,
    };
    assert(hid@.subrange(0, hid@.len() as int) =~= hid@);
    assert(tcode@.subrange(0, tcode@.len() as int) =~= tcode@);
    Some(h)
}

// ---------------------------------------------------------------- the lines of a hand

/// A seat: name, seat number, stack text, hole cards if known.
pub type SeatS = (Seq<char>, u8, Seq<char>, Option<(u8, u8)>);

/// The reader's state after some lines: seats, the button's seat number if given, the
/// table size if given, the hero's name, street, number of street lines seen, board,
/// actions, amounts won (seat, amount text), some amount won was written, the summary was
/// reached, a seat line could not be read.
pub struct SState {
    pub seats: Seq<SeatS>,
    pub button_seat: Option<u8>,
    pub max_seats: u8,
    pub hero_name: Option<Seq<char>>,
    pub street: u8,
    pub part: int,
    pub board: Seq<u8>,
    pub acts: Seq<(u8, u8, ActKind, Seq<char>, bool, int)>,
    pub wins: Seq<(u8, Seq<char>)>,
    pub had_wins: bool,
    pub in_summary: bool,
    pub failed: bool,
}

pub open spec fn s_start() -> SState {
    SState {
        seats: Seq::empty(),
        button_seat: None,
        max_seats: 0,
        hero_name: None,
        street: 0,
        part: 0,
        board: Seq::empty(),
        acts: Seq::empty(),
        wins: Seq::empty(),
        had_wins: false,
        in_summary: false,
        failed: false,
    }
}

/// Start of the run of digits that ends at `i`.
pub open spec fn run_start(l: Seq<char>, i: int) -> int
    decreases i,
{
    if 0 < i <= l.len() && '0' <= l[i - 1] <= '9' {
        run_start(l, i - 1)
    } else {
        i
    }
}

/// A "Table " line: the table size before "-max", the button's seat after "Seat #".
pub open spec fn table_step(st: SState, l: Seq<char>) -> SState {
    let max_seats = match find(l, "-max"@) {
        Some(i) => match parse_u8(l.subrange(run_start(l, i), i)) {
            Some(x) => x,
            None => 0u8,
        },
        None => st.max_seats,
    };
    let button_seat = match spec_between(l, "Seat #"@, " "@) {
        Some(b) => parse_u8(b),
        None => st.button_seat,
    };
    SState { max_seats, button_seat, ..st }
}

/// A street line: the street, one more street line, the board from its cards.
pub open spec fn street_step(st: SState, l: Seq<char>) -> SState {
    let up = upper_seq(l);
    let ns: u8 = if contains(up, "FLOP"@) {
        1
    } else if contains(up, "TURN"@) {
        2
    } else if contains(up, "RIVER"@) {
        3
    } else {
        0
    };
    if ns > 0 {
        SState { street: ns, part: st.part + 1, board: bracket_cards(l), ..st }
    } else {
        st
    }
}

/// A seat line "Seat 1: Name (1500 in chips)": a seat without cards; "button" in it gives
/// the button's seat. A line without '(' after the ':' cannot be read.
pub open spec fn seat_step_s(st: SState, l: Seq<char>) -> SState {
    let colon = find(l, ":"@)->0;
    let rest = l.subrange(colon + 1, l.len() as int);
    match rfind(rest, "("@) {
        None => SState { failed: true, ..st },
        Some(open) => {
            let num: u8 = match parse_u8(trim(l.subrange(5, colon))) {
                Some(x) => x,
                None => 0,
            };
            let seat: SeatS = (
                spec_clean_name(rest.subrange(0, open)),
                num,
                first_number_text(rest.subrange(open, rest.len() as int)),
                None,
            );
            SState {
                seats: st.seats.push(seat),
                button_seat: if contains(lower_seq(rest), "button"@) { Some(num) } else { st.button_seat },
                ..st
            }
        },
    }
}

/// Index of the first of the seats from the `i`-th on with this name.
pub open spec fn seat_index(seats: Seq<SeatS>, n: Seq<char>, i: int) -> Option<int>
    decreases seats.len() - i,
{
    if i < 0 || i >= seats.len() {
        None
    } else if seats[i].0 == n {
        Some(i)
    } else {
        seat_index(seats, n, i + 1)
    }
}

/// Index of the first of the seats from the `i`-th on with this seat number.
pub open spec fn seat_of_number(seats: Seq<SeatS>, b: u8, i: int) -> Option<int>
    decreases seats.len() - i,
{
    if i < 0 || i >= seats.len() {
        None
    } else if seats[i].1 == b {
        Some(i)
    } else {
        seat_of_number(seats, b, i + 1)
    }
}

/// The seats with new hole cards for seat `k`.
pub open spec fn with_cards_s(seats: Seq<SeatS>, k: int, a: u8, b: u8) -> Seq<SeatS> {
    seats.update(k, (seats[k].0, seats[k].1, seats[k].2, Some((a, b))))
}

/// A line "Dealt to Name [Ah Kd]": the hero's name, and the hero's cards (the last two).
pub open spec fn dealt_step(st: SState, l: Seq<char>) -> SState {
    let r = l.subrange(9, l.len() as int);
    let cut = match find(r, "["@) {
        Some(i) => i,
        None => r.len() as int,
    };
    let n = spec_clean_name(r.subrange(0, cut));
    let cs = bracket_cards(r);
    match seat_index(st.seats, n, 0) {
        None => st,
        Some(k) => SState {
            seats: if cs.len() >= 2 {
                with_cards_s(st.seats, k, cs[cs.len() - 2], cs[cs.len() - 1])
            } else {
                st.seats
            },
            hero_name: Some(n),
            ..st
        },
    }
}

/// Seat whose name starts the line, followed by ':', ' ' or '[' (the longest name, the last
/// of equal ones), among the first `k` seats.
pub open spec fn s_speaker(seats: Seq<SeatS>, l: Seq<char>, k: int) -> Option<int>
    decreases k,
{
    if k <= 0 {
        None
    } else {
        let b = s_speaker(seats, l, k - 1);
        let name = seats[k - 1].0;
        let hit = starts_with(l, name) && name.len() < l.len() && (l[name.len() as int] == ':'
            || l[name.len() as int] == ' ' || l[name.len() as int] == '[');
        if hit && (b is None || name.len() >= seats[b->0].0.len()) {
            Some(k - 1)
        } else {
            b
        }
    }
}

/// `s` without its leading ':'.
pub open spec fn strip_colons(s: Seq<char>) -> Seq<char>
    decreases s.len(),
{
    if s.len() > 0 && s[0] == ':' {
        strip_colons(s.drop_first())
    } else {
        s
    }
}

/// What follows the speaker's name: cards in brackets and ':' skipped, trimmed.
pub open spec fn verb_of(after: Seq<char>) -> Seq<char> {
    let v = trim_start_by(after, 0);
    let v2 = if starts_with(v, "["@) {
        let from = match find(v, "]"@) {
            Some(i) => i + 1,
            None => 0,
        };
        trim_start_by(v.subrange(from, v.len() as int), 0)
    } else {
        v
    };
    trim(strip_colons(v2))
}

/// An action, `w` in lower case: kind and amount text (for a raise, the total it raises
/// to).
pub open spec fn s_verb(w: Seq<char>, verb: Seq<char>) -> Option<(ActKind, Seq<char>)> {
    if contains(w, "posts"@) && contains(w, "ante"@) {
        Some((ActKind::Ante, first_number_text(verb)))
    } else if contains(w, "posts small blind"@) || contains(w, "posts the small blind"@) {
        Some((ActKind::SmallBlind, first_number_text(verb)))
    } else if contains(w, "posts big blind"@) || contains(w, "posts the big blind"@) {
        Some((ActKind::BigBlind, first_number_text(verb)))
    } else if starts_with(w, "folds"@) {
        Some((ActKind::Fold, Seq::empty()))
    } else if starts_with(w, "checks"@) {
        Some((ActKind::Check, Seq::empty()))
    } else if starts_with(w, "calls"@) {
        Some((ActKind::Call, first_number_text(verb)))
    } else if starts_with(w, "bets"@) {
        Some((ActKind::Bet, first_number_text(verb)))
    } else if starts_with(w, "raises"@) {
        Some(
            (
                ActKind::Raise,
                match second_piece(verb, " to "@) {
                    Some(x) => first_number_text(x),
                    None => Seq::empty(),
                },
            ),
        )
    } else {
        None
    }
}

/// A line spoken by seat `k`: cards shown, an amount won, or an action.
pub open spec fn play_line_s(st: SState, k: int, verb: Seq<char>) -> SState {
    let w = lower_seq(verb);
    let allin = contains(w, "all-in"@) || contains(w, "all in"@);
    if starts_with(w, "shows"@) || starts_with(w, "mucks"@) {
        let cs = bracket_cards(verb);
        if cs.len() >= 2 {
            SState { seats: with_cards_s(st.seats, k, cs[0], cs[1]), ..st }
        } else {
            st
        }
    } else if starts_with(w, "collected"@) || starts_with(w, "wins"@) || starts_with(w, "won"@) {
        let t = first_number_text(verb);
        if t.len() > 0 {
            SState { wins: st.wins.push((k as u8, t)), had_wins: true, ..st }
        } else {
            st
        }
    } else {
        match s_verb(w, verb) {
            Some((kind, text)) => SState {
                acts: st.acts.push((st.street, k as u8, kind, text, allin, st.part)),
                ..st
            },
            None => st,
        }
    }
}

/// The line starts the description of a seat (before any action).
pub open spec fn seat_line_s(st: SState, l: Seq<char>) -> bool {
    starts_with(l, "Seat "@) && contains(l, ":"@) && contains(l, "("@) && st.acts.len() == 0
}

/// One trimmed line of the hand after its header.
pub open spec fn s_step(st: SState, l: Seq<char>) -> SState {
    if st.failed {
        st
    } else if starts_with(l, "Table "@) {
        table_step(st, l)
    } else if starts_with(l, "*** SUMMARY"@) {
        SState { in_summary: true, ..st }
    } else if st.in_summary {
        st
    } else if starts_with(l, "***"@) {
        street_step(st, l)
    } else if seat_line_s(st, l) {
        seat_step_s(st, l)
    } else if starts_with(l, "Dealt to "@) {
        dealt_step(st, l)
    } else if starts_with(l, "Uncalled bet"@) {
        st
    } else {
        match s_speaker(st.seats, l, st.seats.len() as int) {
            None => st,
            Some(k) => play_line_s(st, k, verb_of(l.subrange(st.seats[k].0.len() as int, l.len() as int))),
        }
    }
}

/// State after the lines `1..k` of the hand (line 0 is its header).
pub open spec fn s_upto(ls: Seq<Seq<char>>, k: int) -> SState
    decreases k,
{
    if k <= 1 {
        s_start()
    } else {
        s_step(s_upto(ls, k - 1), trim(ls[k - 1]))
    }
}

// ---------------------------------------------------------------- reading the lines

/// The reader's state, executable: the seats as parallel lists.
struct SExec {
    names: Vec<Vec<char>>,
    nums: Vec<u8>,
    stacks: Vec<Decimal>,
    cards: Vec<Option<[Card; 2]>>,
    button_seat: Option<u8>,
    max_seats: u8,
    hero_name: Option<Vec<char>>,
    street: u8,
    part: usize,
    board: Vec<Card>,
    acts: Vec<crate::parser::expresso::ActText>,
    wins: Vec<(u8, Decimal)>,
    had_wins: bool,
    in_summary: bool,
    failed: bool,
}

spec fn s_is(e: SExec, s: SState) -> bool {
    &&& e.names@.len() == s.seats.len()
    &&& e.nums@.len() == s.seats.len()
    &&& e.stacks@.len() == s.seats.len()
    &&& e.cards@.len() == s.seats.len()
    &&& forall|i: int|
        0 <= i < s.seats.len() ==> {
            &&& (#[trigger] e.names@[i])@ == s.seats[i].0
            &&& e.nums@[i] == s.seats[i].1
            &&& dec_is(e.stacks@[i], s.seats[i].2)
            &&& cards_are(e.cards@[i], s.seats[i].3)
        }
    &&& e.button_seat == s.button_seat
    &&& e.max_seats == s.max_seats
    &&& (match e.hero_name {
        Some(h) => s.hero_name == Some(h@),
        None => s.hero_name is None,
    })
    &&& e.street == s.street
    &&& e.part == s.part
    &&& e.board@ == s.board
    &&& e.acts@.len() == s.acts.len()
    &&& forall|i: int| 0 <= i < s.acts.len() ==> act_is(#[trigger] e.acts@[i], s.acts[i])
    &&& e.wins@.len() == s.wins.len()
    &&& forall|i: int|
        0 <= i < s.wins.len() ==> (#[trigger] e.wins@[i]).0 == s.wins[i].0 && dec_is(e.wins@[i].1, s.wins[i].1)
    &&& e.had_wins == s.had_wins
    &&& e.in_summary == s.in_summary
    &&& e.failed == s.failed
}

fn run_start_exec(l: &Vec<char>, i: usize) -> (r: usize)
    requires
        i <= l@.len(),
    ensures
        r == run_start(l@, i as int),
        r <= i,
{
    let mut a = i;
    while a > 0 && '0' <= l[a - 1] && l[a - 1] <= '9'
        invariant
            a <= i <= l@.len(),
            run_start(l@, i as int) == run_start(l@, a as int),
        decreases a,
    {
        a = a - 1;
    }
    a
}

fn s_table(e: &mut SExec, l: &Vec<char>, Ghost(s): Ghost<SState>)
    requires
        s_is(*old(e), s),
    ensures
        s_is(*final(e), table_step(s, l@)),
        final(e).names@ == old(e).names@,
        final(e).part == old(e).part,
{
    let mk = chars_of("-max");
    match find_exec(l, &mk, 0) {
        Some(i) => {
            proof {
                lemma_find_from_range(l@, mk@, 0);
            }
            let a = run_start_exec(l, i);
            e.max_seats = match parse_u8_exec(&sub_vec(l, a, i)) {
                Some(x) => x,
                None => 0,
            };
        },
        None => {},
    }
    let ls = string_of(l, 0, l.len());
    assert(l@.subrange(0, l@.len() as int) =~= l@);
    match crate::parser::stars::between(ls.as_str(), "Seat #", " ") {
        Some(b) => {
            e.button_seat = parse_u8_exec(&chars_of(b.as_str()));
        },
        None => {},
    }
}

fn s_street(e: &mut SExec, l: &Vec<char>, Ghost(s): Ghost<SState>)
    requires
        s_is(*old(e), s),
        old(e).part < usize::MAX,
    ensures
        s_is(*final(e), street_step(s, l@)),
        final(e).names@ == old(e).names@,
        final(e).part <= old(e).part + 1,
{
    let up = upper_vec(l);
    let ns: u8 = if contains_exec(&up, &chars_of("FLOP")) {
        1
    } else if contains_exec(&up, &chars_of("TURN")) {
        2
    } else if contains_exec(&up, &chars_of("RIVER")) {
        3
    } else {
        0
    };
    if ns > 0 {
        e.street = ns;
        e.part = e.part + 1;
        let ls = string_of(l, 0, l.len());
        assert(l@.subrange(0, l@.len() as int) =~= l@);
        e.board = crate::parser::common::cards_in_brackets(ls.as_str());
    }
}

proof fn lemma_seat_colon_s(l: Seq<char>, c: int)
    requires
        starts_with(l, "Seat "@),
        occurs_at(l, ":"@, c),
    ensures
        c >= 5,
{
    reveal_strlit("Seat ");
    reveal_strlit(":");
    if c < 5 {
        assert(l.subrange(c, c + 1)[0] == ':');
        assert(l[c] == ':');
        assert(l.subrange(0, 5)[c] == l[c]);
    }
}

fn name_of(v: &Vec<char>, lo: usize, hi: usize) -> (r: Vec<char>)
    requires
        lo <= hi <= v@.len(),
    ensures
        r@ == spec_clean_name(v@.subrange(lo as int, hi as int)),
{
    let t = string_of(v, lo, hi);
    let c = crate::parser::stars::clean_name(t.as_str());
    chars_of(c.as_str())
}

#[verifier::spinoff_prover]
#[verifier::rlimit(60)]
fn s_seat(e: &mut SExec, l: &Vec<char>, Ghost(s): Ghost<SState>)
    requires
        s_is(*old(e), s),
        seat_line_s(s, l@),
        old(e).names@.len() < 255,
    ensures
        s_is(*final(e), seat_step_s(s, l@)),
        final(e).names@.len() <= old(e).names@.len() + 1,
        final(e).part == old(e).part,
{
    proof {
        reveal_strlit(":");
        reveal_strlit("(");
        reveal_strlit("button");
    }
    let n = l.len();
    let colon_s = chars_of(":");
    let colon = match find_exec(l, &colon_s, 0) {
        Some(c) => c,
        None => {
            assert(false);
            return;
        },
    };
    proof {
        lemma_find_from_range(l@, colon_s@, 0);
        lemma_seat_colon_s(l@, colon as int);
    }
    let rest = sub_vec(l, colon + 1, n);
    let m = rest.len();
    let open = match rfind_exec(&rest, &chars_of("(")) {
        Some(o) => o,
        None => {
            e.failed = true;
            return;
        },
    };
    proof {
        lemma_rfind_range(rest@, "("@);
    }
    let numtext = sub_vec(l, 5, colon);
    let (a, b) = trim_range(&numtext, 0, numtext.len());
    assert(numtext@.subrange(0, numtext@.len() as int) =~= numtext@);
    let num: u8 = match parse_u8_exec(&sub_vec(&numtext, a, b)) {
        Some(x) => x,
        None => 0,
    };
    let name = name_of(&rest, 0, open);
    let stack = first_num_text(&sub_vec(&rest, open, m));
    if contains_exec(&lower_vec(&rest), &chars_of("button")) {
        e.button_seat = Some(num);
    }
    let k = e.names.len();
    let ghost old_names = e.names@;
    let ghost old_stacks = e.stacks@;
    let ghost old_nums = e.nums@;
    let ghost old_cards = e.cards@;
    e.names.push(name);
    e.nums.push(num);
    e.stacks.push(stack);
    e.cards.push(None);
    proof {
        let ns = seat_step_s(s, l@);
        assert forall|i: int| 0 <= i < ns.seats.len() implies {
            &&& (#[trigger] e.names@[i])@ == ns.seats[i].0
            &&& e.nums@[i] == ns.seats[i].1
            &&& dec_is(e.stacks@[i], ns.seats[i].2)
            &&& cards_are(e.cards@[i], ns.seats[i].3)
        } by {
            if i < k {
                assert(e.names@[i] == old_names[i]);
                assert(e.nums@[i] == old_nums[i]);
                assert(e.stacks@[i] == old_stacks[i]);
                assert(e.cards@[i] == old_cards[i]);
            }
        }
    }
}

/// The first seat with this name (see `seat_index`).
fn seat_index_exec(names: &Vec<Vec<char>>, n: &Vec<char>, Ghost(seats): Ghost<Seq<SeatS>>) -> (r: Option<usize>)
    requires
        names@.len() == seats.len(),
        forall|i: int| 0 <= i < seats.len() ==> (#[trigger] names@[i])@ == seats[i].0,
    ensures
        match r {
            Some(k) => seat_index(seats, n@, 0) == Some(k as int) && k < seats.len(),
            None => seat_index(seats, n@, 0) is None,
        },
{
    let mut k: usize = 0;
    while k < names.len()
        invariant
            k <= names@.len() == seats.len(),
            forall|i: int| 0 <= i < seats.len() ==> (#[trigger] names@[i])@ == seats[i].0,
            seat_index(seats, n@, 0) == seat_index(seats, n@, k as int),
        decreases names@.len() - k,
    {
        assert(names@[k as int]@ == seats[k as int].0);
        if crate::text::same_chars(&names[k], n) {
            return Some(k);
        }
        k = k + 1;
    }
    None
}

fn set_cards_s(e: &mut SExec, k: usize, a: Card, b: Card, Ghost(s): Ghost<SState>)
    requires
        s_is(*old(e), s),
        k < s.seats.len(),
    ensures
        s_is(*final(e), SState { seats: with_cards_s(s.seats, k as int, a, b), ..s }),
        final(e).names@ == old(e).names@,
        final(e).part == old(e).part,
        final(e).in_summary == old(e).in_summary,
        final(e).failed == old(e).failed,
{
    e.cards.set(k, Some([a, b]));
    proof {
        let ns = with_cards_s(s.seats, k as int, a, b);
        assert forall|i: int| 0 <= i < ns.len() implies {
            &&& (#[trigger] e.names@[i])@ == ns[i].0
            &&& e.nums@[i] == ns[i].1
            &&& dec_is(e.stacks@[i], ns[i].2)
            &&& cards_are(e.cards@[i], ns[i].3)
        } by {
            if i != k {
                assert(e.cards@[i] == old(e).cards@[i]);
            }
        }
    }
}

fn s_dealt(e: &mut SExec, l: &Vec<char>, Ghost(s): Ghost<SState>)
    requires
        s_is(*old(e), s),
        starts_with(l@, "Dealt to "@),
    ensures
        s_is(*final(e), dealt_step(s, l@)),
        final(e).names@ == old(e).names@,
        final(e).part == old(e).part,
{
    proof {
        reveal_strlit("Dealt to ");
        reveal_strlit("[");
    }
    let n = l.len();
    let r = sub_vec(l, 9, n);
    let rn = r.len();
    let cut = match find_exec(&r, &chars_of("["), 0) {
        Some(i) => {
            proof {
                lemma_find_from_range(r@, "["@, 0);
            }
            i
        },
        None => rn,
    };
    let nm = name_of(&r, 0, cut);
    let rs = string_of(&r, 0, rn);
    assert(r@.subrange(0, rn as int) =~= r@);
    let cs = crate::parser::common::cards_in_brackets(rs.as_str());
    match seat_index_exec(&e.names, &nm, Ghost(s.seats)) {
        None => {},
        Some(k) => {
            let c = cs.len();
            if c >= 2 {
                set_cards_s(e, k, cs[c - 2], cs[c - 1], Ghost(s));
            }
            e.hero_name = Some(nm);
        },
    }
}

/// The seat that speaks a line (see `s_speaker`).
fn s_speaker_exec(names: &Vec<Vec<char>>, l: &Vec<char>, Ghost(seats): Ghost<Seq<SeatS>>) -> (r: Option<usize>)
    requires
        names@.len() == seats.len(),
        forall|i: int| 0 <= i < seats.len() ==> (#[trigger] names@[i])@ == seats[i].0,
    ensures
        match r {
            Some(k) => s_speaker(seats, l@, seats.len() as int) == Some(k as int) && k < seats.len(),
            None => s_speaker(seats, l@, seats.len() as int) is None,
        },
{
    let n = names.len();
    let mut best: Option<usize> = None;
    let mut k: usize = 0;
    while k < n
        invariant
            k <= n == names@.len() == seats.len(),
            forall|i: int| 0 <= i < seats.len() ==> (#[trigger] names@[i])@ == seats[i].0,
            match best {
                Some(b) => s_speaker(seats, l@, k as int) == Some(b as int) && b < k,
                None => s_speaker(seats, l@, k as int) is None,
            },
        decreases n - k,
    {
        let name = &names[k];
        assert(name@ == seats[k as int].0);
        let m = name.len();
        let hit = m < l.len() && starts_with_exec(l, name) && (l[m] == ':' || l[m] == ' ' || l[m] == '[');
        if hit {
            let better = match best {
                None => true,
                Some(b) => {
                    assert(names@[b as int]@ == seats[b as int].0);
                    m >= names[b].len()
                },
            };
            if better {
                best = Some(k);
            }
        }
        k = k + 1;
    }
    best
}

proof fn lemma_s_speaker_range(seats: Seq<SeatS>, l: Seq<char>, k: int)
    ensures
        s_speaker(seats, l, k) matches Some(x) ==> 0 <= x < k && seats[x].0.len() < l.len(),
    decreases k,
{
    if k > 0 {
        lemma_s_speaker_range(seats, l, k - 1);
    }
}

proof fn lemma_strip_colons(s: Seq<char>, c: int)
    requires
        0 <= c <= s.len(),
        forall|j: int| 0 <= j < c ==> #[trigger] s[j] == ':',
        c == s.len() || s[c] != ':',
    ensures
        strip_colons(s) == s.subrange(c, s.len() as int),
    decreases c,
{
    if c > 0 {
        lemma_strip_colons(s.drop_first(), c - 1);
        assert(s.drop_first().subrange(c - 1, s.len() - 1) =~= s.subrange(c, s.len() as int));
    } else {
        assert(s.subrange(0, s.len() as int) =~= s);
    }
}

/// What follows the speaker's name (see `verb_of`).
fn verb_exec(after: &Vec<char>) -> (r: Vec<char>)
    ensures
        r@ == verb_of(after@),
{
    proof {
        reveal_strlit("[");
        reveal_strlit("]");
    }
    let a = trim_start_index(after);
    let v = sub_vec(after, a, after.len());
    let vn = v.len();
    let v2 = if starts_with_exec(&v, &chars_of("[")) {
        let from: usize = match find_exec(&v, &chars_of("]"), 0) {
            Some(i) => {
                proof {
                    lemma_find_from_range(v@, "]"@, 0);
                }
                i + 1
            },
            None => 0,
        };
        let t = sub_vec(&v, from, vn);
        let b = trim_start_index(&t);
        sub_vec(&t, b, t.len())
    } else {
        v
    };
    let mut c: usize = 0;
    while c < v2.len() && v2[c] == ':'
        invariant
            c <= v2@.len(),
            forall|j: int| 0 <= j < c ==> #[trigger] v2@[j] == ':',
        decreases v2@.len() - c,
    {
        c = c + 1;
    }
    proof {
        lemma_strip_colons(v2@, c as int);
    }
    let m = v2.len();
    let (x, y) = trim_range(&v2, c, m);
    sub_vec(&v2, x, y)
}

fn s_verb_exec(w: &Vec<char>, verb: &Vec<char>) -> (r: Option<(ActKind, Decimal)>)
    ensures
        match r {
            Some((k, d)) => s_verb(w@, verb@) matches Some((sk, t)) && k == sk && dec_is(d, t),
            None => s_verb(w@, verb@) is None,
        },
{
    proof {
        reveal_strlit("");
    }
    if contains_exec(w, &chars_of("posts")) && contains_exec(w, &chars_of("ante")) {
        Some((ActKind::Ante, first_num_text(verb)))
    } else if contains_exec(w, &chars_of("posts small blind")) || contains_exec(w, &chars_of("posts the small blind")) {
        Some((ActKind::SmallBlind, first_num_text(verb)))
    } else if contains_exec(w, &chars_of("posts big blind")) || contains_exec(w, &chars_of("posts the big blind")) {
        Some((ActKind::BigBlind, first_num_text(verb)))
    } else if starts_with_exec(w, &chars_of("folds")) {
        Some((ActKind::Fold, zero()))
    } else if starts_with_exec(w, &chars_of("checks")) {
        Some((ActKind::Check, zero()))
    } else if starts_with_exec(w, &chars_of("calls")) {
        Some((ActKind::Call, first_num_text(verb)))
    } else if starts_with_exec(w, &chars_of("bets")) {
        Some((ActKind::Bet, first_num_text(verb)))
    } else if starts_with_exec(w, &chars_of("raises")) {
        let d = match second_piece_exec(verb, &chars_of(" to ")) {
            Some(x) => first_num_text(&x),
            None => zero(),
        };
        Some((ActKind::Raise, d))
    } else {
        None
    }
}

/// A line spoken by seat `k` (see `play_line_s`).
#[verifier::spinoff_prover]
#[verifier::rlimit(80)]
fn s_play(e: &mut SExec, k: usize, verb: &Vec<char>, Ghost(s): Ghost<SState>)
    requires
        s_is(*old(e), s),
        k < s.seats.len() < 256,
    ensures
        s_is(*final(e), play_line_s(s, k as int, verb@)),
        final(e).names@ == old(e).names@,
        final(e).part == old(e).part,
{
    let w = lower_vec(verb);
    let allin = contains_exec(&w, &chars_of("all-in")) || contains_exec(&w, &chars_of("all in"));
    if starts_with_exec(&w, &chars_of("shows")) || starts_with_exec(&w, &chars_of("mucks")) {
        let vs = string_of(verb, 0, verb.len());
        assert(verb@.subrange(0, verb@.len() as int) =~= verb@);
        let cs = crate::parser::common::cards_in_brackets(vs.as_str());
        if cs.len() >= 2 {
            set_cards_s(e, k, cs[0], cs[1], Ghost(s));
        }
        return;
    }
    if starts_with_exec(&w, &chars_of("collected")) || starts_with_exec(&w, &chars_of("wins"))
        || starts_with_exec(&w, &chars_of("won")) {
        proof {
            reveal_strlit("shows");
            reveal_strlit("mucks");
        }
        match first_num_opt(verb) {
            Some(d) => {
                assert(play_line_s(s, k as int, verb@) == SState {
                    wins: s.wins.push((k as u8, first_number_text(verb@))),
                    had_wins: true,
                    ..s
                });
                let ghost old_wins = e.wins@;
                e.wins.push((k as u8, d));
                e.had_wins = true;
                proof {
                    let ns = play_line_s(s, k as int, verb@);
                    assert forall|i: int| 0 <= i < ns.wins.len() implies (#[trigger] e.wins@[i]).0 == ns.wins[i].0
                        && dec_is(e.wins@[i].1, ns.wins[i].1) by {
                        if i < old_wins.len() {
                            assert(e.wins@[i] == old_wins[i]);
                        }
                    }
                }
                assert(s_is(*e, play_line_s(s, k as int, verb@)));
            },
            None => {
                assert(play_line_s(s, k as int, verb@) == s);
            },
        }
        return;
    }
    match s_verb_exec(&w, verb) {
        Some((kind, d)) => {
            let ghost old_acts = e.acts@;
            let a = crate::parser::expresso::ActText {
                street: e.street,
                p: k as u8,
                kind,
                amount: d,
                allin,
                part: e.part,
            };
            e.acts.push(a);
            proof {
                let ns = play_line_s(s, k as int, verb@);
                assert forall|i: int| 0 <= i < ns.acts.len() implies act_is(#[trigger] e.acts@[i], ns.acts[i]) by {
                    if i < old_acts.len() {
                        assert(e.acts@[i] == old_acts[i]);
                    }
                }
            }
        },
        None => {},
    }
}

/// One trimmed line after the header (see `s_step`).
fn s_line(e: &mut SExec, l: &Vec<char>, Ghost(s): Ghost<SState>)
    requires
        s_is(*old(e), s),
        old(e).part < usize::MAX,
        old(e).names@.len() < 255,
    ensures
        s_is(*final(e), s_step(s, l@)),
        final(e).names@.len() <= old(e).names@.len() + (if starts_with(l@, "Seat "@) { 1int } else { 0 }),
        final(e).part <= old(e).part + 1,
{
    if e.failed {
        return;
    }
    if starts_with_exec(l, &chars_of("Table ")) {
        s_table(e, l, Ghost(s));
    } else if starts_with_exec(l, &chars_of("*** SUMMARY")) {
        e.in_summary = true;
    } else if e.in_summary {
    } else if starts_with_exec(l, &chars_of("***")) {
        s_street(e, l, Ghost(s));
    } else if starts_with_exec(l, &chars_of("Seat ")) && contains_exec(l, &chars_of(":")) && contains_exec(
        l,
        &chars_of("("),
    ) && e.acts.len() == 0 {
        s_seat(e, l, Ghost(s));
    } else if starts_with_exec(l, &chars_of("Dealt to ")) {
        s_dealt(e, l, Ghost(s));
    } else if starts_with_exec(l, &chars_of("Uncalled bet")) {
    } else {
        match s_speaker_exec(&e.names, l, Ghost(s.seats)) {
            None => {},
            Some(k) => {
                proof {
                    lemma_s_speaker_range(s.seats, l@, s.seats.len() as int);
                }
                let m = e.names[k].len();
                assert(e.names@[k as int]@ == s.seats[k as int].0);
                let after = sub_vec(l, m, l.len());
                let verb = verb_exec(&after);
                s_play(e, k, &verb, Ghost(s));
            },
        }
    }
}

// ---------------------------------------------------------------- the hand

/// Seat of the first small blind posted (seat 0 without one).
pub open spec fn first_sb(acts: Seq<(u8, u8, ActKind, Seq<char>, bool, int)>, i: int) -> int
    decreases acts.len() - i,
{
    if i < 0 || i >= acts.len() {
        0
    } else if acts[i].2 == ActKind::SmallBlind {
        acts[i].1 as int
    } else {
        first_sb(acts, i + 1)
    }
}

/// The button: the seat with the button's number, else the seat before the small blind
/// (the small blind itself heads-up).
pub open spec fn button_of(st: SState) -> int {
    let n = st.seats.len() as int;
    let sbp = first_sb(st.acts, 0);
    let fallback = if n == 2 { sbp } else { (sbp + n - 1) % n };
    match st.button_seat {
        Some(b) => match seat_of_number(st.seats, b, 0) {
            Some(x) => x,
            None => fallback,
        },
        None => fallback,
    }
}

/// What a hand says: its header, the state after its lines, the hero's seat, the button.
pub struct StarsText {
    pub head: HeadText,
    pub play: SState,
    pub hero: int,
    pub button: int,
}

/// A PokerStars or Unibet hand from its lines: a header with hand and tournament numbers,
/// seat lines that can be read, at least two seats, and the hero dealt cards among them.
pub open spec fn spec_read_stars(ls: Seq<Seq<char>>) -> Option<StarsText> {
    if ls.len() == 0 {
        None
    } else {
        match spec_head(ls[0]) {
            None => None,
            Some(head) => {
                let st = s_upto(ls, ls.len() as int);
                if st.failed || st.seats.len() < 2 {
                    None
                } else {
                    match st.hero_name {
                        None => None,
                        Some(hn) => match seat_index(st.seats, hn, 0) {
                            None => None,
                            Some(hero) => Some(StarsText { head, play: st, hero, button: button_of(st) }),
                        },
                    }
                }
            },
        }
    }
}

/// Number of lines among `1..k` that start with "Seat " once trimmed.
pub open spec fn seat_lines_s(ls: Seq<Seq<char>>, k: int) -> int
    decreases k,
{
    if k <= 1 {
        0
    } else {
        seat_lines_s(ls, k - 1) + if starts_with(trim(ls[k - 1]), "Seat "@) { 1int } else { 0 }
    }
}

/// The hand can be read without overflow: fewer than 255 seat lines, and a header date that
/// `parse_date` can compute.
pub open spec fn spec_stars_fits(ls: Seq<Seq<char>>) -> bool {
    &&& seat_lines_s(ls, ls.len() as int) < 255
    &&& (ls.len() > 0 ==> date_pair_fits(ls[0]))
}

/// A PokerStars or Unibet hand as read from its lines.
pub struct StarsHand {
    pub unibet: bool,
    /// "pst:" or "unb:" and the tournament number
    pub tid: String,
    /// the tournament's identifier, ':' and the hand number
    pub id: String,
    pub ts: i64,
    pub sb: Decimal,
    pub bb: Decimal,
    /// buy-in amounts greater than zero, as written
    pub buyin: Vec<Decimal>,
    pub prize: Decimal,
    /// the table size, or the number of seats where the table line gives none
    pub max_seats: u8,
    pub seats: Vec<crate::parser::expresso::SeatText>,
    pub button: u8,
    pub hero: u8,
    pub board: Vec<Card>,
    /// actions; for a raise, the amount is the street total it raises to
    pub actions: Vec<crate::parser::expresso::ActText>,
    /// amounts won: seat index, amount
    pub wins: Vec<(u8, Decimal)>,
    pub had_wins: bool,
}

/// `h` holds what `t` says.
pub open spec fn reads_stars(h: StarsHand, t: StarsText) -> bool {
    let tid = (if t.head.unibet { "unb:"@ } else { "pst:"@ }) + t.head.tcode;
    &&& h.unibet == t.head.unibet
    &&& h.tid@ == tid
    &&& h.id@ == tid + ":"@ + t.head.hid
    &&& h.ts == t.head.ts
    &&& dec_is(h.sb, t.head.sb)
    &&& dec_is(h.bb, t.head.bb)
    &&& h.buyin@.len() == t.head.buyin.len()
    &&& forall|i: int| 0 <= i < t.head.buyin.len() ==> dec_is(#[trigger] h.buyin@[i], t.head.buyin[i])
    &&& dec_is(h.prize, t.head.prize)
    &&& h.max_seats == (if t.play.max_seats > 0 { t.play.max_seats } else { t.play.seats.len() as u8 })
    &&& h.seats@.len() == t.play.seats.len()
    &&& forall|i: int|
        0 <= i < t.play.seats.len() ==> {
            &&& (#[trigger] h.seats@[i]).name@ == t.play.seats[i].0
            &&& h.seats@[i].seat == t.play.seats[i].1
            &&& dec_is(h.seats@[i].stack, t.play.seats[i].2)
            &&& cards_are(h.seats@[i].cards, t.play.seats[i].3)
        }
    &&& h.button as int == t.button
    &&& h.hero as int == t.hero
    &&& h.board@ == t.play.board
    &&& h.actions@.len() == t.play.acts.len()
    &&& forall|i: int| 0 <= i < t.play.acts.len() ==> act_is(#[trigger] h.actions@[i], t.play.acts[i])
    &&& h.wins@.len() == t.play.wins.len()
    &&& forall|i: int|
        0 <= i < t.play.wins.len() ==> (#[trigger] h.wins@[i]).0 == t.play.wins[i].0 && dec_is(
            h.wins@[i].1,
            t.play.wins[i].1,
        )
    &&& h.had_wins == t.play.had_wins
}

proof fn lemma_seat_lines_s_mono(ls: Seq<Seq<char>>, a: int, b: int)
    requires
        a <= b,
    ensures
        seat_lines_s(ls, a) <= seat_lines_s(ls, b),
    decreases b - a,
{
    if a < b {
        lemma_seat_lines_s_mono(ls, a, b - 1);
    }
}

/// Whether a hand can be read by `read_stars_hand` (see `spec_stars_fits`).
pub fn stars_fits(lines: &Vec<String>) -> (r: bool)
    ensures
        r == spec_stars_fits(crate::parser::expresso::line_views(lines@)),
{
    let ghost lv = crate::parser::expresso::line_views(lines@);
    let n = lines.len();
    let mut count: usize = 0;
    let mut k: usize = 1;
    while k < n
        invariant
            1 <= k,
            k <= n || (n == 0 && k == 1),
            n == lines@.len() == lv.len(),
            lv == crate::parser::expresso::line_views(lines@),
            count == seat_lines_s(lv, k as int),
            count <= k,
        decreases n - k,
    {
        let line = chars_of(lines[k].as_str());
        assert(lv[k as int] == line@);
        let (a, b) = trim_range(&line, 0, line.len());
        assert(line@.subrange(0, line@.len() as int) =~= line@);
        let t = sub_vec(&line, a, b);
        if starts_with_exec(&t, &chars_of("Seat ")) {
            count = count + 1;
        }
        k = k + 1;
    }
    assert(lv.len() == n);
    proof {
        if n > 0 {
            assert(k == n);
            assert(count == seat_lines_s(lv, n as int));
        } else {
            assert(seat_lines_s(lv, 0) == 0);
            assert(seat_lines_s(lv, 1) == 0);
            assert(count == seat_lines_s(lv, 0));
        }
    }
    assert(count == seat_lines_s(lv, lv.len() as int));
    if count >= 255 {
        return false;
    }
    if n == 0 {
        return true;
    }
    crate::parser::stars::find_date_in_range(lines[0].as_str())
}

fn seat_of_number_exec(nums: &Vec<u8>, b: u8, Ghost(seats): Ghost<Seq<SeatS>>) -> (r: Option<usize>)
    requires
        nums@.len() == seats.len(),
        forall|i: int| 0 <= i < seats.len() ==> #[trigger] nums@[i] == seats[i].1,
    ensures
        match r {
            Some(k) => seat_of_number(seats, b, 0) == Some(k as int) && k < seats.len(),
            None => seat_of_number(seats, b, 0) is None,
        },
{
    let mut k: usize = 0;
    while k < nums.len()
        invariant
            k <= nums@.len() == seats.len(),
            forall|i: int| 0 <= i < seats.len() ==> #[trigger] nums@[i] == seats[i].1,
            seat_of_number(seats, b, 0) == seat_of_number(seats, b, k as int),
        decreases nums@.len() - k,
    {
        if nums[k] == b {
            return Some(k);
        }
        k = k + 1;
    }
    None
}

/// Reads one PokerStars or Unibet hand from its lines (see `spec_read_stars`).
#[verifier::rlimit(80)]
#[verifier::spinoff_prover]
pub fn read_stars_hand(lines: &Vec<String>) -> (r: Option<StarsHand>)
    requires
        spec_stars_fits(crate::parser::expresso::line_views(lines@)),
    ensures
        match r {
            None => spec_read_stars(crate::parser::expresso::line_views(lines@)) is None,
            Some(h) => spec_read_stars(crate::parser::expresso::line_views(lines@)) matches Some(t) && reads_stars(h, t),
        },
{
    let ghost lv = crate::parser::expresso::line_views(lines@);
    let n = lines.len();
    if n == 0 {
        return None;
    }
    assert(lv[0] == lines@[0]@);
    let head = match read_head(lines[0].as_str()) {
        Some(h) => h,
        None => return None,
    };
    let mut e = SExec {
        names: Vec::new(),
        nums: Vec::new(),
        stacks: Vec::new(),
        cards: Vec::new(),
        button_seat: None,
        max_seats: 0,
        hero_name: None,
        street: 0,
        part: 0,
        board: Vec::new(),
        acts: Vec::new(),
        wins: Vec::new(),
        had_wins: false,
        in_summary: false,
        failed: false,
    };
    let mut k: usize = 1;
    while k < n
        invariant
            1 <= k <= n == lv.len(),
            lv == crate::parser::expresso::line_views(lines@),
            s_is(e, s_upto(lv, k as int)),
            e.part <= k,
            e.names@.len() <= seat_lines_s(lv, k as int),
            seat_lines_s(lv, n as int) < 255,
        decreases n - k,
    {
        let line = chars_of(lines[k].as_str());
        assert(lv[k as int] == line@);
        let (a, b) = trim_range(&line, 0, line.len());
        assert(line@.subrange(0, line@.len() as int) =~= line@);
        let t = sub_vec(&line, a, b);
        proof {
            lemma_seat_lines_s_mono(lv, k + 1, n as int);
        }
        s_line(&mut e, &t, Ghost(s_upto(lv, k as int)));
        k = k + 1;
    }
    let ghost st = s_upto(lv, n as int);
    let ns = e.names.len();
    if e.failed || ns < 2 {
        return None;
    }
    let hn: Vec<char> = match &e.hero_name {
        Some(h) => {
            assert(h@.subrange(0, h@.len() as int) =~= h@);
            sub_vec(h, 0, h.len())
        },
        None => return None,
    };
    let hero = match seat_index_exec(&e.names, &hn, Ghost(st.seats)) {
        Some(x) => x,
        None => return None,
    };
    // the button
    let na = e.acts.len();
    let mut q: usize = 0;
    while q < na && e.acts[q].kind != ActKind::SmallBlind
        invariant
            q <= na == e.acts@.len() == st.acts.len(),
            forall|i: int| 0 <= i < st.acts.len() ==> act_is(#[trigger] e.acts@[i], st.acts[i]),
            first_sb(st.acts, 0) == first_sb(st.acts, q as int),
        decreases na - q,
    {
        assert(act_is(e.acts@[q as int], st.acts[q as int]));
        q = q + 1;
    }
    let sbp: usize = if q < na {
        assert(act_is(e.acts@[q as int], st.acts[q as int]));
        e.acts[q].p as usize
    } else {
        0
    };
    assert(sbp == first_sb(st.acts, 0));
    let fallback: usize = if ns == 2 { sbp } else { (sbp + ns - 1) % ns };
    assert forall|i: int| 0 <= i < st.seats.len() implies #[trigger] e.nums@[i] == st.seats[i].1 by {
        assert((e.names@[i])@ == st.seats[i].0);
    }
    let button: usize = match e.button_seat {
        Some(b) => match seat_of_number_exec(&e.nums, b, Ghost(st.seats)) {
            Some(x) => x,
            None => fallback,
        },
        None => fallback,
    };
    assert(button == button_of(st));
    // the seats
    let mut seats: Vec<crate::parser::expresso::SeatText> = Vec::new();
    let mut i: usize = 0;
    while i < ns
        invariant
            i <= ns == e.names@.len() == st.seats.len(),
            s_is(e, st),
            seats@.len() == i,
            forall|j: int|
                0 <= j < i ==> {
                    &&& (#[trigger] seats@[j]).name@ == st.seats[j].0
                    &&& seats@[j].seat == st.seats[j].1
                    &&& dec_is(seats@[j].stack, st.seats[j].2)
                    &&& cards_are(seats@[j].cards, st.seats[j].3)
                },
        decreases ns - i,
    {
        let nm = &e.names[i];
        assert(nm@ == st.seats[i as int].0);
        assert(nm@.subrange(0, nm@.len() as int) =~= nm@);
        let seat = crate::parser::expresso::SeatText {
            name: string_of(nm, 0, nm.len()),
            seat: e.nums[i],
            stack: dec_copy(&e.stacks[i]),
            cards: e.cards[i],
        };
        seats.push(seat);
        i = i + 1;
    }
    let tid = if head.unibet { prefixed("unb:", &head.tcode) } else { prefixed("pst:", &head.tcode) };
    let tail = prefixed(":", &head.hid);
    let id = prefixed(tid.as_str(), &tail);
    assert(id@ =~= tid@ + ":"@ + head.hid@);
    let max_seats: u8 = if e.max_seats > 0 { e.max_seats } else { ns as u8 };
    let h = StarsHand {
        unibet: head.unibet,
        tid,
        id,
        ts: head.ts,
        sb: head.sb,
        bb: head.bb,
        buyin: head.buyin,
        prize: head.prize,
        max_seats,
        seats,
        button: button as u8,
        hero: hero as u8,
        board: e.board,
        actions: e.acts,
        wins: e.wins,
        had_wins: e.had_wins,
    };
    Some(h)
}

// ---------------------------------------------------------------- hands of a file

/// A text without its leading byte-order marks.
pub open spec fn strip_bom(c: Seq<char>) -> Seq<char>
    decreases c.len(),
{
    if c.len() > 0 && c[0] == '\u{feff}' {
        strip_bom(c.drop_first())
    } else {
        c
    }
}

/// A line that starts a hand: "PokerStars Hand #" or "Unibet Hand #" (after leading
/// whitespace) in a tournament.
pub open spec fn hand_head(l: Seq<char>) -> bool {
    let t = trim_start_by(l, 0);
    (starts_with(t, "PokerStars Hand #"@) || starts_with(t, "Unibet Hand #"@)) && contains(t, "Tournament #"@)
}

/// The hands among the first `k` lines, each as its lines; lines before the first hand are
/// dropped.
pub open spec fn stars_blocks_upto(ls: Seq<Seq<char>>, k: int) -> Seq<Seq<Seq<char>>>
    decreases k,
{
    if k <= 0 {
        Seq::empty()
    } else {
        let bs = stars_blocks_upto(ls, k - 1);
        let l = ls[k - 1];
        if hand_head(l) {
            bs.push(seq![l])
        } else if bs.len() > 0 {
            bs.update(bs.len() - 1, bs.last().push(l))
        } else {
            bs
        }
    }
}

/// The hands of a PokerStars or Unibet file, each as its lines.
pub open spec fn spec_stars_blocks(c: Seq<char>) -> Seq<Seq<Seq<char>>> {
    let ls = line_texts(strip_bom(c));
    stars_blocks_upto(ls, ls.len() as int)
}

/// The file is a PokerStars tournament summary.
pub open spec fn spec_is_summary(c: Seq<char>) -> bool {
    starts_with(trim_start_by(strip_bom(c), 0), "PokerStars Tournament #"@)
}

pub(crate) fn strip_bom_exec(v: &Vec<char>) -> (r: Vec<char>)
    ensures
        r@ == strip_bom(v@),
{
    let mut i: usize = 0;
    assert(v@.subrange(0, v@.len() as int) =~= v@);
    while i < v.len() && v[i] == '\u{feff}'
        invariant
            i <= v@.len(),
            strip_bom(v@) == strip_bom(v@.subrange(i as int, v@.len() as int)),
        decreases v@.len() - i,
    {
        assert(v@.subrange(i as int, v@.len() as int).drop_first() =~= v@.subrange(i + 1, v@.len() as int));
        i = i + 1;
    }
    let r = sub_vec(v, i, v.len());
    r
}

/// Whether a file is a PokerStars tournament summary (see `spec_is_summary`).
pub fn is_summary(c: &str) -> (r: bool)
    ensures
        r == spec_is_summary(c@),
{
    let v = strip_bom_exec(&chars_of(c));
    assert(v@.subrange(0, v@.len() as int) =~= v@);
    let a = trim_start_index(&v);
    starts_with_exec(&sub_vec(&v, a, v.len()), &chars_of("PokerStars Tournament #"))
}

fn hand_head_exec(l: &Vec<char>) -> (r: bool)
    ensures
        r == hand_head(l@),
{
    let a = trim_start_index(l);
    let t = sub_vec(l, a, l.len());
    (starts_with_exec(&t, &chars_of("PokerStars Hand #")) || starts_with_exec(&t, &chars_of("Unibet Hand #")))
        && contains_exec(&t, &chars_of("Tournament #"))
}

/// Splits a PokerStars or Unibet file into its hands (see `spec_stars_blocks`).
pub fn stars_blocks(c: &str) -> (out: Vec<Vec<String>>)
    ensures
        out@.len() == spec_stars_blocks(c@).len(),
        forall|i: int|
            0 <= i < out@.len() ==> crate::parser::expresso::line_views(#[trigger] out@[i]@) == spec_stars_blocks(c@)[i],
{
    let v = strip_bom_exec(&chars_of(c));
    let s = string_of(&v, 0, v.len());
    assert(v@.subrange(0, v@.len() as int) =~= v@);
    let lines = crate::parser::expresso::text_lines(s.as_str());
    let ghost ls = line_texts(strip_bom(c@));
    let n = lines.len();
    let mut out: Vec<Vec<String>> = Vec::new();
    let mut cur: Vec<String> = Vec::new();
    let mut started = false;
    let mut k: usize = 0;
    while k < n
        invariant
            k <= n == ls.len(),
            views(lines@) == ls,
            started ==> ({
                let bs = stars_blocks_upto(ls, k as int);
                &&& bs.len() == out@.len() + 1
                &&& forall|i: int|
                    0 <= i < out@.len() ==> crate::parser::expresso::line_views(#[trigger] out@[i]@) == bs[i]
                &&& crate::parser::expresso::line_views(cur@) == bs.last()
            }),
            !started ==> stars_blocks_upto(ls, k as int).len() == 0 && out@.len() == 0,
        decreases n - k,
    {
        let l = &lines[k];
        assert(views(lines@)[k as int] == l@);
        assert(l@.subrange(0, l@.len() as int) =~= l@);
        let ls_k = string_of(l, 0, l.len());
        let ghost bs = stars_blocks_upto(ls, k as int);
        if hand_head_exec(l) {
            if started {
                let ghost ob = out@;
                let ghost c0 = cur@;
                out.push(cur);
                proof {
                    assert forall|i: int|
                        0 <= i < out@.len() implies crate::parser::expresso::line_views(#[trigger] out@[i]@)
                        == stars_blocks_upto(ls, k + 1)[i] by {
                        if i < ob.len() {
                            assert(out@[i] == ob[i]);
                        } else {
                            assert(out@[i]@ == c0);
                        }
                    }
                }
            }
            cur = Vec::new();
            cur.push(ls_k);
            assert(crate::parser::expresso::line_views(cur@) =~= seq![l@]);
            started = true;
        } else if started {
            let ghost c0 = cur@;
            cur.push(ls_k);
            assert(crate::parser::expresso::line_views(cur@) =~= crate::parser::expresso::line_views(c0).push(l@));
        }
        k = k + 1;
    }
    if started {
        let ghost ob = out@;
        let ghost c0 = cur@;
        out.push(cur);
        proof {
            assert forall|i: int|
                0 <= i < out@.len() implies crate::parser::expresso::line_views(#[trigger] out@[i]@)
                == spec_stars_blocks(c@)[i] by {
                if i < ob.len() {
                    assert(out@[i] == ob[i]);
                } else {
                    assert(out@[i]@ == c0);
                }
            }
        }
    }
    out
}

} // verus!
