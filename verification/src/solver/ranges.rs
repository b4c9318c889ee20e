//! Hand ranges on the 13×13 grid, card lists typed by the user, and the category of a
//! two-card hand on a board (made hand and draws), as a range analyser shows them.
//!
//! Cards use the tracker's code `rank * 4 + suit`, suits in the order c d h s.
use vstd::prelude::*;
use vstd::string::StringExecFns;
use crate::model::{Card, rank_char, suit_char, spec_card_str, card_str, push_char};
use crate::text::{is_ws, is_ws_exec};
use crate::eval::{bit, spec_eval, spec_straight_top};

verus! {

broadcast use vstd::string::group_string_axioms;

/// Rank letters, from the deuce to the ace.
pub const RANKS: [u8; 13] = [50, 51, 52, 53, 54, 55, 56, 57, 84, 74, 81, 75, 65];

// ---------------------------------------------------------------- the 13×13 grid

/// Cell of a two-card hand in the 13×13 grid: row and column 0 are the ace. The diagonal
/// holds the pairs, the upper triangle (row < column) the suited hands, the lower one the
/// offsuit hands.
pub open spec fn spec_cell_of(c1: int, c2: int) -> int {
    let r1 = 12 - c1 / 4;
    let r2 = 12 - c2 / 4;
    let hi = if r1 <= r2 { r1 } else { r2 };
    let lo = if r1 <= r2 { r2 } else { r1 };
    if hi == lo {
        hi * 13 + hi
    } else if c1 % 4 == c2 % 4 {
        hi * 13 + lo
    } else {
        lo * 13 + hi
    }
}

/// Grid cell of a two-card hand.
#[verifier::spinoff_prover]
#[verifier::rlimit(40)]
pub fn cell_of(c1: Card, c2: Card) -> (cell: usize)
    requires
        c1 < 52,
        c2 < 52,
    ensures
        cell == spec_cell_of(c1 as int, c2 as int),
        cell < 169,
        (cell / 13 == cell % 13) <==> c1 / 4 == c2 / 4,
        (cell / 13 < cell % 13) <==> (c1 / 4 != c2 / 4 && c1 % 4 == c2 % 4),
        (cell / 13 > cell % 13) <==> (c1 / 4 != c2 / 4 && c1 % 4 != c2 % 4),
        cell / 13 == 12 - (if c1 / 4 >= c2 / 4 { c1 / 4 } else { c2 / 4 }) || cell % 13 == 12 - (
        if c1 / 4 >= c2 / 4 { c1 / 4 } else { c2 / 4 }),
{
    let r1 = 12 - (c1 / 4) as usize;
    let r2 = 12 - (c2 / 4) as usize;
    let (hi, lo) = if r1 <= r2 { (r1, r2) } else { (r2, r1) };
    if hi == lo {
        hi * 13 + hi
    } else if c1 % 4 == c2 % 4 {
        hi * 13 + lo
    } else {
        lo * 13 + hi
    }
}

/// A hand and the same two cards in the other order fall in the same cell.
pub proof fn lemma_cell_of_symmetric(c1: Card, c2: Card)
    requires
        c1 < 52,
        c2 < 52,
    ensures
        spec_cell_of(c1 as int, c2 as int) == spec_cell_of(c2 as int, c1 as int),
{
}

/// The grid names a hand as the tracker's hand classes do: the name of the cell of two
/// cards is their class name (`AA`, `AKs`, `AKo`).
#[verifier::spinoff_prover]
pub proof fn lemma_cell_name_is_class(c1: Card, c2: Card)
    requires
        c1 < 52,
        c2 < 52,
    ensures
        spec_cell_name(spec_cell_of(c1 as int, c2 as int)) == crate::commands::spec_combo_name(c1, c2),
{
    let r1 = 12 - c1 / 4;
    let r2 = 12 - c2 / 4;
    let hi = if r1 <= r2 { r1 } else { r2 };
    let lo = if r1 <= r2 { r2 } else { r1 };
    let cell = spec_cell_of(c1 as int, c2 as int);
    if hi == lo {
        assert(cell / 13 == hi && cell % 13 == hi);
    } else if c1 % 4 == c2 % 4 {
        assert(cell / 13 == hi && cell % 13 == lo);
    } else {
        assert(cell / 13 == lo && cell % 13 == hi);
    }
    assert(spec_cell_name(cell) =~= crate::commands::spec_combo_name(c1, c2));
}

/// Name of a grid cell: `AA`, `AKs`, `AKo`.
pub open spec fn spec_cell_name(cell: int) -> Seq<char> {
    let i = cell / 13;
    let j = cell % 13;
    if i == j {
        seq![rank_char(12 - i), rank_char(12 - i)]
    } else if i < j {
        seq![rank_char(12 - i), rank_char(12 - j), 's']
    } else {
        seq![rank_char(12 - j), rank_char(12 - i), 'o']
    }
}

fn rank_letter(k: usize) -> (c: char)
    requires
        k < 13,
    ensures
        c == rank_char(12 - k),
{
    let b = RANKS[12 - k];
    proof {
        assert(RANKS@[12 - k] == b);
    }
    if b == 50 { '2' } else if b == 51 { '3' } else if b == 52 { '4' } else if b == 53 { '5' }
    else if b == 54 { '6' } else if b == 55 { '7' } else if b == 56 { '8' } else if b == 57 { '9' }
    else if b == 84 { 'T' } else if b == 74 { 'J' } else if b == 81 { 'Q' } else if b == 75 { 'K' }
    else { 'A' }
}

/// Name of a grid cell (`AA`, `AKs`, `AKo`).
pub fn cell_name(cell: usize) -> (s: String)
    requires
        cell < 169,
    ensures
        s@ == spec_cell_name(cell as int),
{
    let i = cell / 13;
    let j = cell % 13;
    let mut s = String::new();
    if i == j {
        push_char(&mut s, rank_letter(i));
        push_char(&mut s, rank_letter(i));
    } else if i < j {
        push_char(&mut s, rank_letter(i));
        push_char(&mut s, rank_letter(j));
        push_char(&mut s, 's');
    } else {
        push_char(&mut s, rank_letter(j));
        push_char(&mut s, rank_letter(i));
        push_char(&mut s, 'o');
    }
    s
}

/// Name of a combo, higher card first (`AsKd`).
pub fn combo_name(c1: Card, c2: Card) -> (s: String)
    requires
        c1 < 52,
        c2 < 52,
    ensures
        s@ == (if c1 > c2 {
            spec_card_str(c1 as int) + spec_card_str(c2 as int)
        } else {
            spec_card_str(c2 as int) + spec_card_str(c1 as int)
        }),
{
    let (a, b) = if c1 > c2 { (c1, c2) } else { (c2, c1) };
    let mut s = card_str(a);
    let t = card_str(b);
    s.append(t.as_str());
    s
}

// ---------------------------------------------------------------- card lists

/// Characters kept when reading a card list: all but whitespace and commas.
pub open spec fn card_text(s: Seq<char>) -> Seq<char>
    decreases s.len(),
{
    if s.len() == 0 {
        Seq::empty()
    } else {
        let c = s.last();
        card_text(s.drop_last()) + (if !is_ws(c) && c != ',' { seq![c] } else { Seq::empty() })
    }
}

/// Rank of a rank letter (either case), if it is one.
pub open spec fn rank_of_byte(b: u8) -> Option<int> {
    let u = if 97 <= b <= 122 { (b - 32) as u8 } else { b };
    if exists|k: int| 0 <= k < 13 && RANKS@[k] == u {
        Some(choose|k: int| 0 <= k < 13 && RANKS@[k] == u)
    } else {
        None
    }
}

/// Suit of a suit letter (either case) among `c d h s`, if it is one.
pub open spec fn suit_of_byte(b: u8) -> Option<int> {
    let l = if 65 <= b <= 90 { (b + 32) as u8 } else { b };
    if l == 99 {
        Some(0)
    } else if l == 100 {
        Some(1)
    } else if l == 104 {
        Some(2)
    } else if l == 115 {
        Some(3)
    } else {
        None
    }
}

/// Cards read from byte pairs `b[k..]`, after the cards `out` already read; the error
/// message of the first bad pair.
pub open spec fn cards_from(b: Seq<u8>, k: int, out: Seq<u8>) -> Result<Seq<u8>, Seq<char>>
    decreases b.len() - k,
{
    if k + 1 >= b.len() || k < 0 {
        Ok(out)
    } else if rank_of_byte(b[k]) is None {
        Err("rang inconnu : "@.push(b[k] as char))
    } else if suit_of_byte(b[k + 1]) is None {
        Err("couleur inconnue : "@.push(b[k + 1] as char))
    } else {
        let c = (rank_of_byte(b[k])->0 * 4 + suit_of_byte(b[k + 1])->0) as u8;
        if out.contains(c) {
            Err("carte en double : "@ + spec_card_str(c as int))
        } else {
            cards_from(b, k + 2, out.push(c))
        }
    }
}

/// A card list as typed by the user (`"Ah Kd, 7c"`, `"AhKd7c"`): whitespace and commas
/// are skipped, the rest is read two bytes at a time, rank then suit, in either case.
pub open spec fn spec_parse_cards(s: Seq<char>) -> Result<Seq<u8>, Seq<char>> {
    let t = card_text(s);
    let b = vstd::utf8::encode_utf8(t);
    if b.len() % 2 != 0 {
        Err("cartes invalides : "@ + t)
    } else {
        cards_from(b, 0, Seq::empty())
    }
}

fn rank_of_byte_exec(b: u8) -> (r: Option<usize>)
    ensures
        match r {
            Some(k) => rank_of_byte(b) == Some(k as int) && k < 13,
            None => rank_of_byte(b) is None,
        },
{
    let u = if 97 <= b && b <= 122 { b - 32 } else { b };
    let mut k: usize = 0;
    while k < 13
        invariant
            k <= 13,
            u == (if 97 <= b <= 122 { (b - 32) as u8 } else { b }),
            forall|j: int| 0 <= j < k ==> RANKS@[j] != u,
        decreases 13 - k,
    {
        if RANKS[k] == u {
            proof {
                assert(forall|j: int, i: int| 0 <= j < i < 13 ==> RANKS@[j] != RANKS@[i]);
                let w = choose|j: int| 0 <= j < 13 && RANKS@[j] == u;
                assert(RANKS@[k as int] == u);
            }
            return Some(k);
        }
        k = k + 1;
    }
    None
}

fn suit_of_byte_exec(b: u8) -> (r: Option<usize>)
    ensures
        match r {
            Some(k) => suit_of_byte(b) == Some(k as int) && k < 4,
            None => suit_of_byte(b) is None,
        },
{
    let l = if 65 <= b && b <= 90 { b + 32 } else { b };
    if l == 99 {
        Some(0)
    } else if l == 100 {
        Some(1)
    } else if l == 104 {
        Some(2)
    } else if l == 115 {
        Some(3)
    } else {
        None
    }
}

fn byte_char(b: u8) -> (c: char)
    ensures
        c == b as char,
{
    b as char
}

fn message(head: &str, tail: &str) -> (s: String)
    ensures
        s@ == head@ + tail@,
{
    let mut s = String::from_str(head);
    s.append(tail);
    s
}

fn message_char(head: &str, c: char) -> (s: String)
    ensures
        s@ == head@.push(c),
{
    let mut s = String::from_str(head);
    push_char(&mut s, c);
    s
}

fn has_card(v: &Vec<Card>, c: Card) -> (r: bool)
    ensures
        r == v@.contains(c),
{
    let mut i: usize = 0;
    while i < v.len()
        invariant
            i <= v@.len(),
            forall|j: int| 0 <= j < i ==> v@[j] != c,
        decreases v@.len() - i,
    {
        if v[i] == c {
            assert(v@[i as int] == c);
            return true;
        }
        i = i + 1;
    }
    false
}

fn kept_text(s: &str) -> (t: String)
    ensures
        t@ == card_text(s@),
{
    let v = crate::text::chars_of(s);
    let mut t = String::new();
    let mut i: usize = 0;
    while i < v.len()
        invariant
            i <= v@.len(),
            v@ == s@,
            t@ == card_text(v@.take(i as int)),
        decreases v@.len() - i,
    {
        let c = v[i];
        assert(v@.take(i + 1).drop_last() =~= v@.take(i as int));
        if !is_ws_exec(c) && c != ',' {
            push_char(&mut t, c);
        }
        i = i + 1;
    }
    assert(v@.take(v@.len() as int) =~= v@);
    t
}

/// Reads a card list typed by the user (`"Ah Kd, 7c"`). Whitespace and commas are skipped;
/// the rest is read two bytes at a time. Errors: an odd number of bytes, an unknown rank or
/// suit letter, a card given twice.
pub fn parse_cards(s: &str) -> (r: Result<Vec<Card>, String>)
    ensures
        match r {
            Ok(v) => spec_parse_cards(s@) == Ok::<Seq<u8>, Seq<char>>(v@),
            Err(e) => spec_parse_cards(s@) == Err::<Seq<u8>, Seq<char>>(e@),
        },
{
    let t = kept_text(s);
    let b = t.as_str().as_bytes();
    proof {
        reveal_strlit("cartes invalides : ");
    }
    if b.len() % 2 != 0 {
        return Err(message("cartes invalides : ", t.as_str()));
    }
    let mut out: Vec<Card> = Vec::new();
    let mut k: usize = 0;
    while k < b.len()
        invariant
            b@ == vstd::utf8::encode_utf8(card_text(s@)),
            b@.len() % 2 == 0,
            k % 2 == 0,
            k <= b@.len(),
            cards_from(b@, 0, Seq::empty()) == cards_from(b@, k as int, out@),
        decreases b@.len() - k,
    {
        let r = rank_of_byte_exec(b[k]);
        let su = suit_of_byte_exec(b[k + 1]);
        match r {
            None => {
                proof {
                    reveal_strlit("rang inconnu : ");
                }
                return Err(message_char("rang inconnu : ", byte_char(b[k])));
            },
            Some(rk) => {
                match su {
                    None => {
                        proof {
                            reveal_strlit("couleur inconnue : ");
                        }
                        return Err(message_char("couleur inconnue : ", byte_char(b[k + 1])));
                    },
                    Some(sk) => {
                        let c = (rk * 4 + sk) as u8;
                        if has_card(&out, c) {
                            proof {
                                reveal_strlit("carte en double : ");
                            }
                            let name = card_str(c);
                            return Err(message("carte en double : ", name.as_str()));
                        }
                        out.push(c);
                    },
                }
            },
        }
        k = k + 2;
    }
    Ok(out)
}

// ---------------------------------------------------------------- categories

/// Made-hand categories, in display order; a hand has exactly one.
pub const MADE: [&'static str; 15] = [
    "Quinte flush",
    "Carré",
    "Full",
    "Couleur",
    "Quinte",
    "Brelan (set)",
    "Brelan",
    "Deux paires",
    "Overpair",
    "Top paire",
    "Paire sous la top",
    "Paire moyenne",
    "Petite paire",
    "Hauteur as",
    "Rien",
];

/// Draw categories, in display order; a hand may have several.
pub const DRAWS: [&'static str; 6] = [
    "Tirage couleur",
    "Tirage quinte ouvert",
    "Ventrale",
    "Tirage combo",
    "Backdoor couleur",
    "Deux overcards",
];

/// Number of cards of rank `r` among `cs`.
pub open spec fn count_rank(cs: Seq<u8>, r: int) -> int
    decreases cs.len(),
{
    if cs.len() == 0 {
        0
    } else {
        count_rank(cs.drop_last(), r) + (if cs.last() / 4 == r { 1int } else { 0 })
    }
}

/// Number of cards of suit `s` among `cs`.
pub open spec fn count_suit(cs: Seq<u8>, s: int) -> int
    decreases cs.len(),
{
    if cs.len() == 0 {
        0
    } else {
        count_suit(cs.drop_last(), s) + (if cs.last() % 4 == s { 1int } else { 0 })
    }
}

/// Highest rank `<= r` present among `cs`, or -1.
pub open spec fn highest_from(cs: Seq<u8>, r: int) -> int
    decreases r + 1,
{
    if r < 0 {
        -1
    } else if count_rank(cs, r) >= 1 {
        r
    } else {
        highest_from(cs, r - 1)
    }
}

/// Highest rank on the board.
pub open spec fn top_rank(b: Seq<u8>) -> int {
    highest_from(b, 12)
}

/// Second highest distinct rank on the board, or -1.
pub open spec fn second_rank(b: Seq<u8>) -> int {
    highest_from(b, top_rank(b) - 1)
}

/// Some rank appears at least twice on the board.
pub open spec fn board_paired(b: Seq<u8>) -> bool {
    exists|r: int| 0 <= r < 13 && #[trigger] count_rank(b, r) >= 2
}

/// Bit mask of the ranks of `cs`.
pub open spec fn rank_mask(cs: Seq<u8>) -> u32
    decreases cs.len(),
{
    if cs.len() == 0 {
        0
    } else {
        rank_mask(cs.drop_last()) | (1u32 << ((cs.last() / 4) as u32))
    }
}

/// The ranks of `m` hold a straight (five in a row, the ace also counting low).
pub open spec fn has_straight(m: u32) -> bool {
    spec_straight_top(m) is Some
}

/// Number of ranks below `n`, absent from `m`, that would complete a straight.
pub open spec fn outs_below(m: u32, n: int) -> int
    decreases n,
{
    if n <= 0 {
        0
    } else {
        outs_below(m, n - 1) + (if !bit(m, n - 1) && has_straight(m | (1u32 << ((n - 1) as u32))) {
            1int
        } else {
            0
        })
    }
}

/// Ranks that complete a straight; none when the straight is already made.
pub open spec fn spec_straight_outs(m: u32) -> int {
    if has_straight(m) {
        0
    } else {
        outs_below(m, 13)
    }
}

/// Category of a pair made with the hole cards of ranks `h1`, `h2` on board `b`:
/// overpair, top pair, pair below the top, middle pair or small pair.
pub open spec fn spec_pair_kind(h1: int, h2: int, b: Seq<u8>) -> int {
    let top = top_rank(b);
    let sec = second_rank(b);
    if h1 == h2 && count_rank(b, h1) == 0 {
        if h1 > top {
            8
        } else if sec >= 0 && h1 > sec {
            10
        } else {
            12
        }
    } else {
        let r = if count_rank(b, h1) >= 1 { h1 } else { h2 };
        if r == top {
            9
        } else if sec >= 0 && r == sec {
            11
        } else {
            12
        }
    }
}

/// The seven (or fewer) cards: the two hole cards then the board.
pub open spec fn all_cards(c1: u8, c2: u8, b: Seq<u8>) -> Seq<u8> {
    seq![c1, c2] + b
}

/// Hand category of the evaluator (0 high card .. 8 straight flush).
pub open spec fn hand_class(c1: u8, c2: u8, b: Seq<u8>) -> u32 {
    spec_eval(all_cards(c1, c2, b)) >> 26u32
}

/// Made-hand category (index in `MADE`) of hole cards `c1 c2` on board `b`.
pub open spec fn spec_made(c1: u8, c2: u8, b: Seq<u8>) -> int {
    let class = hand_class(c1, c2, b);
    let h1 = c1 / 4;
    let h2 = c2 / 4;
    let high = if h1 == 12 || h2 == 12 { 13int } else { 14int };
    let on1 = count_rank(b, h1 as int) >= 1;
    let on2 = count_rank(b, h2 as int) >= 1;
    if class == 8 {
        0
    } else if class == 7 {
        1
    } else if class == 6 {
        2
    } else if class == 5 {
        3
    } else if class == 4 {
        4
    } else if class == 3 {
        if h1 == h2 && count_rank(b, h1 as int) == 1 {
            5
        } else if (on1 && h1 != h2) || (on2 && h1 != h2) {
            6
        } else {
            high
        }
    } else if class == 2 {
        let hole_pairs = (if on1 { 1int } else { 0 }) + (if on2 { 1int } else { 0 });
        if h1 == h2 || hole_pairs >= 1 {
            if hole_pairs == 2 || !board_paired(b) {
                7
            } else {
                spec_pair_kind(h1 as int, h2 as int, b)
            }
        } else {
            high
        }
    } else if class == 1 {
        if h1 == h2 || on1 || on2 {
            spec_pair_kind(h1 as int, h2 as int, b)
        } else {
            high
        }
    } else {
        high
    }
}

/// Some suit of a hole card is held exactly `n` times among the seven cards.
pub open spec fn suit_run(c1: u8, c2: u8, b: Seq<u8>, n: int) -> bool {
    let all = all_cards(c1, c2, b);
    exists|s: int|
        0 <= s < 4 && #[trigger] count_suit(all, s) == n && (c1 % 4 == s || c2 % 4 == s)
}

/// Rank outs of the whole hand that the board alone does not already have.
pub open spec fn straight_draw(c1: u8, c2: u8, b: Seq<u8>) -> int {
    let class = hand_class(c1, c2, b);
    let outs_all = if class < 4 { spec_straight_outs(rank_mask(all_cards(c1, c2, b))) } else { 0 };
    let outs_board = spec_straight_outs(rank_mask(b));
    if outs_all > outs_board {
        outs_all
    } else {
        0
    }
}

/// Draw categories (indices in `DRAWS`, in that order) of hole cards `c1 c2` on board `b`:
/// only before the river and without a straight or better.
pub open spec fn spec_draws(c1: u8, c2: u8, b: Seq<u8>) -> Seq<usize> {
    let class = hand_class(c1, c2, b);
    if b.len() < 5 && class < 5 {
        let fd = suit_run(c1, c2, b, 4);
        let sd = straight_draw(c1, c2, b);
        let top = top_rank(b);
        (if fd { seq![0usize] } else { Seq::empty() }) + (if sd >= 2 {
            seq![1usize]
        } else if sd == 1 {
            seq![2usize]
        } else {
            Seq::empty()
        }) + (if fd && sd >= 1 { seq![3usize] } else { Seq::empty() }) + (if b.len() == 3 && !fd
            && suit_run(c1, c2, b, 3) {
            seq![4usize]
        } else {
            Seq::empty()
        }) + (if class == 0 && c1 / 4 > top && c2 / 4 > top {
            seq![5usize]
        } else {
            Seq::empty()
        })
    } else {
        Seq::empty()
    }
}

/// The ranks of `m` (13 bits) hold a straight.
fn straight_mask(m: u32) -> (r: bool)
    requires
        m < 8192,
    ensures
        r == has_straight(m),
{
    crate::eval::straight_top(m).is_some()
}

/// Number of ranks that complete a straight (none when it is already made).
fn straight_outs(m: u32) -> (n: u32)
    requires
        m < 8192,
    ensures
        n == spec_straight_outs(m),
{
    if straight_mask(m) {
        return 0;
    }
    let mut n: u32 = 0;
    let mut r: u32 = 0;
    while r < 13
        invariant
            r <= 13,
            m < 8192,
            n == outs_below(m, r as int),
            n <= r,
        decreases 13 - r,
    {
        proof {
            crate::eval::lemma_mask_bound(m, r);
        }
        if (m >> r) & 1 != 1 && straight_mask(m | (1u32 << r)) {
            n = n + 1;
        }
        r = r + 1;
    }
    n
}

fn rank_mask_of(cs: &[Card]) -> (m: u32)
    requires
        forall|i: int| 0 <= i < cs@.len() ==> cs@[i] < 52,
    ensures
        m == rank_mask(cs@),
        m < 8192,
{
    let mut m: u32 = 0;
    let mut i: usize = 0;
    while i < cs.len()
        invariant
            i <= cs@.len(),
            forall|j: int| 0 <= j < cs@.len() ==> cs@[j] < 52,
            m == rank_mask(cs@.take(i as int)),
            m < 8192,
        decreases cs@.len() - i,
    {
        let c = cs[i];
        assert(cs@.take(i + 1).drop_last() =~= cs@.take(i as int));
        proof {
            crate::eval::lemma_mask_bound(m, (c / 4) as u32);
        }
        m = m | (1u32 << ((c / 4) as u32));
        i = i + 1;
    }
    assert(cs@.take(cs@.len() as int) =~= cs@);
    m
}

fn rank_counts(b: &[Card]) -> (k: [u8; 13])
    requires
        b@.len() <= 5,
        forall|i: int| 0 <= i < b@.len() ==> b@[i] < 52,
    ensures
        forall|q: int| 0 <= q < 13 ==> k[q] == count_rank(b@, q),
{
    let mut k = [0u8; 13];
    let mut i: usize = 0;
    while i < b.len()
        invariant
            i <= b@.len() <= 5,
            forall|j: int| 0 <= j < b@.len() ==> b@[j] < 52,
            forall|q: int| 0 <= q < 13 ==> k[q] == count_rank(b@.take(i as int), q),
            forall|q: int| 0 <= q < 13 ==> k[q] <= i,
        decreases b@.len() - i,
    {
        let c = b[i];
        assert(b@.take(i + 1).drop_last() =~= b@.take(i as int));
        let r = (c / 4) as usize;
        k[r] = k[r] + 1;
        i = i + 1;
    }
    assert(b@.take(b@.len() as int) =~= b@);
    k
}

fn suit_counts(cs: &[Card]) -> (k: [u8; 4])
    requires
        cs@.len() <= 7,
    ensures
        forall|q: int| 0 <= q < 4 ==> k[q] == count_suit(cs@, q),
{
    let mut k = [0u8; 4];
    let mut i: usize = 0;
    while i < cs.len()
        invariant
            i <= cs@.len() <= 7,
            forall|q: int| 0 <= q < 4 ==> k[q] == count_suit(cs@.take(i as int), q),
            forall|q: int| 0 <= q < 4 ==> k[q] <= i,
        decreases cs@.len() - i,
    {
        let c = cs[i];
        assert(cs@.take(i + 1).drop_last() =~= cs@.take(i as int));
        let s = (c % 4) as usize;
        k[s] = k[s] + 1;
        i = i + 1;
    }
    assert(cs@.take(cs@.len() as int) =~= cs@);
    k
}

fn highest(k: &[u8; 13], from: i32, Ghost(b): Ghost<Seq<u8>>) -> (r: i32)
    requires
        -1 <= from <= 12,
        forall|q: int| 0 <= q < 13 ==> k[q] == count_rank(b, q),
    ensures
        r == highest_from(b, from as int),
        -1 <= r <= from,
    decreases from + 1,
{
    if from < 0 {
        -1
    } else if k[from as usize] >= 1 {
        from
    } else {
        highest(k, from - 1, Ghost(b))
    }
}

fn paired(k: &[u8; 13], Ghost(b): Ghost<Seq<u8>>) -> (r: bool)
    requires
        forall|q: int| 0 <= q < 13 ==> k[q] == count_rank(b, q),
    ensures
        r == board_paired(b),
{
    let mut q: usize = 0;
    while q < 13
        invariant
            q <= 13,
            forall|j: int| 0 <= j < 13 ==> k[j] == count_rank(b, j),
            forall|j: int| 0 <= j < q ==> count_rank(b, j) < 2,
        decreases 13 - q,
    {
        if k[q] >= 2 {
            assert(count_rank(b, q as int) >= 2);
            return true;
        }
        q = q + 1;
    }
    false
}

fn pair_kind(h1: u32, h2: u32, k: &[u8; 13], top: i32, sec: i32, Ghost(b): Ghost<Seq<u8>>) -> (r:
    usize)
    requires
        h1 < 13,
        h2 < 13,
        forall|q: int| 0 <= q < 13 ==> k[q] == count_rank(b, q),
        top == top_rank(b),
        sec == second_rank(b),
    ensures
        r == spec_pair_kind(h1 as int, h2 as int, b),
{
    if h1 == h2 && k[h1 as usize] == 0 {
        return if (h1 as i32) > top {
            8
        } else if sec >= 0 && (h1 as i32) > sec {
            10
        } else {
            12
        };
    }
    let r = if k[h1 as usize] >= 1 { h1 } else { h2 };
    if (r as i32) == top {
        9
    } else if sec >= 0 && (r as i32) == sec {
        11
    } else {
        12
    }
}

fn hole_suit_count(k: &[u8; 4], c1: Card, c2: Card, n: u8, Ghost(all): Ghost<Seq<u8>>) -> (r: bool)
    requires
        forall|q: int| 0 <= q < 4 ==> k[q] == count_suit(all, q),
    ensures
        r == (exists|s: int|
            0 <= s < 4 && #[trigger] count_suit(all, s) == n && (c1 % 4 == s || c2 % 4 == s)),
{
    let mut s: u8 = 0;
    while s < 4
        invariant
            s <= 4,
            forall|q: int| 0 <= q < 4 ==> k[q] == count_suit(all, q),
            forall|q: int| 0 <= q < s ==> !(count_suit(all, q) == n && (c1 % 4 == q || c2 % 4 == q)),
        decreases 4 - s,
    {
        if k[s as usize] == n && (c1 % 4 == s || c2 % 4 == s) {
            assert(count_suit(all, s as int) == n);
            return true;
        }
        s = s + 1;
    }
    false
}

/// Made-hand category (index in `MADE`) and draws (indices in `DRAWS`) of the hole cards
/// `c1 c2` on a board of one to five cards.
#[verifier::spinoff_prover]
#[verifier::rlimit(60)]
pub fn classify(c1: Card, c2: Card, board: &[Card]) -> (r: (usize, Vec<usize>))
    requires
        c1 < 52,
        c2 < 52,
        1 <= board@.len() <= 5,
        forall|i: int| 0 <= i < board@.len() ==> board@[i] < 52,
    ensures
        r.0 == spec_made(c1, c2, board@),
        r.1@ == spec_draws(c1, c2, board@),
        r.0 < 15,
        forall|i: int, j: int| 0 <= i < j < r.1@.len() ==> r.1@[i] < r.1@[j],
        forall|i: int| 0 <= i < r.1@.len() ==> r.1@[i] < 6,
{
    let ghost b = board@;
    let mut all: Vec<Card> = Vec::new();
    all.push(c1);
    all.push(c2);
    let mut i: usize = 0;
    while i < board.len()
        invariant
            i <= board@.len(),
            all@ == seq![c1, c2] + board@.take(i as int),
        decreases board@.len() - i,
    {
        all.push(board[i]);
        assert(seq![c1, c2] + board@.take(i + 1) =~= (seq![c1, c2] + board@.take(i as int)).push(
            board@[i as int],
        ));
        i = i + 1;
    }
    assert(board@.take(board@.len() as int) =~= board@);
    assert(all@ == all_cards(c1, c2, b));
    assert(forall|j: int| 0 <= j < all@.len() ==> all@[j] < 52);
    let v = crate::eval::eval(all.as_slice());
    let class = v >> 26;
    let h1 = (c1 / 4) as u32;
    let h2 = (c2 / 4) as u32;
    let k = rank_counts(board);
    let top = highest(&k, 12, Ghost(b));
    let sec = if top >= 0 { highest(&k, top - 1, Ghost(b)) } else { -1 };
    let high: usize = if h1 == 12 || h2 == 12 { 13 } else { 14 };
    let on1 = k[h1 as usize] >= 1;
    let on2 = k[h2 as usize] >= 1;
    let made: usize = if class == 8 {
        0
    } else if class == 7 {
        1
    } else if class == 6 {
        2
    } else if class == 5 {
        3
    } else if class == 4 {
        4
    } else if class == 3 {
        if h1 == h2 && k[h1 as usize] == 1 {
            5
        } else if (on1 && h1 != h2) || (on2 && h1 != h2) {
            6
        } else {
            high
        }
    } else if class == 2 {
        let hole_pairs: u32 = (if on1 { 1 } else { 0 }) + (if on2 { 1 } else { 0 });
        if h1 == h2 || hole_pairs >= 1 {
            if hole_pairs == 2 || !paired(&k, Ghost(b)) {
                7
            } else {
                pair_kind(h1, h2, &k, top, sec, Ghost(b))
            }
        } else {
            high
        }
    } else if class == 1 {
        if h1 == h2 || on1 || on2 {
            pair_kind(h1, h2, &k, top, sec, Ghost(b))
        } else {
            high
        }
    } else {
        high
    };
    let mut draws: Vec<usize> = Vec::new();
    if board.len() < 5 && class < 5 {
        let sc = suit_counts(all.as_slice());
        let fd = hole_suit_count(&sc, c1, c2, 4, Ghost(all@));
        let outs_all = if class < 4 { straight_outs(rank_mask_of(all.as_slice())) } else { 0 };
        let outs_board = straight_outs(rank_mask_of(board));
        let sd = if outs_all > outs_board { outs_all } else { 0 };
        let ghost d0 = draws@;
        if fd {
            draws.push(0);
        }
        let ghost d1 = draws@;
        if sd >= 2 {
            draws.push(1);
        } else if sd == 1 {
            draws.push(2);
        }
        let ghost d2 = draws@;
        if fd && sd >= 1 {
            draws.push(3);
        }
        let ghost d3 = draws@;
        if board.len() == 3 && !fd {
            let bd = hole_suit_count(&sc, c1, c2, 3, Ghost(all@));
            if bd {
                draws.push(4);
            }
        }
        let ghost d4 = draws@;
        if class == 0 && (h1 as i32) > top && (h2 as i32) > top {
            draws.push(5);
        }
        proof {
            assert(sd == straight_draw(c1, c2, b));
            assert(fd == suit_run(c1, c2, b, 4));
        }
        assert(draws@ =~= spec_draws(c1, c2, b));
    }
    assert(forall|i: int, j: int| 0 <= i < j < draws@.len() ==> draws@[i] < draws@[j]);
    (made, draws)
}

/// Bit mask of a set of cards (bit `c` for card `c`).
pub fn mask(cards: &[Card]) -> (m: u64)
    requires
        forall|i: int| 0 <= i < cards@.len() ==> cards@[i] < 64,
    ensures
        forall|c: u64| c < 64 ==> (((m >> c) & 1u64 == 1u64) <==> cards@.contains(c as u8)),
{
    let mut m: u64 = 0;
    let mut i: usize = 0;
    assert forall|c: u64| c < 64 implies (0u64 >> c) & 1u64 != 1u64 by {
        assert((0u64 >> c) & 1u64 != 1u64) by (bit_vector);
    }
    while i < cards.len()
        invariant
            i <= cards@.len(),
            forall|j: int| 0 <= j < cards@.len() ==> cards@[j] < 64,
            forall|c: u64| c < 64 ==> (((m >> c) & 1u64 == 1u64) <==> cards@.take(i as int).contains(
                c as u8,
            )),
        decreases cards@.len() - i,
    {
        let x = cards[i] as u64;
        let old_m = m;
        m = m | (1u64 << x);
        assert forall|c: u64| c < 64 implies (((m >> c) & 1u64 == 1u64) <==> cards@.take(
            i + 1,
        ).contains(c as u8)) by {
            assert(((old_m | (1u64 << x)) >> c) & 1u64 == 1u64 <==> (((old_m >> c) & 1u64 == 1u64)
                || c == x)) by (bit_vector)
                requires
                    x < 64,
                    c < 64,
            ;
            let t = cards@.take(i as int);
            assert(cards@.take(i + 1) =~= t.push(cards@[i as int]));
            assert((c as u8) as int == c as int);
            if t.push(cards@[i as int]).contains(c as u8) {
                let w = choose|w: int| 0 <= w < i + 1 && t.push(cards@[i as int])[w] == c as u8;
                if w < i {
                    assert(t[w] == c as u8);
                }
            }
            if t.contains(c as u8) {
                let w = choose|w: int| 0 <= w < i && t[w] == c as u8;
                assert(t.push(cards@[i as int])[w] == c as u8);
            }
            if c == x {
                assert(t.push(cards@[i as int])[i as int] == c as u8);
            }
        }
        i = i + 1;
    }
    assert(cards@.take(cards@.len() as int) =~= cards@);
    m
}

/// Law: when the seven cards make three of a kind, the hand is a set (`MADE[5]`) exactly when
/// the hole cards are a pocket pair whose rank shows once on the board; when the hole cards
/// are of different ranks and one of them pairs the board, it is trips (`MADE[6]`).
pub proof fn lemma_set_or_trips(c1: u8, c2: u8, b: Seq<u8>)
    requires
        c1 < 52,
        c2 < 52,
        hand_class(c1, c2, b) == 3,
    ensures
        (spec_made(c1, c2, b) == 5) <==> (c1 / 4 == c2 / 4 && count_rank(b, (c1 / 4) as int) == 1),
        c1 / 4 != c2 / 4 && (count_rank(b, (c1 / 4) as int) >= 1 || count_rank(b, (c2 / 4) as int) >= 1)
            ==> spec_made(c1, c2, b) == 6,
{
}

/// What `highest_from` finds: a rank of the cards with none above it up to `r`, or -1 when
/// no rank up to `r` is held.
proof fn lemma_highest_from(cs: Seq<u8>, r: int)
    ensures
        highest_from(cs, r) == -1 || highest_from(cs, r) <= r,
        highest_from(cs, r) >= 0 ==> count_rank(cs, highest_from(cs, r)) >= 1,
        forall|q: int| highest_from(cs, r) < q <= r ==> #[trigger] count_rank(cs, q) == 0,
        highest_from(cs, r) >= -1,
    decreases r + 1,
{
    if r >= 0 && count_rank(cs, r) < 1 {
        lemma_highest_from(cs, r - 1);
        lemma_count_rank_nonneg(cs, r);
    }
}

proof fn lemma_count_rank_nonneg(cs: Seq<u8>, r: int)
    ensures
        count_rank(cs, r) >= 0,
    decreases cs.len(),
{
    if cs.len() > 0 {
        lemma_count_rank_nonneg(cs.drop_last(), r);
    }
}

/// Law: the made-hand category of a straight or better is the evaluator's category read from
/// the top (straight flush first); weaker hands never get one of those five.
pub proof fn lemma_made_strong(c1: u8, c2: u8, b: Seq<u8>)
    ensures
        4 <= hand_class(c1, c2, b) <= 8 ==> spec_made(c1, c2, b) == 8 - hand_class(c1, c2, b),
        hand_class(c1, c2, b) < 4 ==> spec_made(c1, c2, b) >= 5,
        spec_made(c1, c2, b) == 5 || spec_made(c1, c2, b) == 6 ==> hand_class(c1, c2, b) == 3,
        spec_made(c1, c2, b) == 7 ==> hand_class(c1, c2, b) == 2,
        0 <= spec_made(c1, c2, b) < 15,
{
}

/// Law: a hand that makes nothing with its hole cards is "ace high" exactly when a hole card
/// is an ace.
pub proof fn lemma_made_nothing(c1: u8, c2: u8, b: Seq<u8>)
    requires
        spec_made(c1, c2, b) >= 13,
    ensures
        (spec_made(c1, c2, b) == 13) <==> (c1 / 4 == 12 || c2 / 4 == 12),
{
}

/// Law: an overpair is a pocket pair above every board card; a top pair pairs a hole card
/// with the highest board rank; a pair below the top is a pocket pair between the two highest
/// board ranks; a middle pair pairs a hole card with the second board rank.
pub proof fn lemma_pair_kinds(c1: u8, c2: u8, b: Seq<u8>)
    ensures
        spec_made(c1, c2, b) == 8 ==> c1 / 4 == c2 / 4 && forall|r: int| c1 / 4 <= r < 13 ==> #[trigger] count_rank(b, r) == 0,
        spec_made(c1, c2, b) == 9 ==> exists|h: int|
            (h == c1 / 4 || h == c2 / 4) && #[trigger] count_rank(b, h) >= 1 && forall|r: int| h < r < 13 ==> #[trigger] count_rank(b, r) == 0,
        spec_made(c1, c2, b) == 10 ==> c1 / 4 == c2 / 4 && count_rank(b, (c1 / 4) as int) == 0 && (exists|r: int|
            c1 / 4 < r < 13 && #[trigger] count_rank(b, r) >= 1) && (exists|r: int| 0 <= r < c1 / 4 && #[trigger] count_rank(b, r) >= 1),
        spec_made(c1, c2, b) == 11 ==> exists|h: int|
            (h == c1 / 4 || h == c2 / 4) && #[trigger] count_rank(b, h) >= 1 && top_rank(b) > h && forall|r: int| h < r < top_rank(b) ==> #[trigger] count_rank(b, r) == 0,
{
    let h1 = (c1 / 4) as int;
    let h2 = (c2 / 4) as int;
    let top = top_rank(b);
    let sec = second_rank(b);
    lemma_highest_from(b, 12);
    lemma_highest_from(b, top - 1);
    let m = spec_made(c1, c2, b);
    if m == 8 || m == 10 {
        assert(h1 == h2 && count_rank(b, h1) == 0);
        if m == 10 {
            assert(sec >= 0 && h1 > sec);
            assert(count_rank(b, top) >= 1 && top > h1) by {
                if top < h1 {
                } else if top == h1 {
                }
            }
            assert(count_rank(b, sec) >= 1);
        } else {
            assert(h1 > top);
        }
    } else if m == 9 || m == 11 {
        let r = if count_rank(b, h1) >= 1 { h1 } else { h2 };
        assert(count_rank(b, r) >= 1);
        if m == 11 {
            assert(r == sec && sec >= 0);
        }
    }
}

/// Law: draws are only counted before the river and without a flush or better; a flush draw
/// is four cards of a hole card's suit among all the cards; a combo draw is a flush draw with
/// a straight draw; a straight draw is open-ended or gutshot, not both; a backdoor flush draw
/// is a flop-only draw that is not a flush draw; two overcards are two hole ranks above every
/// board card.
pub proof fn lemma_draw_kinds(c1: u8, c2: u8, b: Seq<u8>)
    ensures
        b.len() >= 5 || hand_class(c1, c2, b) >= 5 ==> spec_draws(c1, c2, b).len() == 0,
        spec_draws(c1, c2, b).contains(0usize) <==> (b.len() < 5 && hand_class(c1, c2, b) < 5 && exists|s: int|
            0 <= s < 4 && #[trigger] count_suit(all_cards(c1, c2, b), s) == 4 && (c1 % 4 == s || c2 % 4 == s)),
        spec_draws(c1, c2, b).contains(3usize) ==> spec_draws(c1, c2, b).contains(0usize) && (spec_draws(
            c1,
            c2,
            b,
        ).contains(1usize) || spec_draws(c1, c2, b).contains(2usize)),
        !(spec_draws(c1, c2, b).contains(1usize) && spec_draws(c1, c2, b).contains(2usize)),
        spec_draws(c1, c2, b).contains(4usize) ==> b.len() == 3 && !spec_draws(c1, c2, b).contains(0usize),
        spec_draws(c1, c2, b).contains(5usize) ==> forall|r: int|
            (r >= c1 / 4 || r >= c2 / 4) && r < 13 ==> #[trigger] count_rank(b, r) == 0,
{
    broadcast use vstd::seq_lib::lemma_seq_concat_contains_all_elements;
    broadcast use vstd::seq_lib::lemma_seq_contains;
    lemma_highest_from(b, 12);
    let d = spec_draws(c1, c2, b);
    if b.len() < 5 && hand_class(c1, c2, b) < 5 {
        assert forall|v: usize, x: usize| #[trigger] seq![v].contains(x) <==> x == v by {
            assert(seq![v][0] == v);
        }
        assert forall|x: usize| !#[trigger] Seq::<usize>::empty().contains(x) by {}
    }
}

} // verus!
