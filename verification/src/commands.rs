//! Helpers behind the user-interface commands: hand labels and the player-list query.
use vstd::prelude::*;
use crate::model::{push_char, ActKind, Action, rank_char};
use vstd::string::StringExecFns;

verus! {

/// Query of the player list.
#[derive(Debug, Clone, Default)]
pub struct PlayerQuery {
    pub search: String,
    pub tag: Option<String>,
    pub min_hands: u32,
    pub sort: Option<String>,
    pub desc: Option<bool>,
    pub offset: usize,
    pub limit: usize,
    pub include_hero: bool,
}

/// Class name of two hole cards: "AKs", "QJo", "77" (higher rank first).
pub open spec fn spec_combo_name(a: u8, b: u8) -> Seq<char> {
    let (ra, rb) = ((a / 4) as int, (b / 4) as int);
    let (hi, lo) = if ra >= rb { (ra, rb) } else { (rb, ra) };
    if hi != lo {
        seq![rank_char(hi), rank_char(lo), if a % 4 == b % 4 { 's' } else { 'o' }]
    } else {
        seq![rank_char(hi), rank_char(lo)]
    }
}

/// Class name of two hole cards (see `spec_combo_name`).
pub fn combo_class(a: u8, b: u8) -> (s: String)
    requires
        a < 52,
        b < 52,
    ensures
        s@ == spec_combo_name(a, b),
{
    let (ra, rb) = (a / 4, b / 4);
    let (hi, lo) = if ra >= rb { (ra, rb) } else { (rb, ra) };
    let mut s = String::new();
    push_char(&mut s, crate::model::rank_ch(hi));
    push_char(&mut s, crate::model::rank_ch(lo));
    if hi != lo {
        push_char(&mut s, if a % 4 == b % 4 { 's' } else { 'o' });
    }
    s
}

/// Class name of the hole cards, or the empty string when they are unknown.
pub fn hand_combo(c: Option<[u8; 2]>) -> (s: String)
    requires
        c matches Some(h) ==> h[0] < 52 && h[1] < 52,
    ensures
        s@ == match c {
            None => Seq::<char>::empty(),
            Some(h) => spec_combo_name(h[0], h[1]),
        },
{
    match c {
        None => String::new(),
        Some(h) => combo_class(h[0], h[1]),
    }
}

/// Letter of one of the hero's actions: A all-in bet or raise, C call, R raise, B bet,
/// X check, F fold.
pub open spec fn act_letter(a: Action) -> Seq<char> {
    match a.kind {
        ActKind::Raise | ActKind::Bet => if a.allin { "A"@ } else if a.kind == ActKind::Raise { "R"@ } else { "B"@ },
        ActKind::Call => "C"@,
        ActKind::Check => "X"@,
        ActKind::Fold => "F"@,
        _ => Seq::<char>::empty(),
    }
}

/// Letters of the voluntary actions of `hero` on `street`, among the first `n` actions.
pub open spec fn street_letters(actions: Seq<Action>, hero: u8, street: u8, n: int) -> Seq<char>
    decreases n,
{
    if n <= 0 {
        Seq::empty()
    } else {
        let prev = street_letters(actions, hero, street, n - 1);
        let a = actions[n - 1];
        if a.street == street && a.p == hero && !a.kind.spec_post() {
            prev + act_letter(a)
        } else {
            prev
        }
    }
}

/// Number of actions of `hero` on `street` that are not forced posts.
pub open spec fn street_count(actions: Seq<Action>, hero: u8, street: u8, n: int) -> int
    decreases n,
{
    if n <= 0 {
        0
    } else {
        let a = actions[n - 1];
        street_count(actions, hero, street, n - 1) + if a.street == street && a.p == hero && !a.kind.spec_post() { 1int } else { 0 }
    }
}

/// The hero's line, street by street ("RC / X / F"), from street `st` on, stopping at the
/// first street where the hero did not act.
pub open spec fn spec_hero_line(actions: Seq<Action>, hero: u8, st: int) -> Seq<char>
    decreases 4 - st,
{
    if st >= 4 || street_count(actions, hero, st as u8, actions.len() as int) == 0 {
        Seq::empty()
    } else {
        let part = street_letters(actions, hero, st as u8, actions.len() as int);
        let rest = spec_hero_line(actions, hero, st + 1);
        if rest.len() == 0 {
            part
        } else {
            part + " / "@ + rest
        }
    }
}

fn letter_of(a: Action) -> (r: &'static str)
    ensures
        r@ == act_letter(a),
{
    proof {
        reveal_strlit("");
    }
    match (a.kind, a.allin) {
        (ActKind::Raise, true) | (ActKind::Bet, true) => "A",
        (ActKind::Call, true) => "C",
        (ActKind::Raise, _) => "R",
        (ActKind::Bet, _) => "B",
        (ActKind::Call, _) => "C",
        (ActKind::Check, _) => "X",
        (ActKind::Fold, _) => "F",
        _ => "",
    }
}

fn street_part(actions: &Vec<Action>, hero: u8, st: u8) -> (r: (String, usize))
    ensures
        r.0@ == street_letters(actions@, hero, st, actions@.len() as int),
        r.1 == street_count(actions@, hero, st, actions@.len() as int),
{
    let mut s = String::new();
    let mut cnt: usize = 0;
    let mut i: usize = 0;
    while i < actions.len()
        invariant
            i <= actions@.len(),
            s@ == street_letters(actions@, hero, st, i as int),
            cnt == street_count(actions@, hero, st, i as int),
            cnt <= i,
        decreases actions@.len() - i,
    {
        let a = actions[i];
        if a.street == st && a.p == hero && !a.kind.is_post() {
            s.append(letter_of(a));
            cnt = cnt + 1;
        }
        i = i + 1;
    }
    (s, cnt)
}

fn hero_line_from(actions: &Vec<Action>, hero: u8, st: u8) -> (r: String)
    requires
        st <= 4,
    ensures
        r@ == spec_hero_line(actions@, hero, st as int),
    decreases 4 - st,
{
    if st >= 4 {
        return String::new();
    }
    let (part, cnt) = street_part(actions, hero, st);
    if cnt == 0 {
        return String::new();
    }
    let rest = hero_line_from(actions, hero, st + 1);
    if rest.as_str().is_empty() {
        return part;
    }
    let mut out = part;
    out.append(" / ");
    out.append(rest.as_str());
    out
}

/// The hero's line in a hand, e.g. "R / B / X": one group of letters per street.
pub fn hero_line(hero: u8, actions: &Vec<Action>) -> (r: String)
    ensures
        r@ == spec_hero_line(actions@, hero, 0),
{
    hero_line_from(actions, hero, 0)
}

} // verus!
