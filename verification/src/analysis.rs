//! Facts derived from a hand: positions, position scenarios, and what the hand's actions
//! show (who folded, who saw the flop, a showdown, the street where an all-in was
//! decided). The chip amounts and the all-in equities are computed by the caller.
use vstd::prelude::*;
use crate::model::{ActKind, Action, STREET_PREFLOP};

verus! {

/// Seat position.
#[derive(Debug, Clone, Copy, PartialEq, Eq, Hash, Structural)]
pub enum Pos {
    Btn,
    Sb,
    Bb,
}

/// Position scenario from one player's point of view, as in Spin trackers.
#[derive(Debug, Clone, Copy, PartialEq, Eq, Hash, Structural)]
pub enum Scenario {
    Btn,
    SbVsBtn,
    SbVsBb,
    BbVsBtn,
    BbVsSb,
    HuSb,
    HuBb,
}

pub open spec fn scenario_label(s: Scenario) -> Seq<char> {
    match s {
        Scenario::Btn => "BTN"@,
        Scenario::SbVsBtn => "SB vs BTN"@,
        Scenario::SbVsBb => "SB vs BB"@,
        Scenario::BbVsBtn => "BB vs BTN"@,
        Scenario::BbVsSb => "BB vs SB"@,
        Scenario::HuSb => "HU SB"@,
        Scenario::HuBb => "HU BB"@,
    }
}

impl Scenario {
    /// Display label of the scenario.
    pub fn label(self) -> (r: &'static str)
        ensures
            r@ == scenario_label(self),
    {
        match self {
            Scenario::Btn => "BTN",
            Scenario::SbVsBtn => "SB vs BTN",
            Scenario::SbVsBb => "SB vs BB",
            Scenario::BbVsBtn => "BB vs BTN",
            Scenario::BbVsSb => "BB vs SB",
            Scenario::HuSb => "HU SB",
            Scenario::HuBb => "HU BB",
        }
    }
}

/// Player of the first preflop action of kind `kind` among the first `n` actions.
pub open spec fn first_index_upto(actions: Seq<Action>, kind: ActKind, n: int) -> Option<u8>
    decreases n,
{
    if n <= 0 {
        None
    } else {
        match first_index_upto(actions, kind, n - 1) {
            Some(p) => Some(p),
            None => if actions[n - 1].kind == kind && actions[n - 1].street == STREET_PREFLOP {
                Some(actions[n - 1].p)
            } else {
                None
            },
        }
    }
}

/// Player of the first preflop action of kind `kind`.
pub open spec fn first_index_of(actions: Seq<Action>, kind: ActKind) -> Option<u8> {
    first_index_upto(actions, kind, actions.len() as int)
}

fn first_index_exec(actions: &Vec<Action>, kind: ActKind) -> (r: Option<u8>)
    ensures
        r == first_index_of(actions@, kind),
{
    let mut i: usize = 0;
    while i < actions.len()
        invariant
            i <= actions@.len(),
            first_index_upto(actions@, kind, i as int) is None,
        decreases actions@.len() - i,
    {
        if actions[i].kind == kind && actions[i].street == STREET_PREFLOP {
            proof {
                lemma_first_index_stays(actions@, kind, i + 1, actions@.len() as int);
            }
            return Some(actions[i].p);
        }
        i = i + 1;
    }
    None
}

proof fn lemma_first_index_stays(actions: Seq<Action>, kind: ActKind, n: int, m: int)
    requires
        0 <= n <= m,
        first_index_upto(actions, kind, n) is Some,
    ensures
        first_index_upto(actions, kind, m) == first_index_upto(actions, kind, n),
    decreases m - n,
{
    if m > n {
        lemma_first_index_stays(actions, kind, n, m - 1);
    }
}

/// Position of seat `i` among `n` players with the button at `button`.
pub open spec fn spec_position(actions: Seq<Action>, n: int, button: int, i: int) -> Pos {
    let sb = first_index_of(actions, ActKind::SmallBlind);
    let bb = first_index_of(actions, ActKind::BigBlind);
    if n == 2 {
        let sbp = match sb { Some(p) => p as int, None => button };
        if i == sbp { Pos::Sb } else { Pos::Bb }
    } else {
        let sbp = match sb { Some(p) => p as int, None => (button + 1) % n };
        let bbp = match bb { Some(p) => p as int, None => (sbp + 1) % n };
        if i == sbp {
            Pos::Sb
        } else if i == bbp {
            Pos::Bb
        } else {
            Pos::Btn
        }
    }
}

/// Positions of the `n` seats: heads-up the button posts the small blind; otherwise the
/// blinds are the players who posted them (by default the seats after the button).
pub fn positions(n: usize, button: u8, actions: &Vec<Action>) -> (pos: Vec<Pos>)
    requires
        n >= 1,
    ensures
        pos@.len() == n,
        forall|i: int| 0 <= i < n ==> pos@[i] == spec_position(actions@, n as int, button as int, i),
{
    let sb = first_index_exec(actions, ActKind::SmallBlind);
    let bb = first_index_exec(actions, ActKind::BigBlind);
    let mut pos: Vec<Pos> = Vec::new();
    if n == 2 {
        let sbp: usize = match sb { Some(p) => p as usize, None => button as usize };
        let mut i: usize = 0;
        while i < n
            invariant
                i <= n,
                n == 2,
                sbp as int == (match sb { Some(p) => p as int, None => button as int }),
                sb == first_index_of(actions@, ActKind::SmallBlind),
                pos@.len() == i,
                forall|k: int| 0 <= k < i ==> pos@[k] == spec_position(actions@, n as int, button as int, k),
            decreases n - i,
        {
            pos.push(if i == sbp { Pos::Sb } else { Pos::Bb });
            i = i + 1;
        }
        return pos;
    }
    let btn = button as usize;
    let sbp: usize = match sb { Some(p) => p as usize, None => (btn + 1) % n };
    let bbp: usize = match bb { Some(p) => p as usize, None => (sbp + 1) % n };
    let mut i: usize = 0;
    while i < n
        invariant
            i <= n,
            n != 2,
            n >= 1,
            sb == first_index_of(actions@, ActKind::SmallBlind),
            bb == first_index_of(actions@, ActKind::BigBlind),
            sbp as int == (match sb { Some(p) => p as int, None => (button as int + 1) % (n as int) }),
            bbp as int == (match bb { Some(p) => p as int, None => (sbp as int + 1) % (n as int) }),
            pos@.len() == i,
            forall|k: int| 0 <= k < i ==> pos@[k] == spec_position(actions@, n as int, button as int, k),
        decreases n - i,
    {
        pos.push(if i == sbp { Pos::Sb } else if i == bbp { Pos::Bb } else { Pos::Btn });
        i = i + 1;
    }
    pos
}

// ---------------------------------------------------------------- the shape of a hand

/// Player `i` folded among the first `k` actions.
pub open spec fn folded_upto(acts: Seq<Action>, i: int, k: int) -> bool
    decreases k,
{
    k > 0 && (folded_upto(acts, i, k - 1) || (acts[k - 1].p == i && acts[k - 1].kind == ActKind::Fold))
}

/// Player `i` folded preflop among the first `k` actions.
pub open spec fn folded_pre_upto(acts: Seq<Action>, i: int, k: int) -> bool
    decreases k,
{
    k > 0 && (folded_pre_upto(acts, i, k - 1) || (acts[k - 1].p == i && acts[k - 1].kind == ActKind::Fold
        && acts[k - 1].street == STREET_PREFLOP))
}

/// Player `i` acted after the flop among the first `k` actions.
pub open spec fn acted_post_upto(acts: Seq<Action>, i: int, k: int) -> bool
    decreases k,
{
    k > 0 && (acted_post_upto(acts, i, k - 1) || (acts[k - 1].p == i && acts[k - 1].street >= 1))
}

/// Some action among the first `k` puts a player all-in.
pub open spec fn any_allin_upto(acts: Seq<Action>, k: int) -> bool
    decreases k,
{
    k > 0 && (any_allin_upto(acts, k - 1) || acts[k - 1].allin)
}

/// Street of the last action that is not a forced post among the first `k` (preflop when
/// there is none).
pub open spec fn last_street_upto(acts: Seq<Action>, k: int) -> u8
    decreases k,
{
    if k <= 0 {
        STREET_PREFLOP
    } else if !acts[k - 1].kind.spec_post() {
        acts[k - 1].street
    } else {
        last_street_upto(acts, k - 1)
    }
}

/// Number of the first `k` players who did not fold.
pub open spec fn live_upto(acts: Seq<Action>, k: int) -> int
    decreases k,
{
    if k <= 0 {
        0
    } else {
        live_upto(acts, k - 1) + if folded_upto(acts, k - 1, acts.len() as int) { 0int } else { 1 }
    }
}

/// Kind of the first preflop action of player `p` that is not a forced post, from the
/// `j`-th action on.
pub open spec fn first_pre_kind(acts: Seq<Action>, p: int, j: int) -> Option<ActKind>
    decreases acts.len() - j,
{
    if j < 0 || j >= acts.len() {
        None
    } else if acts[j].street == STREET_PREFLOP && !acts[j].kind.spec_post() && acts[j].p == p {
        Some(acts[j].kind)
    } else {
        first_pre_kind(acts, p, j + 1)
    }
}

/// First seat at the button position, from the `i`-th on.
pub open spec fn btn_index(pos: Seq<Pos>, i: int) -> Option<int>
    decreases pos.len() - i,
{
    if i < 0 || i >= pos.len() {
        None
    } else if pos[i] == Pos::Btn {
        Some(i)
    } else {
        btn_index(pos, i + 1)
    }
}

/// The button folded first (or there is no button).
pub open spec fn btn_folded_first(acts: Seq<Action>, pos: Seq<Pos>) -> bool {
    match btn_index(pos, 0) {
        Some(b) => first_pre_kind(acts, b, 0) == Some(ActKind::Fold),
        None => true,
    }
}

/// Scenario of a player at position `p` among `n` players.
pub open spec fn scenario_of(n: int, p: Pos, btn_folded: bool) -> Scenario {
    if n == 2 {
        if p == Pos::Sb { Scenario::HuSb } else { Scenario::HuBb }
    } else {
        match p {
            Pos::Btn => Scenario::Btn,
            Pos::Sb => if btn_folded { Scenario::SbVsBb } else { Scenario::SbVsBtn },
            Pos::Bb => if btn_folded { Scenario::BbVsSb } else { Scenario::BbVsBtn },
        }
    }
}

/// Cards on the board when the betting of a street ends.
pub open spec fn board_known(street: u8) -> int {
    if street == 0 { 0 } else if street == 1 { 3 } else if street == 2 { 4 } else { 5 }
}

/// What the actions of a hand show.
pub struct Shape {
    /// the player folded
    pub folded: Vec<bool>,
    /// the player saw the flop: acted after it, or did not fold preflop when the board has a
    /// flop
    pub saw_flop: Vec<bool>,
    /// at least two players did not fold
    pub showdown: bool,
    /// street of the last action that is not a forced post
    pub last_street: u8,
    /// some action put a player all-in
    pub any_allin: bool,
    /// the result is adjusted to the all-in equities: a showdown after an all-in decided
    /// before the river, the whole board and the cards of every player left known
    pub adjusted: bool,
    /// scenario of each player
    pub scenarios: Vec<Scenario>,
}

/// The whole-board, all-cards-known condition of an all-in adjustment.
pub open spec fn adjusted_spec(acts: Seq<Action>, n: int, board_len: int, known: Seq<bool>) -> bool {
    &&& live_upto(acts, n) >= 2
    &&& any_allin_upto(acts, acts.len() as int)
    &&& board_known(last_street_upto(acts, acts.len() as int)) < 5
    &&& board_len == 5
    &&& forall|i: int| 0 <= i < n && !folded_upto(acts, i, acts.len() as int) ==> #[trigger] known[i]
}

fn any_fold_exec(actions: &Vec<Action>, i: usize, pre_only: bool) -> (r: bool)
    ensures
        r == (if pre_only { folded_pre_upto(actions@, i as int, actions@.len() as int) } else { folded_upto(
            actions@,
            i as int,
            actions@.len() as int,
        ) }),
{
    let mut r = false;
    let mut k: usize = 0;
    while k < actions.len()
        invariant
            k <= actions@.len(),
            r == (if pre_only { folded_pre_upto(actions@, i as int, k as int) } else { folded_upto(
                actions@,
                i as int,
                k as int,
            ) }),
        decreases actions@.len() - k,
    {
        let a = actions[k];
        if a.p as usize == i && a.kind == ActKind::Fold && (!pre_only || a.street == STREET_PREFLOP) {
            r = true;
        }
        k = k + 1;
    }
    r
}

fn acted_post_exec(actions: &Vec<Action>, i: usize) -> (r: bool)
    ensures
        r == acted_post_upto(actions@, i as int, actions@.len() as int),
{
    let mut r = false;
    let mut k: usize = 0;
    while k < actions.len()
        invariant
            k <= actions@.len(),
            r == acted_post_upto(actions@, i as int, k as int),
        decreases actions@.len() - k,
    {
        let a = actions[k];
        if a.p as usize == i && a.street >= 1 {
            r = true;
        }
        k = k + 1;
    }
    r
}

fn first_pre_kind_exec(actions: &Vec<Action>, p: usize) -> (r: Option<ActKind>)
    ensures
        r == first_pre_kind(actions@, p as int, 0),
{
    let mut j: usize = 0;
    while j < actions.len()
        invariant
            j <= actions@.len(),
            first_pre_kind(actions@, p as int, 0) == first_pre_kind(actions@, p as int, j as int),
        decreases actions@.len() - j,
    {
        let a = actions[j];
        if a.street == STREET_PREFLOP && !a.kind.is_post() && a.p as usize == p {
            return Some(a.kind);
        }
        j = j + 1;
    }
    None
}

/// What the actions of a hand of `n` players show (see `Shape`): `pos` are the players'
/// positions, `board_len` the number of board cards, `known[i]` whether the cards of
/// player `i` are known.
#[verifier::rlimit(40)]
pub fn shape(n: usize, pos: &Vec<Pos>, actions: &Vec<Action>, board_len: usize, known: &Vec<bool>) -> (r: Shape)
    requires
        pos@.len() == n,
        known@.len() == n,
    ensures
        r.folded@.len() == n,
        r.saw_flop@.len() == n,
        r.scenarios@.len() == n,
        forall|i: int| 0 <= i < n ==> #[trigger] r.folded@[i] == folded_upto(actions@, i, actions@.len() as int),
        forall|i: int|
            0 <= i < n ==> #[trigger] r.saw_flop@[i] == (acted_post_upto(actions@, i, actions@.len() as int) || (
            board_len >= 3 && !folded_pre_upto(actions@, i, actions@.len() as int))),
        r.showdown == (live_upto(actions@, n as int) >= 2),
        r.last_street == last_street_upto(actions@, actions@.len() as int),
        r.any_allin == any_allin_upto(actions@, actions@.len() as int),
        r.adjusted == adjusted_spec(actions@, n as int, board_len as int, known@),
        forall|i: int|
            0 <= i < n ==> #[trigger] r.scenarios@[i] == scenario_of(n as int, pos@[i], btn_folded_first(actions@, pos@)),
{
    let ghost acts = actions@;
    let m = actions.len();
    // per player
    let mut folded: Vec<bool> = Vec::new();
    let mut saw_flop: Vec<bool> = Vec::new();
    let mut live: usize = 0;
    let mut all_known = true;
    let mut i: usize = 0;
    while i < n
        invariant
            i <= n == known@.len(),
            acts == actions@,
            m == acts.len(),
            folded@.len() == i,
            saw_flop@.len() == i,
            forall|j: int| 0 <= j < i ==> #[trigger] folded@[j] == folded_upto(acts, j, m as int),
            forall|j: int|
                0 <= j < i ==> #[trigger] saw_flop@[j] == (acted_post_upto(acts, j, m as int) || (board_len >= 3
                    && !folded_pre_upto(acts, j, m as int))),
            live as int == live_upto(acts, i as int),
            live <= i,
            all_known == (forall|j: int| 0 <= j < i && !folded_upto(acts, j, m as int) ==> #[trigger] known@[j]),
        decreases n - i,
    {
        let f = any_fold_exec(actions, i, false);
        let fp = any_fold_exec(actions, i, true);
        let post = acted_post_exec(actions, i);
        folded.push(f);
        saw_flop.push(post || (board_len >= 3 && !fp));
        if !f {
            live = live + 1;
            if !known[i] {
                all_known = false;
            }
        }
        i = i + 1;
    }
    // over the actions
    let mut any_allin = false;
    let mut last_street: u8 = STREET_PREFLOP;
    let mut k: usize = 0;
    while k < m
        invariant
            k <= m == acts.len(),
            acts == actions@,
            any_allin == any_allin_upto(acts, k as int),
            last_street == last_street_upto(acts, k as int),
        decreases m - k,
    {
        let a = actions[k];
        if a.allin {
            any_allin = true;
        }
        if !a.kind.is_post() {
            last_street = a.street;
        }
        k = k + 1;
    }
    let showdown = live >= 2;
    let known_cards: usize = if last_street == 0 { 0 } else if last_street == 1 { 3 } else if last_street == 2 { 4 } else { 5 };
    let adjusted = showdown && any_allin && known_cards < 5 && board_len == 5 && all_known;
    // scenarios
    let mut b: usize = 0;
    while b < n && pos[b] != Pos::Btn
        invariant
            b <= n == pos@.len(),
            btn_index(pos@, 0) == btn_index(pos@, b as int),
        decreases n - b,
    {
        b = b + 1;
    }
    let bff = if b < n { first_pre_kind_exec(actions, b) == Some(ActKind::Fold) } else { true };
    assert(bff == btn_folded_first(acts, pos@));
    let mut scenarios: Vec<Scenario> = Vec::new();
    let mut i: usize = 0;
    while i < n
        invariant
            i <= n == pos@.len(),
            scenarios@.len() == i,
            forall|j: int| 0 <= j < i ==> #[trigger] scenarios@[j] == scenario_of(n as int, pos@[j], bff),
        decreases n - i,
    {
        let p = pos[i];
        let sc = if n == 2 {
            if p == Pos::Sb { Scenario::HuSb } else { Scenario::HuBb }
        } else {
            match p {
                Pos::Btn => Scenario::Btn,
                Pos::Sb => if bff { Scenario::SbVsBb } else { Scenario::SbVsBtn },
                Pos::Bb => if bff { Scenario::BbVsSb } else { Scenario::BbVsBtn },
            }
        };
        scenarios.push(sc);
        i = i + 1;
    }
    Shape { folded, saw_flop, showdown, last_street, any_allin, adjusted, scenarios }
}

} // verus!
