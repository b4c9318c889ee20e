//! Leak finder: labels and postflop counters.
use vstd::prelude::*;
use crate::analysis::{Pos, Scenario, scenario_label};
use crate::commands::{combo_class, spec_combo_name};
use crate::model::{ActKind, Action};
use vstd::string::StringExecFns;

verus! {

/// Postflop counters of a player (or of a reference population) for one spot.
#[derive(Debug, Clone, Default)]
pub struct Post {
    pub key: String,
    pub flops: u32,
    pub cbet: [u32; 2],
    pub fold_cbet: [u32; 2],
    pub raise_cbet: [u32; 2],
    pub check_raise: [u32; 2],
    pub donk: [u32; 2],
    pub barrel: [u32; 2],
    pub wtsd: [u32; 2],
    pub wsd: [u32; 2],
    pub agg: u32,
    pub calls: u32,
    pub bets_raises_flop: [u32; 2],
}

/// Postflop counters of the player and of the reference.
#[derive(Debug, Clone)]
pub struct PostOut {
    pub player: Vec<Post>,
    pub reference: Vec<Post>,
}

pub open spec fn spec_pos_label(p: Pos, n: int) -> Seq<char> {
    match p {
        Pos::Btn => "BTN"@,
        Pos::Sb => "SB"@,
        Pos::Bb => "BB"@,
    }
}

/// Label of a position in a table of `n` players.
pub fn pos_label(p: Pos, n: usize) -> (r: &'static str)
    ensures
        r@ == spec_pos_label(p, n as int),
{
    match (p, n) {
        (Pos::Sb, 2) => "SB",
        (Pos::Bb, 2) => "BB",
        (Pos::Btn, _) => "BTN",
        (Pos::Sb, _) => "SB",
        (Pos::Bb, _) => "BB",
    }
}

/// Class name of known hole cards ("AKs", "T9o", "55").
pub fn combo(c: Option<[u8; 2]>) -> (r: Option<String>)
    requires
        c matches Some(h) ==> h[0] < 52 && h[1] < 52,
    ensures
        match c {
            None => r is None,
            Some(h) => r matches Some(s) && s@ == spec_combo_name(h[0], h[1]),
        },
{
    match c {
        None => None,
        Some(h) => Some(combo_class(h[0], h[1])),
    }
}

// ---------------------------------------------------------------- postflop counters

/// Player of the last preflop bet or raise among the first `k` actions.
pub open spec fn last_raiser(acts: Seq<Action>, k: int) -> Option<u8>
    decreases k,
{
    if k <= 0 {
        None
    } else if acts[k - 1].street == 0 && acts[k - 1].kind.spec_aggressive() {
        Some(acts[k - 1].p)
    } else {
        last_raiser(acts, k - 1)
    }
}

/// State of the flop after the first `k` actions of the hand, seen from player `pi` with
/// preflop raiser `pfr`: (a bet or raise was made, player who continuation-bet, `pi` has not
/// acted yet, `pi` checked, `pi` has faced the continuation bet).
pub open spec fn flop_state(acts: Seq<Action>, pi: u8, pfr: Option<u8>, k: int) -> (
    bool,
    Option<u8>,
    bool,
    bool,
    bool,
)
    decreases k,
{
    if k <= 0 {
        (false, None, true, false, false)
    } else {
        let (bet_seen, cbet_by, my_first, i_checked, faced) = flop_state(acts, pi, pfr, k - 1);
        let a = acts[k - 1];
        if a.street != 1 {
            (bet_seen, cbet_by, my_first, i_checked, faced)
        } else {
            let mine = a.p == pi;
            let faced2 = faced || (mine && cbet_by is Some && cbet_by != Some(pi));
            let checked2 = i_checked || (mine && a.kind == ActKind::Check);
            let (bet2, cbet2) = if a.kind == ActKind::Bet && !bet_seen {
                (true, if pfr == Some(a.p) { Some(a.p) } else { cbet_by })
            } else if a.kind.spec_aggressive() {
                (true, cbet_by)
            } else {
                (bet_seen, cbet_by)
            };
            (bet2, cbet2, my_first && !mine, checked2, faced2)
        }
    }
}

/// Flop events counted for player `pi`, by number: 0/1 chance/continuation bet, 2/3 chance/
/// donk bet, 4 facing the continuation bet, 5 folding to it, 6 raising it, 7/8 chance/check-
/// raise, 9/10 flop action/bet or raise.
pub open spec fn flop_event(acts: Seq<Action>, pi: u8, pfr: Option<u8>, j: int, ev: int) -> bool {
    let (bet_seen, cbet_by, my_first, i_checked, faced) = flop_state(acts, pi, pfr, j);
    let a = acts[j];
    let first_cbet = my_first && pfr == Some(pi) && !bet_seen;
    let first_donk = my_first && pfr != Some(pi) && !bet_seen && pfr is Some;
    let face = cbet_by is Some && cbet_by != Some(pi) && !faced;
    if a.street != 1 || a.p != pi {
        false
    } else if ev == 0 {
        first_cbet
    } else if ev == 1 {
        first_cbet && a.kind == ActKind::Bet
    } else if ev == 2 {
        first_donk
    } else if ev == 3 {
        first_donk && a.kind == ActKind::Bet
    } else if ev == 4 {
        face
    } else if ev == 5 {
        face && a.kind == ActKind::Fold
    } else if ev == 6 {
        face && a.kind == ActKind::Raise
    } else if ev == 7 {
        face && i_checked
    } else if ev == 8 {
        face && i_checked && a.kind == ActKind::Raise
    } else if ev == 9 {
        true
    } else {
        a.kind.spec_aggressive()
    }
}

/// Number of flop events `ev` among the first `k` actions.
pub open spec fn flop_count(acts: Seq<Action>, pi: u8, pfr: Option<u8>, k: int, ev: int) -> int
    decreases k,
{
    if k <= 0 {
        0
    } else {
        flop_count(acts, pi, pfr, k - 1, ev) + (if flop_event(acts, pi, pfr, k - 1, ev) {
            1int
        } else {
            0
        })
    }
}

/// Kind of the first turn action of player `pi` among the first `k` actions.
pub open spec fn first_turn_act(acts: Seq<Action>, pi: u8, k: int) -> Option<ActKind>
    decreases k,
{
    if k <= 0 {
        None
    } else {
        match first_turn_act(acts, pi, k - 1) {
            Some(x) => Some(x),
            None => if acts[k - 1].street == 2 && acts[k - 1].p == pi {
                Some(acts[k - 1].kind)
            } else {
                None
            },
        }
    }
}

/// Postflop bets and raises (`calls == false`) or calls (`calls == true`) of player `pi`
/// among the first `k` actions.
pub open spec fn post_count(acts: Seq<Action>, pi: u8, calls: bool, k: int) -> int
    decreases k,
{
    if k <= 0 {
        0
    } else {
        let a = acts[k - 1];
        post_count(acts, pi, calls, k - 1) + (if a.street >= 1 && a.p == pi && (if calls {
            !a.kind.spec_aggressive() && a.kind == ActKind::Call
        } else {
            a.kind.spec_aggressive()
        }) {
            1int
        } else {
            0
        })
    }
}

/// Counters with room for `n` more events each.
pub open spec fn has_room(p: Post, n: int) -> bool {
    &&& p.flops + n <= u32::MAX
    &&& p.cbet[0] + n <= u32::MAX && p.cbet[1] + n <= u32::MAX
    &&& p.fold_cbet[0] + n <= u32::MAX && p.fold_cbet[1] + n <= u32::MAX
    &&& p.raise_cbet[0] + n <= u32::MAX && p.raise_cbet[1] + n <= u32::MAX
    &&& p.check_raise[0] + n <= u32::MAX && p.check_raise[1] + n <= u32::MAX
    &&& p.donk[0] + n <= u32::MAX && p.donk[1] + n <= u32::MAX
    &&& p.barrel[0] + n <= u32::MAX && p.barrel[1] + n <= u32::MAX
    &&& p.wtsd[0] + n <= u32::MAX && p.wtsd[1] + n <= u32::MAX
    &&& p.wsd[0] + n <= u32::MAX && p.wsd[1] + n <= u32::MAX
    &&& p.agg + n <= u32::MAX && p.calls + n <= u32::MAX
    &&& p.bets_raises_flop[0] + n <= u32::MAX && p.bets_raises_flop[1] + n <= u32::MAX
}

/// Counters after one hand in which player `pi` saw the flop: flop events, barrel on the
/// turn after a continuation bet, went to showdown / won at showdown, postflop aggression.
pub open spec fn spec_postflop(
    p: Post,
    acts: Seq<Action>,
    pi: u8,
    showdown: bool,
    folded: bool,
    won: bool,
) -> Post {
    let n = acts.len() as int;
    let pfr = last_raiser(acts, n);
    let c = |ev: int| flop_count(acts, pi, pfr, n, ev);
    let cbet_by = flop_state(acts, pi, pfr, n).1;
    let turn = first_turn_act(acts, pi, n);
    let barrel = cbet_by == Some(pi) && turn is Some;
    let barrel_bet = barrel && turn == Some(ActKind::Bet);
    let sd = showdown && !folded;
    Post {
        key: p.key,
        flops: (p.flops + 1) as u32,
        cbet: [(p.cbet[0] + c(1)) as u32, (p.cbet[1] + c(0)) as u32],
        fold_cbet: [(p.fold_cbet[0] + c(5)) as u32, (p.fold_cbet[1] + c(4)) as u32],
        raise_cbet: [(p.raise_cbet[0] + c(6)) as u32, (p.raise_cbet[1] + c(4)) as u32],
        check_raise: [(p.check_raise[0] + c(8)) as u32, (p.check_raise[1] + c(7)) as u32],
        donk: [(p.donk[0] + c(3)) as u32, (p.donk[1] + c(2)) as u32],
        barrel: [
            (p.barrel[0] + if barrel_bet { 1int } else { 0 }) as u32,
            (p.barrel[1] + if barrel { 1int } else { 0 }) as u32,
        ],
        wtsd: [(p.wtsd[0] + if sd { 1int } else { 0 }) as u32, (p.wtsd[1] + 1) as u32],
        wsd: [
            (p.wsd[0] + if sd && won { 1int } else { 0 }) as u32,
            (p.wsd[1] + if sd { 1int } else { 0 }) as u32,
        ],
        agg: (p.agg + post_count(acts, pi, false, n)) as u32,
        calls: (p.calls + post_count(acts, pi, true, n)) as u32,
        bets_raises_flop: [
            (p.bets_raises_flop[0] + c(10)) as u32,
            (p.bets_raises_flop[1] + c(9)) as u32,
        ],
    }
}

proof fn lemma_flop_count_bound(acts: Seq<Action>, pi: u8, pfr: Option<u8>, k: int, ev: int)
    requires
        0 <= k,
    ensures
        0 <= flop_count(acts, pi, pfr, k, ev) <= k,
    decreases k,
{
    if k > 0 {
        lemma_flop_count_bound(acts, pi, pfr, k - 1, ev);
    }
}

proof fn lemma_post_count_bound(acts: Seq<Action>, pi: u8, calls: bool, k: int)
    requires
        0 <= k,
    ensures
        0 <= post_count(acts, pi, calls, k) <= k,
    decreases k,
{
    if k > 0 {
        lemma_post_count_bound(acts, pi, calls, k - 1);
    }
}

/// Number of `true` among the first `k` flags.
pub open spec fn count_true(v: Seq<bool>, k: int) -> int
    decreases k,
{
    if k <= 0 {
        0
    } else {
        count_true(v, k - 1) + (if v[k - 1] { 1int } else { 0 })
    }
}

/// Postflop spot of a hand: three-way when three players saw the flop, else heads-up.
pub fn post_key(saw_flop: &Vec<bool>) -> (r: &'static str)
    ensures
        r@ == (if count_true(saw_flop@, saw_flop@.len() as int) >= 3 { "3-way"@ } else { "HU"@ }),
{
    let mut n: usize = 0;
    let mut i: usize = 0;
    while i < saw_flop.len()
        invariant
            i <= saw_flop@.len(),
            n == count_true(saw_flop@, i as int),
            n <= i,
        decreases saw_flop@.len() - i,
    {
        if saw_flop[i] {
            n = n + 1;
        }
        i = i + 1;
    }
    if n >= 3 {
        "3-way"
    } else {
        "HU"
    }
}

/// Adds one hand to the postflop counters of player `pi`, if the player saw the flop:
/// continuation bets and donk bets, reactions to a continuation bet, check-raises, turn
/// barrels, showdowns (`won`: the hand ended with a profit) and postflop aggression.
pub fn postflop(
    acts: &Vec<Action>,
    pi: u8,
    saw_flop: bool,
    showdown: bool,
    folded: bool,
    won: bool,
    p: &mut Post,
)
    requires
        has_room(*old(p), acts@.len() as int + 1),
    ensures
        *final(p) == (if saw_flop {
            spec_postflop(*old(p), acts@, pi, showdown, folded, won)
        } else {
            *old(p)
        }),
{
    if !saw_flop {
        return;
    }
    let ghost a = acts@;
    let n = acts.len();
    let mut pfr: Option<u8> = None;
    let mut k: usize = 0;
    while k < n
        invariant
            k <= n == a.len(),
            a == acts@,
            pfr == last_raiser(a, k as int),
        decreases n - k,
    {
        let x = acts[k];
        if x.street == 0 && x.kind.is_aggressive() {
            pfr = Some(x.p);
        }
        k = k + 1;
    }
    let mut bet_seen = false;
    let mut cbet_by: Option<u8> = None;
    let mut my_first = true;
    let mut i_checked = false;
    let mut faced = false;
    let mut cnt = [0u32; 11];
    let mut j: usize = 0;
    while j < n
        invariant
            j <= n == a.len(),
            a == acts@,
            n <= u32::MAX,
            (bet_seen, cbet_by, my_first, i_checked, faced) == flop_state(a, pi, pfr, j as int),
            forall|ev: int| 0 <= ev < 11 ==> cnt[ev] == flop_count(a, pi, pfr, j as int, ev),
            forall|ev: int| 0 <= ev < 11 ==> cnt[ev] <= j,
        decreases n - j,
    {
        let x = acts[j];
        let mine = x.p == pi;
        let on_flop = x.street == 1;
        let first_cbet = my_first && pfr == Some(pi) && !bet_seen;
        let first_donk = my_first && pfr != Some(pi) && !bet_seen && pfr.is_some();
        let face = cbet_by.is_some() && cbet_by != Some(pi) && !faced;
        let hit = on_flop && mine;
        let e = [
            hit && first_cbet,
            hit && first_cbet && x.kind == ActKind::Bet,
            hit && first_donk,
            hit && first_donk && x.kind == ActKind::Bet,
            hit && face,
            hit && face && x.kind == ActKind::Fold,
            hit && face && x.kind == ActKind::Raise,
            hit && face && i_checked,
            hit && face && i_checked && x.kind == ActKind::Raise,
            hit,
            hit && x.kind.is_aggressive(),
        ];
        assert(forall|ev: int| 0 <= ev < 11 ==> e[ev] == flop_event(a, pi, pfr, j as int, ev));
        let mut ev: usize = 0;
        while ev < 11
            invariant
                ev <= 11,
                j < n <= u32::MAX,
                forall|q: int| 0 <= q < ev ==> cnt[q] == flop_count(a, pi, pfr, j + 1, q),
                forall|q: int| ev <= q < 11 ==> cnt[q] == flop_count(a, pi, pfr, j as int, q),
                forall|q: int| 0 <= q < ev ==> cnt[q] <= j + 1,
                forall|q: int| ev <= q < 11 ==> cnt[q] <= j,
                forall|q: int| 0 <= q < 11 ==> e[q] == flop_event(a, pi, pfr, j as int, q),
            decreases 11 - ev,
        {
            if e[ev] {
                cnt[ev] = cnt[ev] + 1;
            }
            ev = ev + 1;
        }
        if on_flop {
            if mine && cbet_by.is_some() && cbet_by != Some(pi) {
                faced = true;
            }
            if mine && x.kind == ActKind::Check {
                i_checked = true;
            }
            if x.kind == ActKind::Bet && !bet_seen {
                if pfr == Some(x.p) {
                    cbet_by = Some(x.p);
                }
                bet_seen = true;
            } else if x.kind.is_aggressive() {
                bet_seen = true;
            }
            if mine {
                my_first = false;
            }
        }
        j = j + 1;
    }
    let mut turn: Option<ActKind> = None;
    let mut t: usize = 0;
    while t < n
        invariant
            t <= n == a.len(),
            a == acts@,
            turn == first_turn_act(a, pi, t as int),
        decreases n - t,
    {
        let x = acts[t];
        if turn.is_none() && x.street == 2 && x.p == pi {
            turn = Some(x.kind);
        }
        t = t + 1;
    }
    let mut agg: u32 = 0;
    let mut calls: u32 = 0;
    let mut q: usize = 0;
    while q < n
        invariant
            q <= n == a.len(),
            n <= u32::MAX,
            a == acts@,
            agg == post_count(a, pi, false, q as int),
            calls == post_count(a, pi, true, q as int),
            agg <= q,
            calls <= q,
        decreases n - q,
    {
        let x = acts[q];
        if x.street >= 1 && x.p == pi {
            if x.kind.is_aggressive() {
                agg = agg + 1;
            } else if x.kind == ActKind::Call {
                calls = calls + 1;
            }
        }
        q = q + 1;
    }
    let barrel = cbet_by == Some(pi) && turn.is_some();
    let barrel_bet = barrel && turn == Some(ActKind::Bet);
    let sd = showdown && !folded;
    p.flops = p.flops + 1;
    p.cbet = [p.cbet[0] + cnt[1], p.cbet[1] + cnt[0]];
    p.fold_cbet = [p.fold_cbet[0] + cnt[5], p.fold_cbet[1] + cnt[4]];
    p.raise_cbet = [p.raise_cbet[0] + cnt[6], p.raise_cbet[1] + cnt[4]];
    p.check_raise = [p.check_raise[0] + cnt[8], p.check_raise[1] + cnt[7]];
    p.donk = [p.donk[0] + cnt[3], p.donk[1] + cnt[2]];
    p.barrel = [p.barrel[0] + if barrel_bet { 1 } else { 0 }, p.barrel[1] + if barrel { 1 } else { 0 }];
    p.wtsd = [p.wtsd[0] + if sd { 1 } else { 0 }, p.wtsd[1] + 1];
    p.wsd = [p.wsd[0] + if sd && won { 1 } else { 0 }, p.wsd[1] + if sd { 1 } else { 0 }];
    p.agg = p.agg + agg;
    p.calls = p.calls + calls;
    p.bets_raises_flop = [p.bets_raises_flop[0] + cnt[10], p.bets_raises_flop[1] + cnt[9]];
    proof {
        broadcast use vstd::array::axiom_array_ext_equal;
        let sp = spec_postflop(*old(p), a, pi, showdown, folded, won);
        assert(p.cbet =~= sp.cbet);
        assert(p.fold_cbet =~= sp.fold_cbet);
        assert(p.raise_cbet =~= sp.raise_cbet);
        assert(p.check_raise =~= sp.check_raise);
        assert(p.donk =~= sp.donk);
        assert(p.barrel =~= sp.barrel);
        assert(p.wtsd =~= sp.wtsd);
        assert(p.wsd =~= sp.wsd);
        assert(p.bets_raises_flop =~= sp.bets_raises_flop);
    }
}

/// Every "made" counter is at most its "chances" counter, and the showdown counters agree:
/// won at showdown <= went to showdown <= hands seen past the flop.
pub open spec fn consistent(p: Post) -> bool {
    &&& p.cbet[0] <= p.cbet[1]
    &&& p.fold_cbet[0] <= p.fold_cbet[1]
    &&& p.raise_cbet[0] <= p.raise_cbet[1]
    &&& p.check_raise[0] <= p.check_raise[1]
    &&& p.check_raise[1] <= p.fold_cbet[1]
    &&& p.fold_cbet[1] == p.raise_cbet[1]
    &&& p.donk[0] <= p.donk[1]
    &&& p.barrel[0] <= p.barrel[1]
    &&& p.wsd[0] <= p.wsd[1]
    &&& p.wsd[1] == p.wtsd[0]
    &&& p.wtsd[0] <= p.wtsd[1]
    &&& p.wtsd[1] <= p.flops
    &&& p.bets_raises_flop[0] <= p.bets_raises_flop[1]
}

proof fn lemma_count_implies(acts: Seq<Action>, pi: u8, pfr: Option<u8>, k: int, e1: int, e2: int)
    requires
        0 <= k,
        forall|j: int| 0 <= j < k ==> flop_event(acts, pi, pfr, j, e1) ==> flop_event(acts, pi, pfr, j, e2),
    ensures
        flop_count(acts, pi, pfr, k, e1) <= flop_count(acts, pi, pfr, k, e2),
    decreases k,
{
    if k > 0 {
        lemma_count_implies(acts, pi, pfr, k - 1, e1, e2);
    }
}

/// Adding a hand keeps the counters consistent.
pub proof fn lemma_postflop_keeps_consistency(
    p: Post,
    acts: Seq<Action>,
    pi: u8,
    showdown: bool,
    folded: bool,
    won: bool,
)
    requires
        consistent(p),
        has_room(p, acts.len() as int + 1),
    ensures
        consistent(spec_postflop(p, acts, pi, showdown, folded, won)),
{
    let n = acts.len() as int;
    let pfr = last_raiser(acts, n);
    lemma_count_implies(acts, pi, pfr, n, 1, 0);
    lemma_count_implies(acts, pi, pfr, n, 3, 2);
    lemma_count_implies(acts, pi, pfr, n, 5, 4);
    lemma_count_implies(acts, pi, pfr, n, 6, 4);
    lemma_count_implies(acts, pi, pfr, n, 8, 7);
    lemma_count_implies(acts, pi, pfr, n, 7, 4);
    lemma_count_implies(acts, pi, pfr, n, 10, 9);
    assert forall|ev: int| 0 <= ev < 11 implies 0 <= #[trigger] flop_count(acts, pi, pfr, n, ev) <= n by {
        lemma_flop_count_bound(acts, pi, pfr, n, ev);
    }
}

// ---------------------------------------------------------------- preflop decisions

/// Label of a preflop action given the number of bets and raises before it.
pub open spec fn spec_act_label(a: Action, raises_before: int) -> Seq<char> {
    match a.kind {
        ActKind::Call => if raises_before == 0 {
            "Limp"@
        } else {
            "Call"@
        },
        ActKind::Raise | ActKind::Bet => if raises_before == 0 {
            if a.allin {
                "Shove"@
            } else {
                "Open"@
            }
        } else if raises_before == 1 {
            if a.allin {
                "3B all-in"@
            } else {
                "3-bet"@
            }
        } else {
            if a.allin {
                "4B all-in"@
            } else {
                "4-bet"@
            }
        },
        ActKind::Check => "Check"@,
        _ => "?"@,
    }
}

/// Label of a preflop action in its context (number of bets and raises before it).
pub fn act_label(a: &Action, raises_before: u32) -> (r: String)
    ensures
        r@ == spec_act_label(*a, raises_before as int),
{
    let t: &str = match a.kind {
        ActKind::Call => if raises_before == 0 {
            "Limp"
        } else {
            "Call"
        },
        ActKind::Raise | ActKind::Bet => if raises_before == 0 {
            if a.allin {
                "Shove"
            } else {
                "Open"
            }
        } else if raises_before == 1 {
            if a.allin {
                "3B all-in"
            } else {
                "3-bet"
            }
        } else {
            if a.allin {
                "4B all-in"
            } else {
                "4-bet"
            }
        },
        ActKind::Check => "Check",
        _ => "?",
    };
    String::from_str(t)
}

/// The voluntary preflop actions among the first `k` actions (blinds and antes left out).
pub open spec fn pre_upto(acts: Seq<Action>, k: int) -> Seq<Action>
    decreases k,
{
    if k <= 0 {
        Seq::empty()
    } else {
        let prev = pre_upto(acts, k - 1);
        let a = acts[k - 1];
        if a.street == 0 && !a.kind.spec_post() {
            prev.push(a)
        } else {
            prev
        }
    }
}

/// Number of bets and raises among `pre[..k]`.
pub open spec fn raises_before(pre: Seq<Action>, k: int) -> int
    decreases k,
{
    if k <= 0 {
        0
    } else {
        raises_before(pre, k - 1) + (if pre[k - 1].kind.spec_aggressive() { 1int } else { 0 })
    }
}

/// Last action of player `pi` in `pre[..j]`.
pub open spec fn own_last(pre: Seq<Action>, pi: u8, j: int) -> Option<int>
    decreases j,
{
    if j <= 0 {
        None
    } else if pre[j - 1].p == pi {
        Some(j - 1)
    } else {
        own_last(pre, pi, j - 1)
    }
}

proof fn lemma_own_last_range(pre: Seq<Action>, pi: u8, j: int)
    ensures
        own_last(pre, pi, j) matches Some(k) ==> 0 <= k < j,
    decreases j,
{
    if j > 0 {
        lemma_own_last_range(pre, pi, j - 1);
    }
}

/// `pre[k]` is an action of another player that is not a fold.
pub open spec fn is_other(pre: Seq<Action>, pi: u8, k: int) -> bool {
    pre[k].kind != ActKind::Fold && pre[k].p != pi
}

/// Last bet or raise of another player in `pre[from..k]`.
pub open spec fn last_aggr_other(pre: Seq<Action>, pi: u8, from: int, k: int) -> Option<int>
    decreases k - from,
{
    if k <= from {
        None
    } else if is_other(pre, pi, k - 1) && pre[k - 1].kind.spec_aggressive() {
        Some(k - 1)
    } else {
        last_aggr_other(pre, pi, from, k - 1)
    }
}

proof fn lemma_last_aggr_range(pre: Seq<Action>, pi: u8, from: int, k: int)
    ensures
        last_aggr_other(pre, pi, from, k) matches Some(q) ==> from <= q < k,
    decreases k - from,
{
    if k > from {
        lemma_last_aggr_range(pre, pi, from, k - 1);
    }
}

/// Some other player acted (other than folding) in `pre[from..k]`.
pub open spec fn any_other(pre: Seq<Action>, pi: u8, from: int, k: int) -> bool
    decreases k - from,
{
    if k <= from {
        false
    } else {
        is_other(pre, pi, k - 1) || any_other(pre, pi, from, k - 1)
    }
}

/// "BTN Open": position and action label of `pre[k]`.
pub open spec fn part(pre: Seq<Action>, pos: Seq<Pos>, n: int, k: int) -> Seq<char> {
    spec_pos_label(pos[pre[k].p as int], n) + " "@ + spec_act_label(pre[k], raises_before(pre, k))
}

/// The actions of the other players in `pre[from..k]`, joined by " + ".
pub open spec fn facing_parts(pre: Seq<Action>, pi: u8, pos: Seq<Pos>, n: int, from: int, k: int) -> Seq<
    char,
>
    decreases k - from,
{
    if k <= from {
        Seq::empty()
    } else {
        let t = facing_parts(pre, pi, pos, n, from, k - 1);
        if is_other(pre, pi, k - 1) {
            if t.len() == 0 {
                part(pre, pos, n, k - 1)
            } else {
                t + " + "@ + part(pre, pos, n, k - 1)
            }
        } else {
            t
        }
    }
}

/// First action index after the player's previous decision.
pub open spec fn facing_from(pre: Seq<Action>, pi: u8, j: int) -> int {
    match own_last(pre, pi, j) {
        Some(k) => k + 1,
        None => 0,
    }
}

/// Label of the decision `pre[j]`: the player's previous action, then what it faces.
pub open spec fn decision_label(pre: Seq<Action>, pi: u8, pos: Seq<Pos>, n: int, j: int) -> Seq<char> {
    let own = own_last(pre, pi, j);
    let from = facing_from(pre, pi, j);
    let prefix = match own {
        Some(k) => spec_act_label(pre[k], raises_before(pre, k)) + " \u{2192} "@,
        None => Seq::empty(),
    };
    let facing = if !any_other(pre, pi, from, j) {
        if own is None {
            "Open"@
        } else {
            "vs Check"@
        }
    } else {
        "vs "@ + facing_parts(pre, pi, pos, n, from, j)
    };
    prefix + facing
}

/// Kind of the decision `pre[j]`: open, against limps, against a raise or against a shove.
pub open spec fn decision_kind(pre: Seq<Action>, pi: u8, j: int) -> Seq<char> {
    let from = facing_from(pre, pi, j);
    match last_aggr_other(pre, pi, from, j) {
        Some(k) => if pre[k].allin {
            "vs_shove"@
        } else {
            "vs_raise"@
        },
        None => if !any_other(pre, pi, from, j) && own_last(pre, pi, j) is None {
            "open"@
        } else {
            "vs_limp"@
        },
    }
}

/// Class of the decision `pre[j]`: 0 all-in, 1 raise, 2 call or check, 3 fold; none for other
/// actions.
pub open spec fn decision_class(a: Action) -> Option<int> {
    match a.kind {
        ActKind::Raise | ActKind::Bet => Some(if a.allin { 0int } else { 1 }),
        ActKind::Call | ActKind::Check => Some(2),
        ActKind::Fold => Some(3),
        _ => None,
    }
}

/// Indices in `pre[..k]` of the decisions of player `pi`.
pub open spec fn decision_indices(pre: Seq<Action>, pi: u8, k: int) -> Seq<int>
    decreases k,
{
    if k <= 0 {
        Seq::empty()
    } else {
        let prev = decision_indices(pre, pi, k - 1);
        if pre[k - 1].p == pi && decision_class(pre[k - 1]) is Some {
            prev.push(k - 1)
        } else {
            prev
        }
    }
}

/// A preflop decision of a player, as the leak finder groups them.
pub struct Decision {
    pub scenario: Scenario,
    pub key: String,
    pub label: String,
    pub kind: &'static str,
    pub class: usize,
    pub bucket: usize,
}

fn kind_text(pre: &Vec<Action>, la: Option<usize>, any: bool, own: Option<usize>) -> (r: &'static str)
    requires
        la matches Some(k) ==> k < pre@.len(),
    ensures
        r@ == (match la {
            Some(k) => if pre@[k as int].allin {
                "vs_shove"@
            } else {
                "vs_raise"@
            },
            None => if !any && own is None {
                "open"@
            } else {
                "vs_limp"@
            },
        }),
{
    match la {
        Some(k) => if pre[k].allin {
            "vs_shove"
        } else {
            "vs_raise"
        },
        None => if !any && own.is_none() {
            "open"
        } else {
            "vs_limp"
        },
    }
}

/// What the decision `pre[j]` faces: the actions of the other players since the player's
/// previous action (`t`: those actions joined, `la`: the last bet or raise, `any`: some).
fn scan_facing(pre: &Vec<Action>, raises: &Vec<usize>, pi: u8, pos: &Vec<Pos>, from: usize, j: usize) -> (r: (
    String,
    Option<usize>,
    bool,
))
    requires
        from <= j <= pre@.len(),
        raises@.len() == pre@.len() + 1,
        forall|k: int| 0 <= k <= pre@.len() ==> raises@[k] == raises_before(pre@, k),
        forall|k: int| 0 <= k <= pre@.len() ==> raises@[k] <= u32::MAX,
        forall|k: int| 0 <= k < pre@.len() ==> pre@[k].p < pos@.len(),
    ensures
        r.0@ == facing_parts(pre@, pi, pos@, pos@.len() as int, from as int, j as int),
        r.1 == (match last_aggr_other(pre@, pi, from as int, j as int) {
            Some(k) => Some(k as usize),
            None => None::<usize>,
        }),
        r.1 matches Some(k) ==> k < j,
        r.2 == any_other(pre@, pi, from as int, j as int),
{
    let n = pos.len();
    let mut t = String::new();
    let mut la: Option<usize> = None;
    let mut any = false;
    let mut k = from;
    proof {
        reveal_strlit(" ");
    }
    while k < j
        invariant
            from <= k <= j <= pre@.len(),
            n == pos@.len(),
            raises@.len() == pre@.len() + 1,
            forall|q: int| 0 <= q <= pre@.len() ==> raises@[q] == raises_before(pre@, q),
            forall|q: int| 0 <= q <= pre@.len() ==> raises@[q] <= u32::MAX,
            forall|q: int| 0 <= q < pre@.len() ==> pre@[q].p < pos@.len(),
            t@ == facing_parts(pre@, pi, pos@, n as int, from as int, k as int),
            la == (match last_aggr_other(pre@, pi, from as int, k as int) {
                Some(q) => Some(q as usize),
                None => None::<usize>,
            }),
            la matches Some(q) ==> q < k,
            any == any_other(pre@, pi, from as int, k as int),
            (t@.len() == 0) == !any,
            " "@.len() == 1,
        decreases j - k,
    {
        let x = pre[k];
        if x.kind != ActKind::Fold && x.p != pi {
            let mut piece = String::from_str(pos_label(pos[x.p as usize], n));
            piece.append(" ");
            let lab = act_label(&x, raises[k] as u32);
            piece.append(lab.as_str());
            if any {
                t.append(" + ");
            }
            t.append(piece.as_str());
            if x.kind.is_aggressive() {
                la = Some(k);
            }
            any = true;
        }
        k = k + 1;
    }
    (t, la, any)
}

/// Preflop decisions of player `pi` in a hand, with the player's position scenario and the
/// effective-stack bucket of the hand. `pos[i]` is the position of seat `i`.
pub fn decisions(acts: &Vec<Action>, pi: u8, pos: &Vec<Pos>, scenario: Scenario, bucket: usize) -> (out: Vec<
    Decision,
>)
    requires
        acts@.len() <= u32::MAX,
        forall|i: int| 0 <= i < acts@.len() ==> acts@[i].p < pos@.len(),
    ensures
        ({
            let pre = pre_upto(acts@, acts@.len() as int);
            let idx = decision_indices(pre, pi, pre.len() as int);
            &&& out@.len() == idx.len()
            &&& forall|i: int|
                0 <= i < idx.len() ==> {
                    let j = #[trigger] idx[i];
                    &&& out@[i].label@ == decision_label(pre, pi, pos@, pos@.len() as int, j)
                    &&& out@[i].key@ == scenario_label(scenario) + "|"@ + out@[i].label@
                    &&& out@[i].kind@ == decision_kind(pre, pi, j)
                    &&& out@[i].class == decision_class(pre[j])->0
                    &&& out@[i].scenario == scenario
                    &&& out@[i].bucket == bucket
                }
        }),
{
    let mut pre: Vec<Action> = Vec::new();
    let mut i: usize = 0;
    while i < acts.len()
        invariant
            i <= acts@.len() <= u32::MAX,
            pre@ == pre_upto(acts@, i as int),
            pre@.len() <= i,
            forall|q: int| 0 <= q < acts@.len() ==> acts@[q].p < pos@.len(),
            forall|q: int| 0 <= q < pre@.len() ==> pre@[q].p < pos@.len(),
        decreases acts@.len() - i,
    {
        let a = acts[i];
        if a.street == 0 && !a.kind.is_post() {
            pre.push(a);
        }
        i = i + 1;
    }
    let ghost pr = pre@;
    let mut raises: Vec<usize> = Vec::new();
    raises.push(0);
    let mut rc: usize = 0;
    let mut k: usize = 0;
    while k < pre.len()
        invariant
            k <= pre@.len() <= u32::MAX,
            pre@ == pr,
            rc == raises_before(pr, k as int),
            rc <= k,
            raises@.len() == k + 1,
            forall|q: int| 0 <= q <= k ==> raises@[q] == raises_before(pr, q),
            forall|q: int| 0 <= q <= k ==> raises@[q] <= q,
        decreases pre@.len() - k,
    {
        if pre[k].kind.is_aggressive() {
            rc = rc + 1;
        }
        raises.push(rc);
        k = k + 1;
    }
    let mut out: Vec<Decision> = Vec::new();
    let mut j: usize = 0;
    while j < pre.len()
        invariant
            j <= pre@.len() <= u32::MAX,
            pre@ == pr,
            pr == pre_upto(acts@, acts@.len() as int),
            raises@.len() == pre@.len() + 1,
            forall|q: int| 0 <= q <= pre@.len() ==> raises@[q] == raises_before(pr, q),
            forall|q: int| 0 <= q <= pre@.len() ==> raises@[q] <= u32::MAX,
            forall|q: int| 0 <= q < pre@.len() ==> pre@[q].p < pos@.len(),
            out@.len() == decision_indices(pr, pi, j as int).len(),
            forall|i: int|
                0 <= i < out@.len() ==> {
                    let jj = #[trigger] decision_indices(pr, pi, j as int)[i];
                    &&& out@[i].label@ == decision_label(pr, pi, pos@, pos@.len() as int, jj)
                    &&& out@[i].key@ == scenario_label(scenario) + "|"@ + out@[i].label@
                    &&& out@[i].kind@ == decision_kind(pr, pi, jj)
                    &&& out@[i].class == decision_class(pr[jj])->0
                    &&& out@[i].scenario == scenario
                    &&& out@[i].bucket == bucket
                },
        decreases pre@.len() - j,
    {
        let a = pre[j];
        let class: Option<usize> = match a.kind {
            ActKind::Raise | ActKind::Bet => Some(if a.allin { 0 } else { 1 }),
            ActKind::Call | ActKind::Check => Some(2),
            ActKind::Fold => Some(3),
            _ => None,
        };
        let ghost before = out@;
        if a.p == pi && class.is_some() {
            let mut own: Option<usize> = None;
            let mut q: usize = 0;
            while q < j
                invariant
                    q <= j < pre@.len(),
                    pre@ == pr,
                    own == (match own_last(pr, pi, q as int) {
                        Some(x) => Some(x as usize),
                        None => None::<usize>,
                    }),
                    own matches Some(x) ==> x < q,
                decreases j - q,
            {
                proof {
                    lemma_own_last_range(pr, pi, q as int);
                }
                if pre[q].p == pi {
                    own = Some(q);
                }
                q = q + 1;
            }
            let from: usize = match own {
                Some(x) => x + 1,
                None => 0,
            };
            let (facing, la, any) = scan_facing(&pre, &raises, pi, pos, from, j);
            let mut label = String::new();
            match own {
                Some(x) => {
                    let l = act_label(&pre[x], raises[x] as u32);
                    label.append(l.as_str());
                    label.append(" \u{2192} ");
                },
                None => {},
            }
            if !any {
                if own.is_none() {
                    label.append("Open");
                } else {
                    label.append("vs Check");
                }
            } else {
                label.append("vs ");
                label.append(facing.as_str());
            }
            let kind = kind_text(&pre, la, any, own);
            let mut key = String::from_str(scenario.label());
            key.append("|");
            key.append(label.as_str());
            let cls = match class {
                Some(c) => c,
                None => 0,
            };
            proof {
                lemma_own_last_range(pr, pi, j as int);
                assert(facing_from(pr, pi, j as int) == from);
                assert(label@ == decision_label(pr, pi, pos@, pos@.len() as int, j as int));
                lemma_last_aggr_range(pr, pi, from as int, j as int);
                assert(kind@ == decision_kind(pr, pi, j as int));
                assert(cls == decision_class(pr[j as int])->0);
            }
            let d = Decision { scenario, key, label, kind, class: cls, bucket };
            out.push(d);
            proof {
                assert(decision_indices(pr, pi, j + 1) == decision_indices(pr, pi, j as int).push(j as int));
                assert forall|i: int| 0 <= i < out@.len() implies {
                    let jj = #[trigger] decision_indices(pr, pi, j + 1)[i];
                    &&& out@[i].label@ == decision_label(pr, pi, pos@, pos@.len() as int, jj)
                    &&& out@[i].key@ == scenario_label(scenario) + "|"@ + out@[i].label@
                    &&& out@[i].kind@ == decision_kind(pr, pi, jj)
                    &&& out@[i].class == decision_class(pr[jj])->0
                    &&& out@[i].scenario == scenario
                    &&& out@[i].bucket == bucket
                } by {
                    if i < before.len() {
                        assert(decision_indices(pr, pi, j + 1)[i] == decision_indices(pr, pi, j as int)[i]);
                    }
                }
            }
        }
        j = j + 1;
    }
    out
}

} // verus!
