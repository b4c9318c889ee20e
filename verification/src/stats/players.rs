//! Statistics per player (opponents and hero), used for the automatic tags, the list of
//! players and the profiles: what each player did in a hand (money put in by choice,
//! raises, button opens, 3-bets, calls against a shove, continuation bets and folds to
//! them, postflop aggression), and the counters summed over the hands.
use vstd::prelude::*;
use crate::analysis::Pos;
use crate::model::{ActKind, Action};

verus! {

// ---------------------------------------------------------------- preflop

/// An action of the preflop betting (not a forced post).
pub open spec fn is_pre(a: Action) -> bool {
    a.street == 0 && !a.kind.spec_post()
}

/// A bet or a raise.
pub open spec fn raises(k: ActKind) -> bool {
    k == ActKind::Raise || k == ActKind::Bet
}

/// What the preflop actions show after some of them, for each player: money put in by
/// choice, a raise, a chance to 3-bet (facing exactly one raise, not one's own) and a
/// 3-bet, the big blind facing a shove and calling it, the first action with the number of
/// raises before it; and the number of raises, the last raiser, a shove was seen.
pub struct PreState {
    pub vpip: Seq<bool>,
    pub pfr: Seq<bool>,
    pub opp3: Seq<bool>,
    pub did3: Seq<bool>,
    pub bbs_opp: Seq<bool>,
    pub bbs_call: Seq<bool>,
    pub first: Seq<Option<(ActKind, bool, int)>>,
    pub raises: int,
    pub last_raiser: Option<int>,
    pub shove_seen: bool,
}

pub open spec fn pre_start(n: nat) -> PreState {
    PreState {
        vpip: Seq::new(n, |i: int| false),
        pfr: Seq::new(n, |i: int| false),
        opp3: Seq::new(n, |i: int| false),
        did3: Seq::new(n, |i: int| false),
        bbs_opp: Seq::new(n, |i: int| false),
        bbs_call: Seq::new(n, |i: int| false),
        first: Seq::new(n, |i: int| None),
        raises: 0,
        last_raiser: None,
        shove_seen: false,
    }
}

/// One action: only the preflop betting counts.
pub open spec fn pre_step(st: PreState, a: Action, pos: Seq<Pos>) -> PreState {
    if !is_pre(a) {
        st
    } else {
        let p = a.p as int;
        let three = st.raises == 1 && !st.opp3[p] && st.last_raiser != Some(p);
        let vs_shove = pos[p] == Pos::Bb && st.shove_seen && a.kind != ActKind::Check;
        let r = raises(a.kind);
        PreState {
            vpip: if a.kind.spec_voluntary() { st.vpip.update(p, true) } else { st.vpip },
            pfr: if r { st.pfr.update(p, true) } else { st.pfr },
            opp3: if three { st.opp3.update(p, true) } else { st.opp3 },
            did3: if three && a.kind == ActKind::Raise { st.did3.update(p, true) } else { st.did3 },
            bbs_opp: if vs_shove { st.bbs_opp.update(p, true) } else { st.bbs_opp },
            bbs_call: if vs_shove && a.kind == ActKind::Call { st.bbs_call.update(p, true) } else { st.bbs_call },
            first: if st.first[p] is None {
                st.first.update(p, Some((a.kind, a.allin, st.raises)))
            } else {
                st.first
            },
            raises: if r { st.raises + 1 } else { st.raises },
            last_raiser: if r { Some(p) } else { st.last_raiser },
            shove_seen: st.shove_seen || (r && a.allin),
        }
    }
}

/// State after the first `k` actions.
pub open spec fn pre_upto(acts: Seq<Action>, pos: Seq<Pos>, n: nat, k: int) -> PreState
    decreases k,
{
    if k <= 0 {
        pre_start(n)
    } else {
        pre_step(pre_upto(acts, pos, n, k - 1), acts[k - 1], pos)
    }
}

// ---------------------------------------------------------------- continuation bets

/// The flop actions after some of them, the preflop raiser being `pr`: chance to bet first
/// and continuation bet of the raiser, chance to face it and fold to it of the others; a bet
/// was made, the continuation bet was made, a bet or raise by another player before it
/// ended the count.
pub struct CState {
    pub opp: Seq<bool>,
    pub cb: Seq<bool>,
    pub fopp: Seq<bool>,
    pub fc: Seq<bool>,
    pub bet_made: bool,
    pub cbet_made: bool,
    pub stopped: bool,
}

pub open spec fn cb_start(n: nat) -> CState {
    CState {
        opp: Seq::new(n, |i: int| false),
        cb: Seq::new(n, |i: int| false),
        fopp: Seq::new(n, |i: int| false),
        fc: Seq::new(n, |i: int| false),
        bet_made: false,
        cbet_made: false,
        stopped: false,
    }
}

pub open spec fn cb_step(st: CState, a: Action, pr: int) -> CState {
    if st.stopped || a.street != 1 {
        st
    } else {
        let p = a.p as int;
        let own = !st.bet_made && p == pr;
        let is_cb = own && a.kind == ActKind::Bet;
        let cbet_made = st.cbet_made || is_cb;
        let facing = cbet_made && p != pr && !st.fopp[p];
        let aggr = a.kind.spec_aggressive();
        CState {
            opp: if own { st.opp.update(p, true) } else { st.opp },
            cb: if is_cb { st.cb.update(p, true) } else { st.cb },
            fopp: if facing { st.fopp.update(p, true) } else { st.fopp },
            fc: if facing && a.kind == ActKind::Fold { st.fc.update(p, true) } else { st.fc },
            bet_made: st.bet_made || aggr,
            cbet_made,
            stopped: aggr && p != pr && !cbet_made,
        }
    }
}

pub open spec fn cb_upto(acts: Seq<Action>, pr: int, n: nat, k: int) -> CState
    decreases k,
{
    if k <= 0 {
        cb_start(n)
    } else {
        cb_step(cb_upto(acts, pr, n, k - 1), acts[k - 1], pr)
    }
}

/// The continuation-bet state of a hand: nothing when nobody raised preflop.
pub open spec fn cbets(acts: Seq<Action>, pos: Seq<Pos>, n: nat) -> CState {
    match pre_upto(acts, pos, n, acts.len() as int).last_raiser {
        Some(pr) => cb_upto(acts, pr, n, acts.len() as int),
        None => cb_start(n),
    }
}

// ---------------------------------------------------------------- postflop aggression

/// Bets and raises of player `p` after the flop among the first `k` actions.
pub open spec fn post_bets(acts: Seq<Action>, p: int, k: int) -> int
    decreases k,
{
    if k <= 0 {
        0
    } else {
        let a = acts[k - 1];
        post_bets(acts, p, k - 1) + if a.street >= 1 && a.p == p && a.kind.spec_aggressive() { 1int } else { 0 }
    }
}

/// Calls of player `p` after the flop among the first `k` actions.
pub open spec fn post_calls(acts: Seq<Action>, p: int, k: int) -> int
    decreases k,
{
    if k <= 0 {
        0
    } else {
        let a = acts[k - 1];
        post_calls(acts, p, k - 1) + if a.street >= 1 && a.p == p && a.kind == ActKind::Call { 1int } else { 0 }
    }
}

// ---------------------------------------------------------------- one hand

/// What one player did in a hand.
#[derive(Debug, Clone, Copy, PartialEq, Eq, Structural)]
pub struct HandStats {
    /// money put in preflop by choice
    pub vpip: bool,
    /// a preflop bet or raise
    pub pfr: bool,
    /// three-handed, on the button, first to act with no raise before
    pub btn_opp: bool,
    pub btn_limp: bool,
    pub btn_shove: bool,
    pub btn_raise: bool,
    pub threebet_opp: bool,
    pub threebet: bool,
    pub bb_vs_shove_opp: bool,
    pub bb_vs_shove_call: bool,
    /// bets and raises after the flop
    pub post_agg: u32,
    /// calls after the flop
    pub post_calls: u32,
    pub cbet_opp: bool,
    pub cbet: bool,
    pub fcbet_opp: bool,
    pub fcbet: bool,
}

/// First preflop action of a player: kind, all-in, number of raises before it (a fold with
/// no count where there is none).
pub open spec fn first_or(f: Option<(ActKind, bool, int)>) -> (ActKind, bool, int) {
    match f {
        Some(t) => t,
        None => (ActKind::Fold, false, -1),
    }
}

/// What player `i` did in a hand of `n` players with these positions and actions.
pub open spec fn stats_of(acts: Seq<Action>, pos: Seq<Pos>, n: nat, i: int) -> HandStats {
    let pre = pre_upto(acts, pos, n, acts.len() as int);
    let cb = cbets(acts, pos, n);
    let (fk, fa, frb) = first_or(pre.first[i]);
    let btn = n == 3 && pos[i] == Pos::Btn && pre.first[i] is Some && frb == 0;
    HandStats {
        vpip: pre.vpip[i],
        pfr: pre.pfr[i],
        btn_opp: btn,
        btn_limp: btn && fk == ActKind::Call,
        btn_shove: btn && raises(fk) && fa,
        btn_raise: btn && raises(fk) && !fa,
        threebet_opp: pre.opp3[i],
        threebet: pre.did3[i],
        bb_vs_shove_opp: pre.bbs_opp[i],
        bb_vs_shove_call: pre.bbs_call[i],
        post_agg: post_bets(acts, i, acts.len() as int) as u32,
        post_calls: post_calls(acts, i, acts.len() as int) as u32,
        cbet_opp: cb.opp[i],
        cbet: cb.cb[i],
        fcbet_opp: cb.fopp[i],
        fcbet: cb.fc[i],
    }
}

proof fn lemma_pre_lens(acts: Seq<Action>, pos: Seq<Pos>, n: nat, k: int)
    requires
        k <= acts.len(),
        forall|j: int| 0 <= j < acts.len() ==> (#[trigger] acts[j]).p < n,
    ensures
        ({
            let st = pre_upto(acts, pos, n, k);
            &&& st.vpip.len() == n && st.pfr.len() == n && st.opp3.len() == n && st.did3.len() == n
            &&& st.bbs_opp.len() == n && st.bbs_call.len() == n && st.first.len() == n
        }),
    decreases k,
{
    if k > 0 {
        lemma_pre_lens(acts, pos, n, k - 1);
        assert(acts[k - 1].p < n);
    }
}

proof fn lemma_cb_lens(acts: Seq<Action>, pr: int, n: nat, k: int)
    requires
        k <= acts.len(),
        forall|j: int| 0 <= j < acts.len() ==> (#[trigger] acts[j]).p < n,
    ensures
        ({
            let st = cb_upto(acts, pr, n, k);
            st.opp.len() == n && st.cb.len() == n && st.fopp.len() == n && st.fc.len() == n
        }),
    decreases k,
{
    if k > 0 {
        lemma_cb_lens(acts, pr, n, k - 1);
        assert(acts[k - 1].p < n);
    }
}

proof fn lemma_post_bounds(acts: Seq<Action>, p: int, k: int)
    requires
        k >= 0,
    ensures
        0 <= post_bets(acts, p, k) <= k,
        0 <= post_calls(acts, p, k) <= k,
    decreases k,
{
    if k > 0 {
        lemma_post_bounds(acts, p, k - 1);
    }
}

fn falses(n: usize) -> (v: Vec<bool>)
    ensures
        v@ == Seq::new(n as nat, |i: int| false),
{
    let mut v: Vec<bool> = Vec::new();
    let mut i: usize = 0;
    while i < n
        invariant
            i <= n,
            v@ == Seq::new(i as nat, |j: int| false),
        decreases n - i,
    {
        v.push(false);
        assert(v@ =~= Seq::new((i + 1) as nat, |j: int| false));
        i = i + 1;
    }
    v
}

fn zeros(n: usize) -> (v: Vec<u32>)
    ensures
        v@.len() == n,
        forall|i: int| 0 <= i < n ==> v@[i] == 0,
{
    let mut v: Vec<u32> = Vec::new();
    let mut i: usize = 0;
    while i < n
        invariant
            i <= n,
            v@.len() == i,
            forall|j: int| 0 <= j < i ==> v@[j] == 0,
        decreases n - i,
    {
        v.push(0);
        i = i + 1;
    }
    v
}

/// The exact first actions.
spec fn firsts_are(f: Seq<Option<(ActKind, bool, usize)>>, g: Seq<Option<(ActKind, bool, int)>>) -> bool {
    &&& f.len() == g.len()
    &&& forall|i: int|
        0 <= i < f.len() ==> match #[trigger] f[i] {
            Some((k, a, r)) => g[i] == Some((k, a, r as int)),
            None => g[i] is None,
        }
}

/// What each player did in a hand (see `stats_of`): `pos` are the players' positions, every
/// action is by one of the `n` players.
#[verifier::rlimit(60)]
#[verifier::spinoff_prover]
pub fn hand_stats(n: usize, pos: &Vec<Pos>, actions: &Vec<Action>) -> (r: Vec<HandStats>)
    requires
        pos@.len() == n,
        forall|j: int| 0 <= j < actions@.len() ==> (#[trigger] actions@[j]).p < n,
        actions@.len() < u32::MAX,
    ensures
        r@.len() == n,
        forall|i: int| 0 <= i < n ==> #[trigger] r@[i] == stats_of(actions@, pos@, n as nat, i),
{
    let m = actions.len();
    let ghost acts = actions@;
    // preflop
    let mut vpip = falses(n);
    let mut pfr = falses(n);
    let mut opp3 = falses(n);
    let mut did3 = falses(n);
    let mut bbs_opp = falses(n);
    let mut bbs_call = falses(n);
    let mut first: Vec<Option<(ActKind, bool, usize)>> = Vec::new();
    let mut q: usize = 0;
    while q < n
        invariant
            q <= n,
            first@.len() == q,
            forall|j: int| 0 <= j < q ==> first@[j] is None,
        decreases n - q,
    {
        first.push(None);
        q = q + 1;
    }
    let mut nraises: usize = 0;
    let mut last_raiser: Option<usize> = None;
    let mut shove_seen = false;
    let mut k: usize = 0;
    assert(firsts_are(first@, pre_start(n as nat).first));
    while k < m
        invariant
            k <= m == acts.len(),
            acts == actions@,
            pos@.len() == n,
            forall|j: int| 0 <= j < acts.len() ==> (#[trigger] acts[j]).p < n,
            ({
                let st = pre_upto(acts, pos@, n as nat, k as int);
                &&& vpip@ == st.vpip
                &&& pfr@ == st.pfr
                &&& opp3@ == st.opp3
                &&& did3@ == st.did3
                &&& bbs_opp@ == st.bbs_opp
                &&& bbs_call@ == st.bbs_call
                &&& firsts_are(first@, st.first)
                &&& nraises as int == st.raises
                &&& (match last_raiser {
                    Some(x) => st.last_raiser == Some(x as int),
                    None => st.last_raiser is None,
                })
                &&& shove_seen == st.shove_seen
            }),
            vpip@.len() == n,
            nraises <= k,
        decreases m - k,
    {
        let a = actions[k];
        let ghost st = pre_upto(acts, pos@, n as nat, k as int);
        let ghost f0 = first@;
        proof {
            lemma_pre_lens(acts, pos@, n as nat, k as int);
        }
        if a.street == 0 && !a.kind.is_post() {
            let p = a.p as usize;
            let three = nraises == 1 && !opp3[p] && last_raiser != Some(p);
            let vs_shove = pos[p] == Pos::Bb && shove_seen && a.kind != ActKind::Check;
            let r = a.kind == ActKind::Raise || a.kind == ActKind::Bet;
            if a.kind.is_voluntary() {
                vpip.set(p, true);
            }
            if r {
                pfr.set(p, true);
            }
            if three {
                opp3.set(p, true);
                if a.kind == ActKind::Raise {
                    did3.set(p, true);
                }
            }
            if vs_shove {
                bbs_opp.set(p, true);
                if a.kind == ActKind::Call {
                    bbs_call.set(p, true);
                }
            }
            if first[p].is_none() {
                first.set(p, Some((a.kind, a.allin, nraises)));
            }
            if r {
                nraises = nraises + 1;
                last_raiser = Some(p);
                if a.allin {
                    shove_seen = true;
                }
            }
            proof {
                let ns = pre_upto(acts, pos@, n as nat, k + 1);
                assert(ns == pre_step(st, acts[k as int], pos@));
                assert(vpip@ =~= ns.vpip);
                assert(pfr@ =~= ns.pfr);
                assert(opp3@ =~= ns.opp3);
                assert(did3@ =~= ns.did3);
                assert(bbs_opp@ =~= ns.bbs_opp);
                assert(bbs_call@ =~= ns.bbs_call);
                assert forall|i: int| 0 <= i < first@.len() implies match #[trigger] first@[i] {
                    Some((kk, aa, rr)) => ns.first[i] == Some((kk, aa, rr as int)),
                    None => ns.first[i] is None,
                } by {
                    if i != p {
                        assert(first@[i] == f0[i]);
                    }
                }
            }
        }
        k = k + 1;
    }
    let ghost pre = pre_upto(acts, pos@, n as nat, m as int);
    proof {
        lemma_pre_lens(acts, pos@, n as nat, m as int);
    }
    // continuation bets
    let mut opp = falses(n);
    let mut cb = falses(n);
    let mut fopp = falses(n);
    let mut fc = falses(n);
    match last_raiser {
        Some(pr) => {
            let mut bet_made = false;
            let mut cbet_made = false;
            let mut stopped = false;
            let mut k: usize = 0;
            while k < m
                invariant
                    k <= m == acts.len(),
                    acts == actions@,
                    forall|j: int| 0 <= j < acts.len() ==> (#[trigger] acts[j]).p < n,
                    opp@.len() == n,
                    ({
                        let st = cb_upto(acts, pr as int, n as nat, k as int);
                        &&& opp@ == st.opp
                        &&& cb@ == st.cb
                        &&& fopp@ == st.fopp
                        &&& fc@ == st.fc
                        &&& bet_made == st.bet_made
                        &&& cbet_made == st.cbet_made
                        &&& stopped == st.stopped
                    }),
                decreases m - k,
            {
                let a = actions[k];
                let ghost st = cb_upto(acts, pr as int, n as nat, k as int);
                proof {
                    lemma_cb_lens(acts, pr as int, n as nat, k as int);
                }
                if !stopped && a.street == 1 {
                    let p = a.p as usize;
                    let own = !bet_made && p == pr;
                    let is_cb = own && a.kind == ActKind::Bet;
                    if own {
                        opp.set(p, true);
                    }
                    if is_cb {
                        cb.set(p, true);
                        cbet_made = true;
                    }
                    let facing = cbet_made && p != pr && !fopp[p];
                    if facing {
                        fopp.set(p, true);
                        if a.kind == ActKind::Fold {
                            fc.set(p, true);
                        }
                    }
                    let aggr = a.kind.is_aggressive();
                    if aggr {
                        bet_made = true;
                    }
                    stopped = aggr && p != pr && !cbet_made;
                    proof {
                        let ns = cb_upto(acts, pr as int, n as nat, k + 1);
                        assert(ns == cb_step(st, acts[k as int], pr as int));
                        assert(opp@ =~= ns.opp);
                        assert(cb@ =~= ns.cb);
                        assert(fopp@ =~= ns.fopp);
                        assert(fc@ =~= ns.fc);
                    }
                }
                k = k + 1;
            }
        },
        None => {},
    }
    let ghost cbs = cbets(acts, pos@, n as nat);
    proof {
        if let Some(pr) = pre.last_raiser {
            lemma_cb_lens(acts, pr, n as nat, m as int);
        }
    }
    assert(opp@ == cbs.opp && cb@ == cbs.cb && fopp@ == cbs.fopp && fc@ == cbs.fc);
    // postflop aggression
    let mut agg = zeros(n);
    let mut calls = zeros(n);
    let mut k: usize = 0;
    while k < m
        invariant
            k <= m == acts.len() < u32::MAX,
            acts == actions@,
            forall|j: int| 0 <= j < acts.len() ==> (#[trigger] acts[j]).p < n,
            agg@.len() == n,
            calls@.len() == n,
            forall|i: int| 0 <= i < n ==> #[trigger] agg@[i] == post_bets(acts, i, k as int),
            forall|i: int| 0 <= i < n ==> #[trigger] calls@[i] == post_calls(acts, i, k as int),
        decreases m - k,
    {
        let a = actions[k];
        let p = a.p as usize;
        proof {
            lemma_post_bounds(acts, p as int, k as int);
        }
        if a.street >= 1 {
            if a.kind.is_aggressive() {
                let x = agg[p];
                agg.set(p, x + 1);
            } else if a.kind == ActKind::Call {
                let x = calls[p];
                calls.set(p, x + 1);
            }
        }
        proof {
            assert forall|i: int| 0 <= i < n implies #[trigger] agg@[i] == post_bets(acts, i, k + 1) by {
                if i != p {
                    assert(agg@[i] == post_bets(acts, i, k as int));
                }
            }
            assert forall|i: int| 0 <= i < n implies #[trigger] calls@[i] == post_calls(acts, i, k + 1) by {
                if i != p {
                    assert(calls@[i] == post_calls(acts, i, k as int));
                }
            }
        }
        k = k + 1;
    }
    // the players
    let mut out: Vec<HandStats> = Vec::new();
    let mut i: usize = 0;
    while i < n
        invariant
            i <= n,
            pos@.len() == n,
            acts == actions@,
            vpip@ == pre.vpip && pfr@ == pre.pfr && opp3@ == pre.opp3 && did3@ == pre.did3,
            bbs_opp@ == pre.bbs_opp && bbs_call@ == pre.bbs_call,
            firsts_are(first@, pre.first),
            pre == pre_upto(acts, pos@, n as nat, m as int),
            m == acts.len(),
            vpip@.len() == n && pfr@.len() == n && opp3@.len() == n && did3@.len() == n,
            bbs_opp@.len() == n && bbs_call@.len() == n && first@.len() == n,
            opp@ == cbs.opp && cb@ == cbs.cb && fopp@ == cbs.fopp && fc@ == cbs.fc,
            cbs == cbets(acts, pos@, n as nat),
            opp@.len() == n && cb@.len() == n && fopp@.len() == n && fc@.len() == n,
            agg@.len() == n && calls@.len() == n,
            forall|j: int| 0 <= j < n ==> #[trigger] agg@[j] == post_bets(acts, j, m as int),
            forall|j: int| 0 <= j < n ==> #[trigger] calls@[j] == post_calls(acts, j, m as int),
            out@.len() == i,
            forall|j: int| 0 <= j < i ==> #[trigger] out@[j] == stats_of(acts, pos@, n as nat, j),
        decreases n - i,
    {
        let f = first[i];
        assert(f == first@[i as int]);
        let (fk, fa, frb): (ActKind, bool, usize) = match f {
            Some(t) => t,
            None => (ActKind::Fold, false, 1),
        };
        let btn = n == 3 && pos[i] == Pos::Btn && f.is_some() && frb == 0;
        let r = fk == ActKind::Raise || fk == ActKind::Bet;
        let hs = HandStats {
            vpip: vpip[i],
            pfr: pfr[i],
            btn_opp: btn,
            btn_limp: btn && fk == ActKind::Call,
            btn_shove: btn && r && fa,
            btn_raise: btn && r && !fa,
            threebet_opp: opp3[i],
            threebet: did3[i],
            bb_vs_shove_opp: bbs_opp[i],
            bb_vs_shove_call: bbs_call[i],
            post_agg: agg[i],
            post_calls: calls[i],
            cbet_opp: opp[i],
            cbet: cb[i],
            fcbet_opp: fopp[i],
            fcbet: fc[i],
        };
        assert(hs == stats_of(acts, pos@, n as nat, i as int));
        out.push(hs);
        i = i + 1;
    }
    out
}

// ---------------------------------------------------------------- over the hands

/// Counters of a player summed over hands (the chip and EV sums, kept as floating-point
/// numbers, and the tournaments are counted by the caller).
#[derive(Debug, Clone, Copy, PartialEq, Eq, Structural)]
pub struct PStats {
    pub hands: u32,
    pub vpip: u32,
    pub pfr: u32,
    pub btn_opp: u32,
    pub btn_limp: u32,
    pub btn_shove: u32,
    pub btn_raise: u32,
    pub threebet_opp: u32,
    pub threebet: u32,
    pub bb_vs_shove_opp: u32,
    pub bb_vs_shove_call: u32,
    pub post_agg: u32,
    pub post_calls: u32,
    pub saw_flop: u32,
    pub wtsd: u32,
    pub wsd: u32,
    pub cbet_opp: u32,
    pub cbet: u32,
    pub fcbet_opp: u32,
    pub fcbet: u32,
    /// hands played against the hero (not as the hero)
    pub vs_hero_hands: u32,
    /// time of the last hand seen
    pub last_ts: i64,
    /// time of the first hand seen (0 before any)
    pub first_ts: i64,
}

pub open spec fn inc(x: u32, b: bool) -> u32 {
    if b { (x + 1) as u32 } else { x }
}

/// The counters after one more hand: what the player did (`f`), the flop seen, a showdown
/// in the hand, the player folded, the player won chips, the time of the hand, the player
/// is the hero. Each counter of a chance counts what was done with it only when it came.
pub open spec fn added(
    st: PStats,
    f: HandStats,
    saw_flop: bool,
    showdown: bool,
    folded: bool,
    won: bool,
    ts: i64,
    is_hero: bool,
) -> PStats {
    let sd = saw_flop && showdown && !folded;
    PStats {
        hands: inc(st.hands, true),
        vpip: inc(st.vpip, f.vpip),
        pfr: inc(st.pfr, f.pfr),
        btn_opp: inc(st.btn_opp, f.btn_opp),
        btn_limp: inc(st.btn_limp, f.btn_opp && f.btn_limp),
        btn_shove: inc(st.btn_shove, f.btn_opp && f.btn_shove),
        btn_raise: inc(st.btn_raise, f.btn_opp && f.btn_raise),
        threebet_opp: inc(st.threebet_opp, f.threebet_opp),
        threebet: inc(st.threebet, f.threebet_opp && f.threebet),
        bb_vs_shove_opp: inc(st.bb_vs_shove_opp, f.bb_vs_shove_opp),
        bb_vs_shove_call: inc(st.bb_vs_shove_call, f.bb_vs_shove_opp && f.bb_vs_shove_call),
        post_agg: (st.post_agg + f.post_agg) as u32,
        post_calls: (st.post_calls + f.post_calls) as u32,
        saw_flop: inc(st.saw_flop, saw_flop),
        wtsd: inc(st.wtsd, sd),
        wsd: inc(st.wsd, sd && won),
        cbet_opp: inc(st.cbet_opp, f.cbet_opp),
        cbet: inc(st.cbet, f.cbet_opp && f.cbet),
        fcbet_opp: inc(st.fcbet_opp, f.fcbet_opp),
        fcbet: inc(st.fcbet, f.fcbet_opp && f.fcbet),
        vs_hero_hands: inc(st.vs_hero_hands, !is_hero),
        last_ts: if ts > st.last_ts { ts } else { st.last_ts },
        first_ts: if st.first_ts == 0 || ts < st.first_ts { ts } else { st.first_ts },
    }
}

/// No counter can pass `u32::MAX` with one more hand.
pub open spec fn has_room(st: PStats, f: HandStats) -> bool {
    &&& st.hands < u32::MAX && st.vpip < u32::MAX && st.pfr < u32::MAX
    &&& st.btn_opp < u32::MAX && st.btn_limp < u32::MAX && st.btn_shove < u32::MAX && st.btn_raise < u32::MAX
    &&& st.threebet_opp < u32::MAX && st.threebet < u32::MAX
    &&& st.bb_vs_shove_opp < u32::MAX && st.bb_vs_shove_call < u32::MAX
    &&& st.post_agg + f.post_agg <= u32::MAX && st.post_calls + f.post_calls <= u32::MAX
    &&& st.saw_flop < u32::MAX && st.wtsd < u32::MAX && st.wsd < u32::MAX
    &&& st.cbet_opp < u32::MAX && st.cbet < u32::MAX && st.fcbet_opp < u32::MAX && st.fcbet < u32::MAX
    &&& st.vs_hero_hands < u32::MAX
}

impl PStats {
    /// All counters at zero.
    pub fn new() -> (r: PStats)
        ensures
            r == (PStats {
                hands: 0,
                vpip: 0,
                pfr: 0,
                btn_opp: 0,
                btn_limp: 0,
                btn_shove: 0,
                btn_raise: 0,
                threebet_opp: 0,
                threebet: 0,
                bb_vs_shove_opp: 0,
                bb_vs_shove_call: 0,
                post_agg: 0,
                post_calls: 0,
                saw_flop: 0,
                wtsd: 0,
                wsd: 0,
                cbet_opp: 0,
                cbet: 0,
                fcbet_opp: 0,
                fcbet: 0,
                vs_hero_hands: 0,
                last_ts: 0,
                first_ts: 0,
            }),
    {
        PStats {
            hands: 0,
            vpip: 0,
            pfr: 0,
            btn_opp: 0,
            btn_limp: 0,
            btn_shove: 0,
            btn_raise: 0,
            threebet_opp: 0,
            threebet: 0,
            bb_vs_shove_opp: 0,
            bb_vs_shove_call: 0,
            post_agg: 0,
            post_calls: 0,
            saw_flop: 0,
            wtsd: 0,
            wsd: 0,
            cbet_opp: 0,
            cbet: 0,
            fcbet_opp: 0,
            fcbet: 0,
            vs_hero_hands: 0,
            last_ts: 0,
            first_ts: 0,
        }
    }

    /// Whether one more hand fits the counters (see `has_room`).
    pub fn room_for(&self, f: &HandStats) -> (r: bool)
        ensures
            r == has_room(*self, *f),
    {
        let m = u32::MAX;
        self.hands < m && self.vpip < m && self.pfr < m && self.btn_opp < m && self.btn_limp < m
            && self.btn_shove < m && self.btn_raise < m && self.threebet_opp < m && self.threebet < m
            && self.bb_vs_shove_opp < m && self.bb_vs_shove_call < m && self.post_agg <= m - f.post_agg
            && self.post_calls <= m - f.post_calls && self.saw_flop < m && self.wtsd < m && self.wsd < m
            && self.cbet_opp < m && self.cbet < m && self.fcbet_opp < m && self.fcbet < m && self.vs_hero_hands < m
    }

    /// Counts one more hand of the player (see `added`).
    #[verifier::spinoff_prover]
    #[verifier::rlimit(50)]
    pub fn add_hand(
        &mut self,
        f: &HandStats,
        saw_flop: bool,
        showdown: bool,
        folded: bool,
        won: bool,
        ts: i64,
        is_hero: bool,
    )
        requires
            has_room(*old(self), *f),
        ensures
            *final(self) == added(*old(self), *f, saw_flop, showdown, folded, won, ts, is_hero),
    {
        let sd = saw_flop && showdown && !folded;
        let st = *self;
        *self = PStats {
            hands: st.hands + 1,
            vpip: if f.vpip { st.vpip + 1 } else { st.vpip },
            pfr: if f.pfr { st.pfr + 1 } else { st.pfr },
            btn_opp: if f.btn_opp { st.btn_opp + 1 } else { st.btn_opp },
            btn_limp: if f.btn_opp && f.btn_limp { st.btn_limp + 1 } else { st.btn_limp },
            btn_shove: if f.btn_opp && f.btn_shove { st.btn_shove + 1 } else { st.btn_shove },
            btn_raise: if f.btn_opp && f.btn_raise { st.btn_raise + 1 } else { st.btn_raise },
            threebet_opp: if f.threebet_opp { st.threebet_opp + 1 } else { st.threebet_opp },
            threebet: if f.threebet_opp && f.threebet { st.threebet + 1 } else { st.threebet },
            bb_vs_shove_opp: if f.bb_vs_shove_opp { st.bb_vs_shove_opp + 1 } else { st.bb_vs_shove_opp },
            bb_vs_shove_call: if f.bb_vs_shove_opp && f.bb_vs_shove_call {
                st.bb_vs_shove_call + 1
            } else {
                st.bb_vs_shove_call
            },
            post_agg: st.post_agg + f.post_agg,
            post_calls: st.post_calls + f.post_calls,
            saw_flop: if saw_flop { st.saw_flop + 1 } else { st.saw_flop },
            wtsd: if sd { st.wtsd + 1 } else { st.wtsd },
            wsd: if sd && won { st.wsd + 1 } else { st.wsd },
            cbet_opp: if f.cbet_opp { st.cbet_opp + 1 } else { st.cbet_opp },
            cbet: if f.cbet_opp && f.cbet { st.cbet + 1 } else { st.cbet },
            fcbet_opp: if f.fcbet_opp { st.fcbet_opp + 1 } else { st.fcbet_opp },
            fcbet: if f.fcbet_opp && f.fcbet { st.fcbet + 1 } else { st.fcbet },
            vs_hero_hands: if !is_hero { st.vs_hero_hands + 1 } else { st.vs_hero_hands },
            last_ts: if ts > st.last_ts { ts } else { st.last_ts },
            first_ts: if st.first_ts == 0 || ts < st.first_ts { ts } else { st.first_ts },
        };
    }
}

// ---------------------------------------------------------------- the players by name

/// All counters at zero: a player not met yet.
pub open spec fn zero_stats() -> PStats {
    PStats {
        hands: 0,
        vpip: 0,
        pfr: 0,
        btn_opp: 0,
        btn_limp: 0,
        btn_shove: 0,
        btn_raise: 0,
        threebet_opp: 0,
        threebet: 0,
        bb_vs_shove_opp: 0,
        bb_vs_shove_call: 0,
        post_agg: 0,
        post_calls: 0,
        saw_flop: 0,
        wtsd: 0,
        wsd: 0,
        cbet_opp: 0,
        cbet: 0,
        fcbet_opp: 0,
        fcbet: 0,
        vs_hero_hands: 0,
        last_ts: 0,
        first_ts: 0,
    }
}

/// The counters of each player met, by name, with the tournaments each one was seen in.
pub struct PlayerTable {
    pub names: Vec<String>,
    pub stats: Vec<PStats>,
    pub tours: Vec<Vec<u64>>,
}

pub open spec fn name_views(v: Seq<String>) -> Seq<Seq<char>> {
    Seq::new(v.len(), |i: int| v[i]@)
}

/// Index of the first entry from the `i`-th on that is `n`.
pub open spec fn find_name(ns: Seq<Seq<char>>, n: Seq<char>, i: int) -> Option<int>
    decreases ns.len() - i,
{
    if i < 0 || i >= ns.len() {
        None
    } else if ns[i] == n {
        Some(i)
    } else {
        find_name(ns, n, i + 1)
    }
}

proof fn lemma_find_name(ns: Seq<Seq<char>>, n: Seq<char>, i: int)
    requires
        0 <= i <= ns.len(),
    ensures
        match find_name(ns, n, i) {
            Some(k) => i <= k < ns.len() && ns[k] == n,
            None => forall|j: int| i <= j < ns.len() ==> ns[j] != n,
        },
    decreases ns.len() - i,
{
    if i < ns.len() && ns[i] != n {
        lemma_find_name(ns, n, i + 1);
    }
}

proof fn lemma_find_name_push(ns: Seq<Seq<char>>, x: Seq<char>, n: Seq<char>, i: int)
    requires
        0 <= i <= ns.len(),
    ensures
        find_name(ns.push(x), n, i) == (match find_name(ns, n, i) {
            Some(k) => Some(k),
            None => if n == x { Some(ns.len() as int) } else { None },
        }),
    decreases ns.len() - i,
{
    if i < ns.len() {
        assert(ns.push(x)[i] == ns[i]);
        if ns[i] != n {
            lemma_find_name_push(ns, x, n, i + 1);
        }
    } else {
        assert(ns.push(x)[i] == x);
        assert(find_name(ns.push(x), n, i + 1) is None);
    }
}

impl PlayerTable {
    /// One entry per name, and each tournament once in an entry.
    pub open spec fn wf(&self) -> bool {
        &&& self.names@.len() == self.stats@.len() == self.tours@.len()
        &&& name_views(self.names@).no_duplicates()
        &&& forall|i: int| 0 <= i < self.tours@.len() ==> (#[trigger] self.tours@[i])@.no_duplicates()
    }

    /// Whether the player was met.
    pub open spec fn has(&self, n: Seq<char>) -> bool {
        find_name(name_views(self.names@), n, 0) is Some
    }

    /// The counters of a player (zero when not met).
    pub open spec fn stats_of(&self, n: Seq<char>) -> PStats {
        match find_name(name_views(self.names@), n, 0) {
            Some(i) => self.stats@[i],
            None => zero_stats(),
        }
    }

    /// The tournaments a player was seen in (none when not met).
    pub open spec fn tours_of(&self, n: Seq<char>) -> Set<u64> {
        match find_name(name_views(self.names@), n, 0) {
            Some(i) => self.tours@[i]@.to_set(),
            None => Set::empty(),
        }
    }

    /// No player met.
    pub fn new() -> (r: PlayerTable)
        ensures
            r.wf(),
            forall|n: Seq<char>| !r.has(n),
    {
        PlayerTable { names: Vec::new(), stats: Vec::new(), tours: Vec::new() }
    }

    /// Index of a player (see `has`).
    fn index_of(&self, name: &String) -> (r: Option<usize>)
        requires
            self.wf(),
        ensures
            match r {
                Some(i) => find_name(name_views(self.names@), name@, 0) == Some(i as int) && i < self.names@.len(),
                None => find_name(name_views(self.names@), name@, 0) is None,
            },
    {
        let ghost ns = name_views(self.names@);
        let mut i: usize = 0;
        while i < self.names.len()
            invariant
                i <= self.names@.len(),
                ns == name_views(self.names@),
                find_name(ns, name@, 0) == find_name(ns, name@, i as int),
            decreases self.names@.len() - i,
        {
            if self.names[i] == *name {
                return Some(i);
            }
            i = i + 1;
        }
        None
    }

    /// The counters of a player (see `stats_of`).
    pub fn lookup(&self, name: &String) -> (r: PStats)
        requires
            self.wf(),
        ensures
            r == self.stats_of(name@),
    {
        match self.index_of(name) {
            Some(i) => self.stats[i],
            None => PStats::new(),
        }
    }

    /// Number of tournaments a player was seen in.
    pub fn tournaments(&self, name: &String) -> (r: usize)
        requires
            self.wf(),
        ensures
            r == self.tours_of(name@).len(),
    {
        match self.index_of(name) {
            Some(i) => {
                proof {
                    self.tours@[i as int]@.unique_seq_to_set();
                }
                self.tours[i].len()
            },
            None => 0,
        }
    }

    /// Counts one more hand of a player seen in tournament `t` (see `added`); a player met
    /// for the first time starts from zero.
    pub fn add_seat(
        &mut self,
        name: &String,
        t: u64,
        f: &HandStats,
        saw_flop: bool,
        showdown: bool,
        folded: bool,
        won: bool,
        ts: i64,
        is_hero: bool,
    )
        requires
            old(self).wf(),
            has_room(old(self).stats_of(name@), *f),
        ensures
            final(self).wf(),
            table_added(*old(self), *final(self), name@, t, *f, saw_flop, showdown, folded, won, ts, is_hero),
    {
        let ghost ns = name_views(self.names@);
        let ghost before = *self;
        match self.index_of(name) {
            Some(i) => {
                proof {
                    lemma_find_name(ns, name@, 0);
                }
                let mut st = self.stats[i];
                st.add_hand(f, saw_flop, showdown, folded, won, ts, is_hero);
                self.stats.set(i, st);
                let mut seen = false;
                let mut k: usize = 0;
                while k < self.tours[i].len()
                    invariant
                        i < self.tours@.len(),
                        k <= self.tours@[i as int]@.len(),
                        seen == exists|j: int| 0 <= j < k && self.tours@[i as int]@[j] == t,
                    decreases self.tours@[i as int]@.len() - k,
                {
                    if self.tours[i][k] == t {
                        seen = true;
                    }
                    k = k + 1;
                }
                let ghost old_tours = self.tours@[i as int]@;
                if !seen {
                    let mut ti = self.tours[i].clone();
                    ti.push(t);
                    self.tours.set(i, ti);
                    proof {
                        old_tours.lemma_push_to_set_commute(t);
                    }
                } else {
                    proof {
                        let j = choose|j: int| 0 <= j < old_tours.len() && old_tours[j] == t;
                        assert(old_tours.to_set().contains(t));
                        assert(old_tours.to_set().insert(t) =~= old_tours.to_set());
                    }
                }
                proof {
                    assert(name_views(self.names@) == ns);
                    assert forall|m: Seq<char>| m != name@ implies self.stats_of(m) == before.stats_of(m)
                        && self.tours_of(m) == before.tours_of(m) by {
                        lemma_find_name(ns, m, 0);
                    }
                }
            },
            None => {
                proof {
                    lemma_find_name(ns, name@, 0);
                }
                let mut st = PStats::new();
                st.add_hand(f, saw_flop, showdown, folded, won, ts, is_hero);
                self.names.push(name.clone());
                self.stats.push(st);
                let mut ti: Vec<u64> = Vec::new();
                ti.push(t);
                self.tours.push(ti);
                proof {
                    assert(name_views(self.names@) =~= ns.push(name@));
                    lemma_find_name_push(ns, name@, name@, 0);
                    assert(ti@.to_set() =~= Set::<u64>::empty().insert(t)) by {
                        assert(ti@[0] == t);
                    }
                    assert forall|m: Seq<char>| m != name@ implies self.stats_of(m) == before.stats_of(m)
                        && self.tours_of(m) == before.tours_of(m) && self.has(m) == before.has(m) by {
                        lemma_find_name_push(ns, name@, m, 0);
                        lemma_find_name(ns, m, 0);
                    }
                }
            },
        }
    }
}

/// `b` is `a` with one more hand of player `name`, seen in tournament `t`: that player's
/// counters are `added` to (from zero for a new player) and `t` is among its tournaments;
/// every other player is as it was.
pub open spec fn table_added(
    a: PlayerTable,
    b: PlayerTable,
    name: Seq<char>,
    t: u64,
    f: HandStats,
    saw_flop: bool,
    showdown: bool,
    folded: bool,
    won: bool,
    ts: i64,
    is_hero: bool,
) -> bool {
    &&& b.has(name)
    &&& b.stats_of(name) == added(a.stats_of(name), f, saw_flop, showdown, folded, won, ts, is_hero)
    &&& b.tours_of(name) == a.tours_of(name).insert(t)
    &&& forall|m: Seq<char>| m != name ==> b.has(m) == a.has(m) && b.stats_of(m) == a.stats_of(m) && b.tours_of(m)
        == a.tours_of(m)
}

/// The table as a map from names to counters and tournaments.
pub open spec fn table_view(tb: PlayerTable) -> Map<Seq<char>, (PStats, Set<u64>)> {
    Map::new(|n: Seq<char>| tb.has(n), |n: Seq<char>| (tb.stats_of(n), tb.tours_of(n)))
}

/// The counters of a player in a map (zero when absent).
pub open spec fn stats_in(m: Map<Seq<char>, (PStats, Set<u64>)>, n: Seq<char>) -> PStats {
    if m.contains_key(n) { m[n].0 } else { zero_stats() }
}

/// The tournaments of a player in a map (none when absent).
pub open spec fn tours_in(m: Map<Seq<char>, (PStats, Set<u64>)>, n: Seq<char>) -> Set<u64> {
    if m.contains_key(n) { m[n].1 } else { Set::empty() }
}

/// One more hand of player `name` in tournament `t` (see `added`).
pub open spec fn map_added(
    m: Map<Seq<char>, (PStats, Set<u64>)>,
    name: Seq<char>,
    t: u64,
    f: HandStats,
    saw_flop: bool,
    showdown: bool,
    folded: bool,
    won: bool,
    ts: i64,
    is_hero: bool,
) -> Map<Seq<char>, (PStats, Set<u64>)> {
    m.insert(name, (added(stats_in(m, name), f, saw_flop, showdown, folded, won, ts, is_hero), tours_in(m, name).insert(t)))
}

proof fn lemma_table_view_added(
    a: PlayerTable,
    b: PlayerTable,
    name: Seq<char>,
    t: u64,
    f: HandStats,
    saw_flop: bool,
    showdown: bool,
    folded: bool,
    won: bool,
    ts: i64,
    is_hero: bool,
)
    requires
        table_added(a, b, name, t, f, saw_flop, showdown, folded, won, ts, is_hero),
    ensures
        table_view(b) == map_added(table_view(a), name, t, f, saw_flop, showdown, folded, won, ts, is_hero),
{
    let ma = table_view(a);
    assert(stats_in(ma, name) == a.stats_of(name));
    assert(tours_in(ma, name) == a.tours_of(name));
    assert(table_view(b) =~= map_added(ma, name, t, f, saw_flop, showdown, folded, won, ts, is_hero));
}

/// A seat of a hand: the player's name, what the player did (see `hand_stats`), whether
/// the player saw the flop, folded, won chips.
pub struct SeatRow {
    pub name: String,
    pub stats: HandStats,
    pub saw_flop: bool,
    pub folded: bool,
    pub won: bool,
}

/// The first `k` seats of a hand counted in turn (the seat at index `hero` is the hero's).
pub open spec fn seats_added(
    m: Map<Seq<char>, (PStats, Set<u64>)>,
    rows: Seq<SeatRow>,
    showdown: bool,
    ts: i64,
    hero: int,
    t: u64,
    k: int,
) -> Map<Seq<char>, (PStats, Set<u64>)>
    decreases k,
{
    if k <= 0 {
        m
    } else {
        let r = rows[k - 1];
        map_added(
            seats_added(m, rows, showdown, ts, hero, t, k - 1),
            r.name@,
            t,
            r.stats,
            r.saw_flop,
            showdown,
            r.folded,
            r.won,
            ts,
            k - 1 == hero,
        )
    }
}

/// Each of the first `k` seats had room in the counters when it was counted.
pub open spec fn rows_had_room(
    m: Map<Seq<char>, (PStats, Set<u64>)>,
    rows: Seq<SeatRow>,
    showdown: bool,
    ts: i64,
    hero: int,
    t: u64,
    k: int,
) -> bool {
    forall|j: int|
        0 <= j < k ==> has_room(
            stats_in(#[trigger] seats_added(m, rows, showdown, ts, hero, t, j), rows[j].name@),
            rows[j].stats,
        )
}

/// Every player of the map has counters that hold together.
pub open spec fn map_consistent(m: Map<Seq<char>, (PStats, Set<u64>)>) -> bool {
    forall|n: Seq<char>| m.contains_key(n) ==> consistent(#[trigger] m[n].0)
}

impl PlayerTable {
    /// Counts a hand of tournament `t`: each seat in turn, while the counters have room;
    /// returns how many seats were counted (all of them unless a counter would pass
    /// `u32::MAX`).
    pub fn add_hand_rows(&mut self, rows: &Vec<SeatRow>, showdown: bool, ts: i64, hero: usize, t: u64) -> (k: usize)
        requires
            old(self).wf(),
        ensures
            final(self).wf(),
            k <= rows@.len(),
            table_view(*final(self)) == seats_added(table_view(*old(self)), rows@, showdown, ts, hero as int, t, k as int),
            k < rows@.len() ==> !has_room(
                stats_in(seats_added(table_view(*old(self)), rows@, showdown, ts, hero as int, t, k as int), rows@[k as int].name@),
                rows@[k as int].stats,
            ),
            rows_had_room(table_view(*old(self)), rows@, showdown, ts, hero as int, t, k as int),
    {
        let ghost m0 = table_view(*self);
        let mut i: usize = 0;
        while i < rows.len()
            invariant
                i <= rows@.len(),
                self.wf(),
                m0 == table_view(*old(self)),
                table_view(*self) == seats_added(m0, rows@, showdown, ts, hero as int, t, i as int),
                rows_had_room(m0, rows@, showdown, ts, hero as int, t, i as int),
            decreases rows@.len() - i,
        {
            let r = &rows[i];
            let st = self.lookup(&r.name);
            proof {
                assert(stats_in(table_view(*self), r.name@) == self.stats_of(r.name@));
            }
            if !st.room_for(&r.stats) {
                return i;
            }
            let ghost before = *self;
            self.add_seat(&r.name, t, &r.stats, r.saw_flop, showdown, r.folded, r.won, ts, i == hero);
            proof {
                lemma_table_view_added(before, *self, r.name@, t, r.stats, r.saw_flop, showdown, r.folded, r.won, ts, i == hero);
            }
            i = i + 1;
        }
        i
    }
}

/// The seats of one hand of the store, as the player table counts them: the hand's rows,
/// whether it went to showdown, its time, the hero's seat and its tournament.
pub struct HandRows {
    pub rows: Vec<SeatRow>,
    pub showdown: bool,
    pub ts: i64,
    pub hero: usize,
    pub t: u64,
}

/// The first `k` hands counted in turn, each with all its seats.
pub open spec fn hands_added(m: Map<Seq<char>, (PStats, Set<u64>)>, hs: Seq<HandRows>, k: int) -> Map<
    Seq<char>,
    (PStats, Set<u64>),
>
    decreases k,
{
    if k <= 0 {
        m
    } else {
        let h = hs[k - 1];
        seats_added(hands_added(m, hs, k - 1), h.rows@, h.showdown, h.ts, h.hero as int, h.t, h.rows@.len() as int)
    }
}

/// Each seat of the first `k` hands had room in the counters when it was counted.
pub open spec fn hands_had_room(m: Map<Seq<char>, (PStats, Set<u64>)>, hs: Seq<HandRows>, k: int) -> bool {
    forall|j: int|
        0 <= j < k ==> rows_had_room(
            #[trigger] hands_added(m, hs, j),
            hs[j].rows@,
            hs[j].showdown,
            hs[j].ts,
            hs[j].hero as int,
            hs[j].t,
            hs[j].rows@.len() as int,
        )
}

impl PlayerTable {
    /// Counts the hands of the store in turn. Returns how many hands were counted with all
    /// their seats and, when one could not be, how many of its seats were: the counting stops
    /// at the first seat whose counters would pass `u32::MAX`.
    pub fn add_hands(&mut self, hs: &Vec<HandRows>) -> (r: (usize, usize))
        requires
            old(self).wf(),
        ensures
            final(self).wf(),
            r.0 <= hs@.len(),
            hands_had_room(table_view(*old(self)), hs@, r.0 as int),
            r.0 == hs@.len() ==> r.1 == 0 && table_view(*final(self)) == hands_added(table_view(*old(self)), hs@, hs@.len() as int),
            r.0 < hs@.len() ==> {
                let h = hs@[r.0 as int];
                let m = hands_added(table_view(*old(self)), hs@, r.0 as int);
                &&& r.1 < h.rows@.len()
                &&& table_view(*final(self)) == seats_added(m, h.rows@, h.showdown, h.ts, h.hero as int, h.t, r.1 as int)
                &&& !has_room(
                    stats_in(seats_added(m, h.rows@, h.showdown, h.ts, h.hero as int, h.t, r.1 as int), h.rows@[r.1 as int].name@),
                    h.rows@[r.1 as int].stats,
                )
            },
    {
        let ghost m0 = table_view(*self);
        let mut i: usize = 0;
        while i < hs.len()
            invariant
                i <= hs@.len(),
                self.wf(),
                m0 == table_view(*old(self)),
                table_view(*self) == hands_added(m0, hs@, i as int),
                hands_had_room(m0, hs@, i as int),
            decreases hs@.len() - i,
        {
            let h = &hs[i];
            let k = self.add_hand_rows(&h.rows, h.showdown, h.ts, h.hero, h.t);
            if k < h.rows.len() {
                return (i, k);
            }
            proof {
                assert(hands_added(m0, hs@, i as int + 1) == seats_added(hands_added(m0, hs@, i as int), h.rows@, h.showdown, h.ts, h.hero as int, h.t, h.rows@.len() as int));
            }
            i = i + 1;
        }
        (i, 0)
    }
}

/// Every player of the table has counters that hold together.
pub open spec fn table_consistent(tb: PlayerTable) -> bool {
    forall|m: Seq<char>| tb.has(m) ==> consistent(#[trigger] tb.stats_of(m))
}

// ---------------------------------------------------------------- laws

/// What a player did in a hand holds together: a raise is money put in by choice, what was
/// done with a chance comes with the chance, and a button open is one of a limp, a shove
/// or a raise.
pub open spec fn hand_valid(f: HandStats) -> bool {
    &&& f.pfr ==> f.vpip
    &&& f.threebet ==> f.threebet_opp
    &&& f.bb_vs_shove_call ==> f.bb_vs_shove_opp
    &&& f.cbet ==> f.cbet_opp
    &&& f.fcbet ==> f.fcbet_opp
    &&& (f.btn_limp || f.btn_shove || f.btn_raise) ==> f.btn_opp
    &&& !(f.btn_limp && f.btn_shove) && !(f.btn_limp && f.btn_raise) && !(f.btn_shove && f.btn_raise)
}

/// The counters hold together: no stat above 100 %.
pub open spec fn consistent(st: PStats) -> bool {
    &&& st.pfr <= st.vpip <= st.hands
    &&& st.threebet <= st.threebet_opp <= st.hands
    &&& st.bb_vs_shove_call <= st.bb_vs_shove_opp <= st.hands
    &&& st.btn_limp + st.btn_shove + st.btn_raise <= st.btn_opp <= st.hands
    &&& st.wsd <= st.wtsd <= st.saw_flop <= st.hands
    &&& st.cbet <= st.cbet_opp <= st.hands
    &&& st.fcbet <= st.fcbet_opp <= st.hands
    &&& st.vs_hero_hands <= st.hands
}

proof fn lemma_pre_valid(acts: Seq<Action>, pos: Seq<Pos>, n: nat, k: int)
    requires
        k <= acts.len(),
        forall|j: int| 0 <= j < acts.len() ==> (#[trigger] acts[j]).p < n,
    ensures
        ({
            let st = pre_upto(acts, pos, n, k);
            forall|i: int|
                0 <= i < n ==> (st.pfr[i] ==> st.vpip[i]) && (st.did3[i] ==> st.opp3[i]) && (st.bbs_call[i]
                    ==> st.bbs_opp[i])
        }),
    decreases k,
{
    lemma_pre_lens(acts, pos, n, k);
    if k > 0 {
        lemma_pre_valid(acts, pos, n, k - 1);
        lemma_pre_lens(acts, pos, n, k - 1);
        assert(acts[k - 1].p < n);
    }
}

proof fn lemma_cb_valid(acts: Seq<Action>, pr: int, n: nat, k: int)
    requires
        k <= acts.len(),
        forall|j: int| 0 <= j < acts.len() ==> (#[trigger] acts[j]).p < n,
    ensures
        ({
            let st = cb_upto(acts, pr, n, k);
            forall|i: int| 0 <= i < n ==> (st.cb[i] ==> st.opp[i]) && (st.fc[i] ==> st.fopp[i])
        }),
    decreases k,
{
    lemma_cb_lens(acts, pr, n, k);
    if k > 0 {
        lemma_cb_valid(acts, pr, n, k - 1);
        lemma_cb_lens(acts, pr, n, k - 1);
        assert(acts[k - 1].p < n);
    }
}

/// Law: what `hand_stats` says of a player holds together (see `hand_valid`).
pub proof fn lemma_hand_stats_valid(acts: Seq<Action>, pos: Seq<Pos>, n: nat, i: int)
    requires
        0 <= i < n,
        forall|j: int| 0 <= j < acts.len() ==> (#[trigger] acts[j]).p < n,
    ensures
        hand_valid(stats_of(acts, pos, n, i)),
{
    lemma_pre_valid(acts, pos, n, acts.len() as int);
    let pre = pre_upto(acts, pos, n, acts.len() as int);
    match pre.last_raiser {
        Some(pr) => lemma_cb_valid(acts, pr, n, acts.len() as int),
        None => {},
    }
}

/// Law: counting a hand that holds together keeps the counters together, so that every
/// rate stays between 0 and 100 %.
pub proof fn lemma_add_hand_consistent(
    st: PStats,
    f: HandStats,
    saw_flop: bool,
    showdown: bool,
    folded: bool,
    won: bool,
    ts: i64,
    is_hero: bool,
)
    requires
        consistent(st),
        hand_valid(f),
        has_room(st, f),
    ensures
        consistent(added(st, f, saw_flop, showdown, folded, won, ts, is_hero)),
{
}

/// Law: counting a hand that holds together for one player keeps every player's counters
/// together.
pub proof fn lemma_table_consistent(
    a: PlayerTable,
    b: PlayerTable,
    name: Seq<char>,
    t: u64,
    f: HandStats,
    saw_flop: bool,
    showdown: bool,
    folded: bool,
    won: bool,
    ts: i64,
    is_hero: bool,
)
    requires
        table_consistent(a),
        hand_valid(f),
        has_room(a.stats_of(name), f),
        table_added(a, b, name, t, f, saw_flop, showdown, folded, won, ts, is_hero),
    ensures
        table_consistent(b),
{
    assert(consistent(a.stats_of(name))) by {
        if a.has(name) {
            assert(consistent(a.stats_of(name)));
        }
    }
    lemma_add_hand_consistent(a.stats_of(name), f, saw_flop, showdown, folded, won, ts, is_hero);
    assert forall|m: Seq<char>| b.has(m) implies consistent(#[trigger] b.stats_of(m)) by {
        if m != name {
            assert(a.has(m));
            assert(consistent(a.stats_of(m)));
        }
    }
}

/// Law: counting the seats of hands that hold together, each while its counters have room,
/// keeps every player's counters together.
pub proof fn lemma_rows_consistent(
    m: Map<Seq<char>, (PStats, Set<u64>)>,
    rows: Seq<SeatRow>,
    showdown: bool,
    ts: i64,
    hero: int,
    t: u64,
    k: int,
)
    requires
        map_consistent(m),
        0 <= k <= rows.len(),
        forall|j: int| 0 <= j < k ==> hand_valid(#[trigger] rows[j].stats),
        rows_had_room(m, rows, showdown, ts, hero, t, k),
    ensures
        map_consistent(seats_added(m, rows, showdown, ts, hero, t, k)),
    decreases k,
{
    if k > 0 {
        let prev = seats_added(m, rows, showdown, ts, hero, t, k - 1);
        assert(rows_had_room(m, rows, showdown, ts, hero, t, k - 1));
        lemma_rows_consistent(m, rows, showdown, ts, hero, t, k - 1);
        let r = rows[k - 1];
        assert(hand_valid(rows[k - 1].stats));
        assert(has_room(stats_in(prev, r.name@), r.stats));
        assert(consistent(stats_in(prev, r.name@))) by {
            if prev.contains_key(r.name@) {
                assert(consistent(prev[r.name@].0));
            }
        }
        lemma_add_hand_consistent(stats_in(prev, r.name@), r.stats, r.saw_flop, showdown, r.folded, r.won, ts, k - 1 == hero);
    }
}

/// Counting whole hands of valid rows, each seat with room in its counters, keeps every
/// player's counters consistent over the store.
pub proof fn lemma_hands_consistent(m: Map<Seq<char>, (PStats, Set<u64>)>, hs: Seq<HandRows>, k: int)
    requires
        map_consistent(m),
        0 <= k <= hs.len(),
        forall|j: int, q: int|
            0 <= j < k && 0 <= q < hs[j].rows@.len() ==> hand_valid(#[trigger] hs[j].rows@[q].stats),
        hands_had_room(m, hs, k),
    ensures
        map_consistent(hands_added(m, hs, k)),
    decreases k,
{
    if k > 0 {
        lemma_hands_consistent(m, hs, k - 1);
        let h = hs[k - 1];
        let prev = hands_added(m, hs, k - 1);
        assert(rows_had_room(prev, h.rows@, h.showdown, h.ts, h.hero as int, h.t, h.rows@.len() as int));
        assert forall|q: int| 0 <= q < h.rows@.len() implies hand_valid(#[trigger] h.rows@[q].stats) by {
            assert(hand_valid(hs[k - 1].rows@[q].stats));
        }
        lemma_rows_consistent(prev, h.rows@, h.showdown, h.ts, h.hero as int, h.t, h.rows@.len() as int);
    }
}

} // verus!
