//! Positions in a postflop spot rebuilt from a hand.
use vstd::prelude::*;
use crate::analysis::{folded_pre_upto, Pos};
use crate::model::{ActKind, Action};

verus! {

pub open spec fn spec_pos_name(p: Pos) -> Seq<char> {
    match p {
        Pos::Btn => "BTN"@,
        Pos::Sb => "SB"@,
        Pos::Bb => "BB"@,
    }
}

/// Name of a position in a table of `n` players.
pub fn pos_name(p: Pos, n: usize) -> (r: &'static str)
    ensures
        r@ == spec_pos_name(p),
{
    match (p, n) {
        (Pos::Btn, _) => "BTN",
        (Pos::Sb, 2) => "SB",
        (Pos::Sb, _) => "SB",
        (Pos::Bb, _) => "BB",
    }
}

/// Postflop speaking order: SB, BB, BTN; heads-up the button is the small blind and
/// speaks last.
pub open spec fn spec_post_order(p: Pos, n: int) -> int {
    match p {
        Pos::Sb => if n == 2 { 2 } else { 0 },
        Pos::Bb => 1,
        Pos::Btn => 2,
    }
}

/// Postflop speaking rank of a position (smaller speaks first).
pub fn post_order(p: Pos, n: usize) -> (r: u8)
    ensures
        r == spec_post_order(p, n as int),
{
    match (p, n) {
        (Pos::Sb, 2) => 2,
        (Pos::Sb, _) => 0,
        (Pos::Bb, _) => 1,
        (Pos::Btn, _) => 2,
    }
}

/// Why a hand cannot be rebuilt as a heads-up postflop spot.
#[derive(Debug, Clone, Copy, PartialEq, Eq, Structural)]
pub enum SpotRefusal {
    /// the big blind is not known
    NoBigBlind,
    /// the hand stops before the flop
    NoFlop,
    /// three players see the flop
    ThreeWay,
    /// a single player sees the flop
    OnePlayer,
    /// a player who sees the flop is all-in preflop: no postflop decision is left
    PreflopAllIn,
}

/// Player `i` is all-in after a preflop action among the first `k`.
pub open spec fn allin_pre_upto(acts: Seq<Action>, i: int, k: int) -> bool
    decreases k,
{
    k > 0 && (allin_pre_upto(acts, i, k - 1) || (acts[k - 1].p == i && acts[k - 1].street == 0
        && acts[k - 1].allin))
}

/// The players among the first `k` seats who did not fold preflop, in seat order.
pub open spec fn live_seats(acts: Seq<Action>, k: int) -> Seq<int>
    decreases k,
{
    if k <= 0 {
        Seq::empty()
    } else if !folded_pre_upto(acts, k - 1, acts.len() as int) {
        live_seats(acts, k - 1).push(k - 1)
    } else {
        live_seats(acts, k - 1)
    }
}

/// The heads-up postflop spot of a hand of `n` players (`pos[i]` the position of seat `i`,
/// `board_len` cards on the board, `bb_known` whether the big blind is known): the player
/// out of position and the player in position, or why there is no such spot.
pub open spec fn spec_spot_shape(n: int, pos: Seq<Pos>, acts: Seq<Action>, board_len: int, bb_known: bool) -> Result<
    (int, int),
    SpotRefusal,
> {
    let live = live_seats(acts, n);
    if !bb_known {
        Err(SpotRefusal::NoBigBlind)
    } else if board_len < 3 {
        Err(SpotRefusal::NoFlop)
    } else if live.len() > 2 {
        Err(SpotRefusal::ThreeWay)
    } else if live.len() < 2 {
        Err(SpotRefusal::OnePlayer)
    } else if allin_pre_upto(acts, live[0], acts.len() as int) || allin_pre_upto(acts, live[1], acts.len() as int) {
        Err(SpotRefusal::PreflopAllIn)
    } else if spec_post_order(pos[live[0]], n) < spec_post_order(pos[live[1]], n) {
        Ok((live[0], live[1]))
    } else {
        Ok((live[1], live[0]))
    }
}

/// Who plays the heads-up postflop spot of a hand: the out-of-position player, then the
/// in-position one (see `spec_spot_shape`).
pub fn spot_shape(n: usize, pos: &Vec<Pos>, actions: &Vec<Action>, board_len: usize, bb_known: bool) -> (r: Result<
    (usize, usize),
    SpotRefusal,
>)
    requires
        pos@.len() == n,
        forall|i: int| 0 <= i < actions@.len() ==> #[trigger] actions@[i].p < n,
    ensures
        match r {
            Ok((a, b)) => spec_spot_shape(n as int, pos@, actions@, board_len as int, bb_known) == Ok::<
                (int, int),
                SpotRefusal,
            >((a as int, b as int)),
            Err(e) => spec_spot_shape(n as int, pos@, actions@, board_len as int, bb_known) == Err::<
                (int, int),
                SpotRefusal,
            >(e),
        },
{
    if !bb_known {
        return Err(SpotRefusal::NoBigBlind);
    }
    if board_len < 3 {
        return Err(SpotRefusal::NoFlop);
    }
    let mut folded: Vec<bool> = Vec::new();
    let mut allin: Vec<bool> = Vec::new();
    let mut i: usize = 0;
    while i < n
        invariant
            i <= n,
            folded@.len() == i,
            allin@.len() == i,
            forall|j: int| 0 <= j < i ==> !(#[trigger] folded@[j]),
            forall|j: int| 0 <= j < i ==> !(#[trigger] allin@[j]),
        decreases n - i,
    {
        folded.push(false);
        allin.push(false);
        i = i + 1;
    }
    let ghost acts = actions@;
    let mut k: usize = 0;
    while k < actions.len()
        invariant
            k <= acts.len(),
            acts == actions@,
            folded@.len() == n,
            allin@.len() == n,
            forall|q: int| 0 <= q < acts.len() ==> #[trigger] acts[q].p < n,
            forall|j: int| 0 <= j < n ==> #[trigger] folded@[j] == folded_pre_upto(acts, j, k as int),
            forall|j: int| 0 <= j < n ==> #[trigger] allin@[j] == allin_pre_upto(acts, j, k as int),
        decreases acts.len() - k,
    {
        let a = actions[k];
        let p = a.p as usize;
        if a.street == 0 {
            if a.kind == ActKind::Fold {
                folded.set(p, true);
            }
            if a.allin {
                allin.set(p, true);
            }
        }
        k = k + 1;
    }
    let mut live: Vec<usize> = Vec::new();
    let mut i: usize = 0;
    while i < n
        invariant
            i <= n,
            acts == actions@,
            folded@.len() == n,
            forall|j: int| 0 <= j < n ==> #[trigger] folded@[j] == folded_pre_upto(acts, j, acts.len() as int),
            live@.len() == live_seats(acts, i as int).len(),
            forall|j: int| 0 <= j < live@.len() ==> #[trigger] live@[j] as int == live_seats(acts, i as int)[j],
            forall|j: int| 0 <= j < live@.len() ==> #[trigger] live@[j] < i,
        decreases n - i,
    {
        if !folded[i] {
            live.push(i);
        }
        i = i + 1;
    }
    if live.len() > 2 {
        return Err(SpotRefusal::ThreeWay);
    }
    if live.len() < 2 {
        return Err(SpotRefusal::OnePlayer);
    }
    let a = live[0];
    let b = live[1];
    if allin[a] || allin[b] {
        return Err(SpotRefusal::PreflopAllIn);
    }
    if post_order(pos[a], n) < post_order(pos[b], n) {
        Ok((a, b))
    } else {
        Ok((b, a))
    }
}

/// Whether a player at position `p` speaks before one at position `q` after the flop at a
/// table of `n`: three-handed the small blind, then the big blind, then the button; heads-up
/// the big blind speaks first.
pub open spec fn speaks_before(p: Pos, q: Pos, n: int) -> bool {
    if n == 2 {
        p == Pos::Bb && q != Pos::Bb
    } else {
        (p == Pos::Sb && q != Pos::Sb) || (p == Pos::Bb && q == Pos::Btn)
    }
}

proof fn lemma_live_seats(acts: Seq<Action>, k: int)
    requires
        0 <= k,
    ensures
        forall|j: int| 0 <= j < live_seats(acts, k).len() ==> 0 <= #[trigger] live_seats(acts, k)[j] < k
            && !folded_pre_upto(acts, live_seats(acts, k)[j], acts.len() as int),
        forall|i: int, j: int| 0 <= i < j < live_seats(acts, k).len() ==> live_seats(acts, k)[i] < live_seats(acts, k)[j],
        forall|q: int| 0 <= q < k && !folded_pre_upto(acts, q, acts.len() as int) ==> live_seats(acts, k).contains(q),
    decreases k,
{
    if k > 0 {
        lemma_live_seats(acts, k - 1);
        let prev = live_seats(acts, k - 1);
        if !folded_pre_upto(acts, k - 1, acts.len() as int) {
            let cur = prev.push(k - 1);
            assert(cur[prev.len() as int] == k - 1);
            assert forall|q: int| 0 <= q < k && !folded_pre_upto(acts, q, acts.len() as int) implies cur.contains(q) by {
                if q < k - 1 {
                    let j = choose|j: int| 0 <= j < prev.len() && prev[j] == q;
                    assert(cur[j] == q);
                }
            }
        }
    }
}

/// Law: the spot of a hand opposes the two players who did not fold preflop, neither all-in
/// preflop; everybody else folded; and the player reported out of position is not one who
/// speaks after the other on the flop at that table.
pub proof fn lemma_spot_players(n: int, pos: Seq<Pos>, acts: Seq<Action>, board_len: int, bb_known: bool)
    requires
        pos.len() == n,
        spec_spot_shape(n, pos, acts, board_len, bb_known) is Ok,
    ensures
        ({
            let (a, b) = spec_spot_shape(n, pos, acts, board_len, bb_known)->Ok_0;
            &&& 0 <= a < n && 0 <= b < n && a != b
            &&& !folded_pre_upto(acts, a, acts.len() as int) && !folded_pre_upto(acts, b, acts.len() as int)
            &&& !allin_pre_upto(acts, a, acts.len() as int) && !allin_pre_upto(acts, b, acts.len() as int)
            &&& forall|i: int| 0 <= i < n && i != a && i != b ==> folded_pre_upto(acts, i, acts.len() as int)
            &&& !speaks_before(pos[b], pos[a], n)
            &&& pos[a] != pos[b] && (n != 2 || pos[a] == Pos::Bb || pos[b] == Pos::Bb) ==> speaks_before(pos[a], pos[b], n)
        }),
{
    lemma_live_seats(acts, n);
    let live = live_seats(acts, n);
    assert(live.len() == 2);
    assert(live[0] < live[1]);
    assert forall|i: int| 0 <= i < n && i != live[0] && i != live[1] implies folded_pre_upto(acts, i, acts.len() as int) by {
        if !folded_pre_upto(acts, i, acts.len() as int) {
            assert(live.contains(i));
        }
    }
}

/// Player `i` did not fold preflop.
pub open spec fn stays_in(acts: Seq<Action>, i: int) -> bool {
    !folded_pre_upto(acts, i, acts.len() as int)
}

/// Law: a hand is refused for the first reason that holds, in this order: unknown big
/// blind, no flop, three players or more seeing the flop, a single one, a preflop all-in of
/// one of the two; a hand with none of these is accepted.
pub proof fn lemma_spot_refusals(n: int, pos: Seq<Pos>, acts: Seq<Action>, board_len: int, bb_known: bool)
    requires
        pos.len() == n,
        n >= 0,
    ensures
        ({
            let r = spec_spot_shape(n, pos, acts, board_len, bb_known);
            &&& !bb_known <==> r == Err::<(int, int), SpotRefusal>(SpotRefusal::NoBigBlind)
            &&& (bb_known && board_len < 3) <==> r == Err::<(int, int), SpotRefusal>(SpotRefusal::NoFlop)
            &&& r == Err::<(int, int), SpotRefusal>(SpotRefusal::ThreeWay) ==> exists|i: int, j: int, k: int|
                0 <= i < j < k < n && #[trigger] stays_in(acts, i) && #[trigger] stays_in(acts, j) && #[trigger] stays_in(acts, k)
            &&& r == Err::<(int, int), SpotRefusal>(SpotRefusal::OnePlayer) ==> forall|i: int, j: int|
                0 <= i < j < n ==> !(#[trigger] stays_in(acts, i) && #[trigger] stays_in(acts, j))
            &&& r == Err::<(int, int), SpotRefusal>(SpotRefusal::PreflopAllIn) ==> exists|i: int|
                0 <= i < n && #[trigger] stays_in(acts, i) && allin_pre_upto(acts, i, acts.len() as int)
            &&& (bb_known && board_len >= 3 && (exists|a: int, b: int|
                0 <= a < b < n && #[trigger] stays_in(acts, a) && #[trigger] stays_in(acts, b) && !allin_pre_upto(acts, a, acts.len() as int) && !allin_pre_upto(
                    acts,
                    b,
                    acts.len() as int,
                ) && forall|i: int| 0 <= i < n && i != a && i != b ==> !#[trigger] stays_in(acts, i))) ==> r is Ok
        }),
{
    lemma_live_seats(acts, n);
    let live = live_seats(acts, n);
    let len = acts.len() as int;
    let r = spec_spot_shape(n, pos, acts, board_len, bb_known);
    if live.len() > 2 {
        assert(live[0] < live[1] && live[1] < live[2]);
        assert(stays_in(acts, live[0]) && stays_in(acts, live[1]) && stays_in(acts, live[2]));
    }
    if live.len() == 2 {
        assert(stays_in(acts, live[0]) && stays_in(acts, live[1]));
    }
    if live.len() < 2 {
        assert forall|i: int, j: int| 0 <= i < j < n implies !(#[trigger] stays_in(acts, i) && #[trigger] stays_in(acts, j)) by {
            if stays_in(acts, i) && stays_in(acts, j) {
                assert(live.contains(i) && live.contains(j));
                let x = choose|x: int| 0 <= x < live.len() && live[x] == i;
                let y = choose|y: int| 0 <= y < live.len() && live[y] == j;
                assert(x != y);
            }
        }
    }
    if bb_known && board_len >= 3 && (exists|a: int, b: int|
        0 <= a < b < n && #[trigger] stays_in(acts, a) && #[trigger] stays_in(acts, b) && !allin_pre_upto(acts, a, len)
            && !allin_pre_upto(acts, b, len) && forall|i: int| 0 <= i < n && i != a && i != b ==> !#[trigger] stays_in(acts, i)) {
        let (a, b) = choose|a: int, b: int|
            0 <= a < b < n && #[trigger] stays_in(acts, a) && #[trigger] stays_in(acts, b) && !allin_pre_upto(acts, a, len)
                && !allin_pre_upto(acts, b, len) && forall|i: int| 0 <= i < n && i != a && i != b ==> !#[trigger] stays_in(acts, i);
        assert(live.contains(a) && live.contains(b));
        let x = choose|x: int| 0 <= x < live.len() && live[x] == a;
        let y = choose|y: int| 0 <= y < live.len() && live[y] == b;
        assert(x < y) by {
            if y < x {
                assert(live[y] < live[x]);
            }
        }
        assert forall|z: int| 0 <= z < live.len() implies live[z] == a || live[z] == b by {
            assert(stays_in(acts, live[z]));
        }
        if live.len() > 2 {
            let z = if x != 0 && y != 0 { 0int } else if x != 1 && y != 1 { 1int } else { 2int };
            assert(live[z] == a || live[z] == b);
        }
        assert(live.len() == 2);
        assert(live[0] == a && live[1] == b);
    }
}

} // verus!
