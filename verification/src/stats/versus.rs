//! The hero's opponents in each tournament, and what each opponent counts against the hero
//! over the tournaments: tournaments played together, tournaments the hero won, head-to-head
//! finishes, tournaments the opponent won. The chip and EV sums are kept by the caller.
use vstd::prelude::*;
use crate::import::{has_str, strs};

verus! {

/// The seats of a hand: the players' names and the hero's index.
pub struct HandSeats {
    pub names: Vec<String>,
    pub hero: usize,
}

/// The distinct names met among `names` other than the hero's seat, appended to `opp` in
/// order.
pub open spec fn opp_add(opp: Seq<Seq<char>>, names: Seq<String>, hero: int, k: int) -> Seq<Seq<char>>
    decreases k,
{
    if k <= 0 {
        opp
    } else {
        let prev = opp_add(opp, names, hero, k - 1);
        let n = names[k - 1]@;
        if k - 1 != hero && !prev.contains(n) {
            prev.push(n)
        } else {
            prev
        }
    }
}

/// The opponents met in the first `k` hands of a tournament, in the order first met.
pub open spec fn opponents_upto(hs: Seq<HandSeats>, k: int) -> Seq<Seq<char>>
    decreases k,
{
    if k <= 0 {
        Seq::empty()
    } else {
        let h = hs[k - 1];
        opp_add(opponents_upto(hs, k - 1), h.names@, h.hero as int, h.names@.len() as int)
    }
}

/// The first seat other than the hero's.
pub open spec fn other_seat(names: Seq<String>, hero: int, i: int) -> Option<Seq<char>>
    decreases names.len() - i,
{
    if i < 0 || i >= names.len() {
        None
    } else if i != hero {
        Some(names[i]@)
    } else {
        other_seat(names, hero, i + 1)
    }
}

/// The opponent of the first head-to-head hand among the first `k`.
pub open spec fn hu_upto(hs: Seq<HandSeats>, k: int) -> Option<Seq<char>>
    decreases k,
{
    if k <= 0 {
        None
    } else {
        match hu_upto(hs, k - 1) {
            Some(o) => Some(o),
            None => if hs[k - 1].names@.len() == 2 {
                other_seat(hs[k - 1].names@, hs[k - 1].hero as int, 0)
            } else {
                None
            },
        }
    }
}

/// The hero's opponents in a tournament, in the order first met, and the opponent of its
/// first head-to-head hand (see `opponents_upto`, `hu_upto`).
pub fn tour_opponents(hands: &Vec<HandSeats>) -> (r: (Vec<String>, Option<String>))
    ensures
        strs(r.0@) == opponents_upto(hands@, hands@.len() as int),
        match r.1 {
            Some(o) => hu_upto(hands@, hands@.len() as int) == Some(o@),
            None => hu_upto(hands@, hands@.len() as int) is None,
        },
{
    let mut opp: Vec<String> = Vec::new();
    let mut hu: Option<String> = None;
    let mut k: usize = 0;
    while k < hands.len()
        invariant
            k <= hands@.len(),
            strs(opp@) == opponents_upto(hands@, k as int),
            match hu {
                Some(o) => hu_upto(hands@, k as int) == Some(o@),
                None => hu_upto(hands@, k as int) is None,
            },
        decreases hands@.len() - k,
    {
        let h = &hands[k];
        let ghost base = strs(opp@);
        let mut i: usize = 0;
        while i < h.names.len()
            invariant
                i <= h.names@.len(),
                strs(opp@) == opp_add(base, h.names@, h.hero as int, i as int),
            decreases h.names@.len() - i,
        {
            if i != h.hero && !has_str(&opp, &h.names[i]) {
                let ghost ob = opp@;
                opp.push(h.names[i].clone());
                assert(strs(opp@) =~= strs(ob).push(h.names@[i as int]@));
            }
            i = i + 1;
        }
        if hu.is_none() && h.names.len() == 2 {
            let mut j: usize = 0;
            while j < 2 && j == h.hero
                invariant
                    j <= 2,
                    h.names@.len() == 2,
                    other_seat(h.names@, h.hero as int, 0) == other_seat(h.names@, h.hero as int, j as int),
                decreases 2 - j,
            {
                j = j + 1;
            }
            if j < 2 {
                hu = Some(h.names[j].clone());
            }
        }
        k = k + 1;
    }
    (opp, hu)
}

/// What a tournament tells of the hero's opponents: who they were, whether the hero won,
/// the opponent of its head-to-head finish, and the opponent who won it.
pub struct VsRow {
    pub opponents: Vec<String>,
    pub hero_won: bool,
    pub hu_opp: Option<String>,
    pub winner: Option<String>,
}

/// An opponent's counters against the hero.
pub struct VsHero {
    /// tournaments played against the hero
    pub tournaments: u32,
    /// of them, tournaments the hero won
    pub hero_wins: u32,
    /// head-to-head finishes against the hero
    pub hu_matches: u32,
    /// tournaments the opponent won against the hero
    pub their_wins: u32,
}

/// Occurrences of `n` among the first `k` names of `v`.
pub open spec fn occ(v: Seq<String>, n: Seq<char>, k: int) -> int
    decreases k,
{
    if k <= 0 {
        0
    } else {
        occ(v, n, k - 1) + if v[k - 1]@ == n { 1int } else { 0int }
    }
}

pub open spec fn opt_is(o: Option<String>, n: Seq<char>) -> bool {
    match o {
        Some(x) => x@ == n,
        None => false,
    }
}

/// The counters of opponent `n` over the first `k` tournaments: tournaments, hero's wins,
/// head-to-head finishes, their wins.
pub open spec fn vs_upto(rows: Seq<VsRow>, n: Seq<char>, k: int) -> (int, int, int, int)
    decreases k,
{
    if k <= 0 {
        (0, 0, 0, 0)
    } else {
        let p = vs_upto(rows, n, k - 1);
        let r = rows[k - 1];
        let o = occ(r.opponents@, n, r.opponents@.len() as int);
        (
            p.0 + o,
            p.1 + if r.hero_won { o } else { 0 },
            p.2 + if opt_is(r.hu_opp, n) { 1int } else { 0 },
            p.3 + if opt_is(r.winner, n) { 1int } else { 0 },
        )
    }
}

/// Names and results over the first `k` tournaments (a bound on every counter).
pub open spec fn rows_size(rows: Seq<VsRow>, k: int) -> int
    decreases k,
{
    if k <= 0 {
        0
    } else {
        rows_size(rows, k - 1) + rows[k - 1].opponents@.len() + 1
    }
}

proof fn lemma_occ_le(v: Seq<String>, n: Seq<char>, k: int)
    requires
        0 <= k <= v.len(),
    ensures
        0 <= occ(v, n, k) <= k,
    decreases k,
{
    if k > 0 {
        lemma_occ_le(v, n, k - 1);
    }
}

proof fn lemma_vs_bound(rows: Seq<VsRow>, n: Seq<char>, k: int)
    requires
        0 <= k <= rows.len(),
    ensures
        0 <= vs_upto(rows, n, k).0 <= rows_size(rows, k),
        0 <= vs_upto(rows, n, k).1 <= rows_size(rows, k),
        0 <= vs_upto(rows, n, k).2 <= rows_size(rows, k),
        0 <= vs_upto(rows, n, k).3 <= rows_size(rows, k),
        rows_size(rows, k) >= 0,
    decreases k,
{
    if k > 0 {
        lemma_vs_bound(rows, n, k - 1);
        let r = rows[k - 1];
        lemma_occ_le(r.opponents@, n, r.opponents@.len() as int);
    }
}

/// Occurrences of a name (see `occ`).
fn count_name(v: &Vec<String>, n: &String) -> (c: usize)
    ensures
        c == occ(v@, n@, v@.len() as int),
{
    let mut c: usize = 0;
    let mut i: usize = 0;
    while i < v.len()
        invariant
            i <= v@.len(),
            c == occ(v@, n@, i as int),
            c <= i,
        decreases v@.len() - i,
    {
        if v[i] == *n {
            c = c + 1;
        }
        i = i + 1;
    }
    c
}

fn opt_is_exec(o: &Option<String>, n: &String) -> (r: bool)
    ensures
        r == opt_is(*o, n@),
{
    match o {
        Some(x) => *x == *n,
        None => false,
    }
}

/// The counters against the hero of each opponent named (see `vs_upto`).
pub fn vs_hero(names: &Vec<String>, rows: &Vec<VsRow>) -> (r: Vec<VsHero>)
    requires
        rows_size(rows@, rows@.len() as int) <= u32::MAX,
    ensures
        r@.len() == names@.len(),
        forall|i: int|
            0 <= i < r@.len() ==> {
                let v = vs_upto(rows@, names@[i]@, rows@.len() as int);
                &&& (#[trigger] r@[i]).tournaments == v.0
                &&& r@[i].hero_wins == v.1
                &&& r@[i].hu_matches == v.2
                &&& r@[i].their_wins == v.3
            },
{
    let mut out: Vec<VsHero> = Vec::new();
    let mut i: usize = 0;
    while i < names.len()
        invariant
            i <= names@.len(),
            out@.len() == i,
            rows_size(rows@, rows@.len() as int) <= u32::MAX,
            forall|q: int|
                0 <= q < i ==> {
                    let v = vs_upto(rows@, names@[q]@, rows@.len() as int);
                    &&& (#[trigger] out@[q]).tournaments == v.0
                    &&& out@[q].hero_wins == v.1
                    &&& out@[q].hu_matches == v.2
                    &&& out@[q].their_wins == v.3
                },
        decreases names@.len() - i,
    {
        let n = &names[i];
        let mut a: u32 = 0;
        let mut b: u32 = 0;
        let mut c: u32 = 0;
        let mut d: u32 = 0;
        let mut k: usize = 0;
        while k < rows.len()
            invariant
                k <= rows@.len(),
                rows_size(rows@, rows@.len() as int) <= u32::MAX,
                (a as int, b as int, c as int, d as int) == vs_upto(rows@, n@, k as int),
            decreases rows@.len() - k,
        {
            let r = &rows[k];
            proof {
                lemma_vs_bound(rows@, n@, k + 1);
                lemma_rows_size_mono(rows@, k + 1, rows@.len() as int);
                lemma_occ_le(r.opponents@, n@, r.opponents@.len() as int);
            }
            let o = count_name(&r.opponents, n);
            a = a + o as u32;
            if r.hero_won {
                b = b + o as u32;
            }
            if opt_is_exec(&r.hu_opp, n) {
                c = c + 1;
            }
            if opt_is_exec(&r.winner, n) {
                d = d + 1;
            }
            k = k + 1;
        }
        out.push(VsHero { tournaments: a, hero_wins: b, hu_matches: c, their_wins: d });
        i = i + 1;
    }
    out
}

proof fn lemma_rows_size_mono(rows: Seq<VsRow>, i: int, n: int)
    requires
        0 <= i <= n,
    ensures
        rows_size(rows, i) <= rows_size(rows, n),
    decreases n - i,
{
    if i < n {
        lemma_rows_size_mono(rows, i, n - 1);
    }
}

/// Law: the tournaments the hero won against an opponent are among those played against
/// that opponent.
pub proof fn lemma_vs_wins_le(rows: Seq<VsRow>, n: Seq<char>, k: int)
    requires
        0 <= k <= rows.len(),
    ensures
        0 <= vs_upto(rows, n, k).1 <= vs_upto(rows, n, k).0,
    decreases k,
{
    if k > 0 {
        lemma_vs_wins_le(rows, n, k - 1);
        let r = rows[k - 1];
        lemma_occ_le(r.opponents@, n, r.opponents@.len() as int);
    }
}

} // verus!
