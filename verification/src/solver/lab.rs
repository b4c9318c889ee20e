//! What a hand makes on the boards to come: its made-hand categories and draws counted over
//! every flop (no board yet) or every runout to the river (a flop or a turn), by complete
//! enumeration of the cards left.
use vstd::prelude::*;
use crate::model::Card;
use crate::solver::ranges::{classify, mask, spec_draws, spec_made};

verus! {

// ---------------------------------------------------------------- the cards left

/// A card that cannot come: dead, on the board, or one of the hand's two cards.
pub open spec fn blocked(c: u8, hand: (u8, u8), board: Seq<u8>, dead: u64) -> bool {
    (dead >> (c as u64)) & 1u64 == 1u64 || board.contains(c) || c == hand.0 || c == hand.1
}

/// The cards left among `0..k`, in increasing order.
pub open spec fn deck_upto(hand: (u8, u8), board: Seq<u8>, dead: u64, k: int) -> Seq<u8>
    decreases k,
{
    if k <= 0 {
        Seq::empty()
    } else {
        let prev = deck_upto(hand, board, dead, k - 1);
        if blocked((k - 1) as u8, hand, board, dead) {
            prev
        } else {
            prev.push((k - 1) as u8)
        }
    }
}

/// The cards left.
pub open spec fn spec_deck(hand: (u8, u8), board: Seq<u8>, dead: u64) -> Seq<u8> {
    deck_upto(hand, board, dead, 52)
}

proof fn lemma_bit_union(d: u64, m: u64, a: u64, b: u64, c: u64)
    requires
        a < 64,
        b < 64,
        c < 64,
    ensures
        ((d | m | (1u64 << a) | (1u64 << b)) & (1u64 << c) == 0u64) == !((d >> c) & 1u64 == 1u64 || (m >> c) & 1u64
            == 1u64 || c == a || c == b),
{
    assert(((d | m | (1u64 << a) | (1u64 << b)) & (1u64 << c) == 0u64) == !((d >> c) & 1u64 == 1u64 || (m >> c)
        & 1u64 == 1u64 || c == a || c == b)) by (bit_vector)
        requires
            a < 64,
            b < 64,
            c < 64,
    ;
}

/// The cards left (see `spec_deck`).
fn deck(hand: (Card, Card), board: &[Card], dead: u64) -> (r: Vec<Card>)
    requires
        hand.0 < 52,
        hand.1 < 52,
        forall|i: int| 0 <= i < board@.len() ==> board@[i] < 52,
    ensures
        r@ == spec_deck(hand, board@, dead),
        forall|i: int| 0 <= i < r@.len() ==> r@[i] < 52,
        r@.len() <= 52,
{
    let mk = mask(board);
    let base = dead | mk | (1u64 << (hand.0 as u64)) | (1u64 << (hand.1 as u64));
    let mut out: Vec<Card> = Vec::new();
    let mut c: u8 = 0;
    while c < 52
        invariant
            c <= 52,
            hand.0 < 52,
            hand.1 < 52,
            base == dead | mk | (1u64 << (hand.0 as u64)) | (1u64 << (hand.1 as u64)),
            forall|x: u64| x < 64 ==> (((mk >> x) & 1u64 == 1u64) <==> board@.contains(x as u8)),
            out@ == deck_upto(hand, board@, dead, c as int),
            forall|i: int| 0 <= i < out@.len() ==> out@[i] < c,
            out@.len() <= c,
        decreases 52 - c,
    {
        proof {
            lemma_bit_union(dead, mk, hand.0 as u64, hand.1 as u64, c as u64);
            assert(((mk >> (c as u64)) & 1u64 == 1u64) <==> board@.contains(c));
        }
        if base & (1u64 << (c as u64)) == 0 {
            out.push(c);
        }
        c = c + 1;
    }
    out
}

// ---------------------------------------------------------------- counting

/// Counts of the made-hand categories (indices in `MADE`), of the draws (indices in
/// `DRAWS`) and of the boards.
pub struct Tally {
    pub made: Seq<int>,
    pub draws: Seq<int>,
    pub total: int,
}

pub open spec fn tally_zero() -> Tally {
    Tally { made: Seq::new(15, |i: int| 0int), draws: Seq::new(6, |i: int| 0int), total: 0 }
}

/// One more board: its made-hand category and each of its draws are counted.
pub open spec fn tally_step(t: Tally, hand: (u8, u8), b: Seq<u8>) -> Tally {
    let m = spec_made(hand.0, hand.1, b);
    let ds = spec_draws(hand.0, hand.1, b);
    Tally {
        made: t.made.update(m, t.made[m] + 1),
        draws: Seq::new(t.draws.len(), |x: int| t.draws[x] + if ds.contains(x as usize) { 1int } else { 0int }),
        total: t.total + 1,
    }
}

/// The counts, as computed.
pub struct Counts {
    pub made: Vec<u64>,
    pub draws: Vec<u64>,
    pub total: u64,
}

pub open spec fn counts_are(c: Counts, t: Tally) -> bool {
    &&& c.made@.len() == t.made.len() == 15
    &&& c.draws@.len() == t.draws.len() == 6
    &&& forall|i: int| 0 <= i < 15 ==> #[trigger] c.made@[i] as int == t.made[i]
    &&& forall|i: int| 0 <= i < 6 ==> #[trigger] c.draws@[i] as int == t.draws[i]
    &&& c.total as int == t.total
}

/// No count passes the number of boards.
pub open spec fn counts_bounded(c: Counts) -> bool {
    &&& c.made@.len() == 15
    &&& c.draws@.len() == 6
    &&& forall|i: int| 0 <= i < 15 ==> #[trigger] c.made@[i] <= c.total
    &&& forall|i: int| 0 <= i < 6 ==> #[trigger] c.draws@[i] <= c.total
}

fn counts_zero() -> (c: Counts)
    ensures
        counts_are(c, tally_zero()),
        counts_bounded(c),
        c.total == 0,
{
    let mut made: Vec<u64> = Vec::new();
    let mut i: usize = 0;
    while i < 15
        invariant
            i <= 15,
            made@.len() == i,
            forall|j: int| 0 <= j < i ==> made@[j] == 0,
        decreases 15 - i,
    {
        made.push(0);
        i = i + 1;
    }
    let mut draws: Vec<u64> = Vec::new();
    let mut k: usize = 0;
    while k < 6
        invariant
            k <= 6,
            draws@.len() == k,
            forall|j: int| 0 <= j < k ==> draws@[j] == 0,
        decreases 6 - k,
    {
        draws.push(0);
        k = k + 1;
    }
    Counts { made, draws, total: 0 }
}

/// Counts one more board (see `tally_step`).
fn count_board(c: &mut Counts, hand: (Card, Card), b: &[Card], Ghost(t): Ghost<Tally>)
    requires
        counts_are(*old(c), t),
        counts_bounded(*old(c)),
        old(c).total < 0xffff_ffff,
        hand.0 < 52,
        hand.1 < 52,
        1 <= b@.len() <= 5,
        forall|i: int| 0 <= i < b@.len() ==> b@[i] < 52,
    ensures
        counts_are(*final(c), tally_step(t, hand, b@)),
        counts_bounded(*final(c)),
        final(c).total == old(c).total + 1,
{
    let (m, ds) = classify(hand.0, hand.1, b);
    let mv = c.made[m];
    c.made.set(m, mv + 1);
    let ghost d0 = c.draws@;
    let ghost m1 = c.made@;
    assert(m1.len() == 15);
    let mut q: usize = 0;
    while q < ds.len()
        invariant
            q <= ds@.len(),
            c.draws@.len() == 6,
            d0.len() == 6,
            forall|i: int| 0 <= i < ds@.len() ==> ds@[i] < 6,
            forall|i: int, j: int| 0 <= i < j < ds@.len() ==> ds@[i] < ds@[j],
            forall|x: int|
                0 <= x < 6 ==> #[trigger] c.draws@[x] == d0[x] + if ds@.take(q as int).contains(x as usize) {
                    1int
                } else {
                    0int
                },
            forall|x: int| 0 <= x < 6 ==> d0[x] <= old(c).total,
            old(c).total < 0xffff_ffff,
            c.made@ == m1,
            c.total == old(c).total,
        decreases ds@.len() - q,
    {
        let x = ds[q];
        proof {
            assert(!ds@.take(q as int).contains(x)) by {
                if ds@.take(q as int).contains(x) {
                    let j = choose|j: int| 0 <= j < q && ds@.take(q as int)[j] == x;
                    assert(ds@[j] < ds@[q as int]);
                }
            }
            assert(c.draws@[x as int] == d0[x as int]);
        }
        let dv = c.draws[x];
        c.draws.set(x, dv + 1);
        proof {
            assert forall|y: int| 0 <= y < 6 implies #[trigger] c.draws@[y] == d0[y] + if ds@.take(q + 1).contains(
                y as usize,
            ) {
                1int
            } else {
                0int
            } by {
                assert(ds@.take(q + 1) =~= ds@.take(q as int).push(x));
                if y != x as int {
                    assert(ds@.take(q + 1).contains(y as usize) == ds@.take(q as int).contains(y as usize));
                } else {
                    assert(ds@.take(q + 1)[q as int] == x);
                }
            }
        }
        q = q + 1;
    }
    c.total = c.total + 1;
    proof {
        assert(ds@.take(ds@.len() as int) =~= ds@);
        let nt = tally_step(t, hand, b@);
        assert forall|i: int| 0 <= i < 6 implies #[trigger] c.draws@[i] as int == nt.draws[i] by {}
        assert forall|i: int| 0 <= i < 15 implies #[trigger] c.made@[i] as int == nt.made[i] by {}
        assert forall|i: int| 0 <= i < 6 implies #[trigger] c.draws@[i] <= c.total by {}
        assert forall|i: int| 0 <= i < 15 implies #[trigger] c.made@[i] <= c.total by {}
    }
}

// ---------------------------------------------------------------- the boards to come

/// The turns or rivers `board + [dk[i]]` for `i < k`, counted in turn.
pub open spec fn fold1(t: Tally, hand: (u8, u8), board: Seq<u8>, dk: Seq<u8>, k: int) -> Tally
    decreases k,
{
    if k <= 0 {
        t
    } else {
        tally_step(fold1(t, hand, board, dk, k - 1), hand, board.push(dk[k - 1]))
    }
}

/// The runouts `board + [dk[i], dk[j]]` for `i < j < k`, `i` fixed, counted in turn.
pub open spec fn fold2_j(t: Tally, hand: (u8, u8), board: Seq<u8>, dk: Seq<u8>, i: int, j: int) -> Tally
    decreases j,
{
    if j <= 0 || j <= i + 1 {
        t
    } else {
        tally_step(fold2_j(t, hand, board, dk, i, j - 1), hand, board + seq![dk[i], dk[j - 1]])
    }
}

/// The runouts `board + [dk[a], dk[b]]` for `a < i`, `a < b`, counted in turn.
pub open spec fn fold2_i(t: Tally, hand: (u8, u8), board: Seq<u8>, dk: Seq<u8>, i: int) -> Tally
    decreases i,
{
    if i <= 0 {
        t
    } else {
        fold2_j(fold2_i(t, hand, board, dk, i - 1), hand, board, dk, i - 1, dk.len() as int)
    }
}

/// The flops `[dk[i], dk[j], dk[c]]` for `j < c < k`, `i` and `j` fixed, counted in turn.
pub open spec fn fold3_k(t: Tally, hand: (u8, u8), dk: Seq<u8>, i: int, j: int, k: int) -> Tally
    decreases k,
{
    if k <= 0 || k <= j + 1 {
        t
    } else {
        tally_step(fold3_k(t, hand, dk, i, j, k - 1), hand, seq![dk[i], dk[j], dk[k - 1]])
    }
}

/// The flops `[dk[i], dk[b], dk[c]]` for `i < b < j`, `b < c`, counted in turn.
pub open spec fn fold3_j(t: Tally, hand: (u8, u8), dk: Seq<u8>, i: int, j: int) -> Tally
    decreases j,
{
    if j <= 0 || j <= i + 1 {
        t
    } else {
        fold3_k(fold3_j(t, hand, dk, i, j - 1), hand, dk, i, j - 1, dk.len() as int)
    }
}

/// The flops `[dk[a], dk[b], dk[c]]` for `a < i`, `a < b < c`, counted in turn.
pub open spec fn fold3_i(t: Tally, hand: (u8, u8), dk: Seq<u8>, i: int) -> Tally
    decreases i,
{
    if i <= 0 {
        t
    } else {
        fold3_j(fold3_i(t, hand, dk, i - 1), hand, dk, i - 1, dk.len() as int)
    }
}

/// What the hand makes: over every flop of the cards left when there is no board, over
/// every runout to the river of a flop or a turn, else on the board itself.
pub open spec fn spec_outcomes(hand: (u8, u8), board: Seq<u8>, dead: u64) -> Tally {
    let dk = spec_deck(hand, board, dead);
    if board.len() == 0 {
        fold3_i(tally_zero(), hand, dk, dk.len() as int)
    } else if board.len() == 3 {
        fold2_i(tally_zero(), hand, board, dk, dk.len() as int)
    } else if board.len() == 4 {
        fold1(tally_zero(), hand, board, dk, dk.len() as int)
    } else {
        tally_step(tally_zero(), hand, board)
    }
}

/// Where the counts are made: "au flop", "à la river", "sur ce board".
pub open spec fn spec_street(n: nat) -> Seq<char> {
    if n == 0 {
        "au flop"@
    } else if n == 3 || n == 4 {
        "à la river"@
    } else {
        "sur ce board"@
    }
}

fn with_cards(board: &[Card], extra: &Vec<Card>) -> (r: Vec<Card>)
    ensures
        r@ == board@ + extra@,
{
    let mut v: Vec<Card> = Vec::new();
    let mut i: usize = 0;
    while i < board.len()
        invariant
            i <= board@.len(),
            v@ == board@.take(i as int),
        decreases board@.len() - i,
    {
        v.push(board[i]);
        assert(board@.take(i + 1) =~= board@.take(i as int).push(board@[i as int]));
        i = i + 1;
    }
    let mut k: usize = 0;
    while k < extra.len()
        invariant
            k <= extra@.len(),
            v@ == board@ + extra@.take(k as int),
        decreases extra@.len() - k,
    {
        v.push(extra[k]);
        assert(extra@.take(k + 1) =~= extra@.take(k as int).push(extra@[k as int]));
        k = k + 1;
    }
    assert(board@.take(board@.len() as int) =~= board@);
    assert(extra@.take(extra@.len() as int) =~= extra@);
    v
}

/// Counts the made-hand categories and draws of a hand over the boards to come (see
/// `spec_outcomes`), with where they are counted (see `spec_street`).
#[verifier::rlimit(40)]
pub fn outcomes(hand: (Card, Card), board: &[Card], dead: u64) -> (r: (String, Counts))
    requires
        hand.0 < 52,
        hand.1 < 52,
        board@.len() <= 5,
        forall|i: int| 0 <= i < board@.len() ==> board@[i] < 52,
    ensures
        r.0@ == spec_street(board@.len()),
        counts_are(r.1, spec_outcomes(hand, board@, dead)),
{
    let dk = deck(hand, board, dead);
    let n = dk.len();
    let mut c = counts_zero();
    if board.len() == 0 {
        let mut i: usize = 0;
        while i < n
            invariant
                i <= n == dk@.len() <= 52,
                hand.0 < 52,
                hand.1 < 52,
                forall|q: int| 0 <= q < dk@.len() ==> dk@[q] < 52,
                counts_are(c, fold3_i(tally_zero(), hand, dk@, i as int)),
                counts_bounded(c),
                c.total <= i * 2704,
            decreases n - i,
        {
            let mut j: usize = i + 1;
            while j < n
                invariant
                    i < n == dk@.len() <= 52,
                    i + 1 <= j <= n,
                    hand.0 < 52,
                    hand.1 < 52,
                    forall|q: int| 0 <= q < dk@.len() ==> dk@[q] < 52,
                    counts_are(c, fold3_j(fold3_i(tally_zero(), hand, dk@, i as int), hand, dk@, i as int, j as int)),
                    counts_bounded(c),
                    c.total <= i * 2704 + j * 52,
                decreases n - j,
            {
                let mut k: usize = j + 1;
                while k < n
                    invariant
                        i < j < n == dk@.len() <= 52,
                        j + 1 <= k <= n,
                        hand.0 < 52,
                        hand.1 < 52,
                        forall|q: int| 0 <= q < dk@.len() ==> dk@[q] < 52,
                        counts_are(
                            c,
                            fold3_k(
                                fold3_j(fold3_i(tally_zero(), hand, dk@, i as int), hand, dk@, i as int, j as int),
                                hand,
                                dk@,
                                i as int,
                                j as int,
                                k as int,
                            ),
                        ),
                        counts_bounded(c),
                        c.total <= i * 2704 + j * 52 + k,
                    decreases n - k,
                {
                    let b = vec![dk[i], dk[j], dk[k]];
                    let ghost t = fold3_k(
                        fold3_j(fold3_i(tally_zero(), hand, dk@, i as int), hand, dk@, i as int, j as int),
                        hand,
                        dk@,
                        i as int,
                        j as int,
                        k as int,
                    );
                    assert(b@ == seq![dk@[i as int], dk@[j as int], dk@[k as int]]);
                    count_board(&mut c, hand, b.as_slice(), Ghost(t));
                    k = k + 1;
                }
                j = j + 1;
            }
            i = i + 1;
        }
    } else if board.len() == 3 || board.len() == 4 {
        if board.len() == 3 {
            let mut i: usize = 0;
            while i < n
                invariant
                    i <= n == dk@.len() <= 52,
                    board@.len() == 3,
                    hand.0 < 52,
                    hand.1 < 52,
                    forall|q: int| 0 <= q < dk@.len() ==> dk@[q] < 52,
                    forall|q: int| 0 <= q < board@.len() ==> board@[q] < 52,
                    counts_are(c, fold2_i(tally_zero(), hand, board@, dk@, i as int)),
                    counts_bounded(c),
                    c.total <= i * 52,
                decreases n - i,
            {
                let mut j: usize = i + 1;
                while j < n
                    invariant
                        i < n == dk@.len() <= 52,
                        i + 1 <= j <= n,
                        board@.len() == 3,
                        hand.0 < 52,
                        hand.1 < 52,
                        forall|q: int| 0 <= q < dk@.len() ==> dk@[q] < 52,
                        forall|q: int| 0 <= q < board@.len() ==> board@[q] < 52,
                        counts_are(c, fold2_j(fold2_i(tally_zero(), hand, board@, dk@, i as int), hand, board@, dk@, i as int, j as int)),
                        counts_bounded(c),
                        c.total <= i * 52 + j,
                    decreases n - j,
                {
                    let b = with_cards(board, &vec![dk[i], dk[j]]);
                    let ghost t = fold2_j(fold2_i(tally_zero(), hand, board@, dk@, i as int), hand, board@, dk@, i as int, j as int);
                    assert(b@ == board@ + seq![dk@[i as int], dk@[j as int]]);
                    count_board(&mut c, hand, b.as_slice(), Ghost(t));
                    j = j + 1;
                }
                i = i + 1;
            }
        } else {
            let mut i: usize = 0;
            while i < n
                invariant
                    i <= n == dk@.len() <= 52,
                    board@.len() == 4,
                    hand.0 < 52,
                    hand.1 < 52,
                    forall|q: int| 0 <= q < dk@.len() ==> dk@[q] < 52,
                    forall|q: int| 0 <= q < board@.len() ==> board@[q] < 52,
                    counts_are(c, fold1(tally_zero(), hand, board@, dk@, i as int)),
                    counts_bounded(c),
                    c.total <= i,
                decreases n - i,
            {
                let b = with_cards(board, &vec![dk[i]]);
                assert(b@ == board@.push(dk@[i as int]));
                count_board(&mut c, hand, b.as_slice(), Ghost(fold1(tally_zero(), hand, board@, dk@, i as int)));
                i = i + 1;
            }
        }
    } else {
        count_board(&mut c, hand, board, Ghost(tally_zero()));
    }
    let street = if board.len() == 0 {
        String::from_str("au flop")
    } else if board.len() == 3 || board.len() == 4 {
        String::from_str("à la river")
    } else {
        String::from_str("sur ce board")
    };
    (street, c)
}

} // verus!
