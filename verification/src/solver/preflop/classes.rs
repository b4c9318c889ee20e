//! The 169 preflop hand classes (index = cell of the 13×13 grid), their combos, and the
//! card-removal counts between classes.
use vstd::prelude::*;
use crate::model::Card;
use crate::solver::ranges::{cell_of, spec_cell_of};
use crate::solver::preflop::oracle::{PERMS, relabel};
use crate::solver::preflop::tri::{compatible, spec_compatible};

verus! {

/// Number of preflop hand classes.
pub const N: usize = 169;

/// Combos `(a, b)` with `b < nb`, in increasing `b`, whose cell is `h`.
pub open spec fn row_class(a: int, nb: int, h: int) -> Seq<(u8, u8)>
    decreases nb,
{
    if nb <= 0 {
        Seq::empty()
    } else {
        let prev = row_class(a, nb - 1, h);
        if spec_cell_of(a, nb - 1) == h {
            prev.push((a as u8, (nb - 1) as u8))
        } else {
            prev
        }
    }
}

/// Combos `(a, b)` with `b < a < na` whose cell is `h`, by increasing `a` then `b`.
pub open spec fn class_upto(na: int, h: int) -> Seq<(u8, u8)>
    decreases na,
{
    if na <= 0 {
        Seq::empty()
    } else {
        class_upto(na - 1, h) + row_class(na - 1, na - 1, h)
    }
}

/// The combos of class `h`: the pairs of cards `(a, b)`, `b < a`, whose grid cell is `h`.
pub open spec fn spec_class_combos(h: int) -> Seq<(u8, u8)> {
    class_upto(52, h)
}

/// Combos of class `h`, higher card first.
pub fn class_combos(h: usize) -> (out: Vec<(Card, Card)>)
    ensures
        out@ == spec_class_combos(h as int),
{
    let mut out: Vec<(Card, Card)> = Vec::new();
    let mut a: u8 = 0;
    while a < 52
        invariant
            a <= 52,
            out@ == class_upto(a as int, h as int),
        decreases 52 - a,
    {
        let mut b: u8 = 0;
        while b < a
            invariant
                b <= a < 52,
                out@ == class_upto(a as int, h as int) + row_class(a as int, b as int, h as int),
            decreases a - b,
        {
            let ghost before = out@;
            if cell_of(a, b) == h {
                out.push((a, b));
                assert(out@ =~= class_upto(a as int, h as int) + row_class(a as int, b + 1, h as int));
            } else {
                assert(out@ =~= class_upto(a as int, h as int) + row_class(a as int, b + 1, h as int));
            }
            b = b + 1;
        }
        a = a + 1;
    }
    out
}

/// Combos of each class, indexed by class.
pub fn combos() -> (v: Vec<Vec<(Card, Card)>>)
    ensures
        v@.len() == N,
        forall|h: int| 0 <= h < N ==> (#[trigger] v@[h])@ == spec_class_combos(h),
{
    let mut v: Vec<Vec<(Card, Card)>> = Vec::new();
    let mut h: usize = 0;
    while h < N
        invariant
            h <= N,
            v@.len() == h,
            forall|k: int| 0 <= k < h ==> (#[trigger] v@[k])@ == spec_class_combos(k),
        decreases N - h,
    {
        v.push(class_combos(h));
        h = h + 1;
    }
    v
}

/// Number of pairs (a combo of `xs`, a combo of `ys`) that share no card.
pub open spec fn count_compatible(xs: Seq<(u8, u8)>, ys: Seq<(u8, u8)>) -> int
    decreases xs.len(),
{
    if xs.len() == 0 {
        0
    } else {
        count_compatible(xs.drop_last(), ys) + count_with(xs.last(), ys)
    }
}

/// Number of combos of `ys` that share no card with `x`.
pub open spec fn count_with(x: (u8, u8), ys: Seq<(u8, u8)>) -> int
    decreases ys.len(),
{
    if ys.len() == 0 {
        0
    } else {
        count_with(x, ys.drop_last()) + (if spec_compatible(x, ys.last()) { 1int } else { 0 })
    }
}

proof fn lemma_count_with_bound(x: (u8, u8), ys: Seq<(u8, u8)>)
    ensures
        0 <= count_with(x, ys) <= ys.len(),
    decreases ys.len(),
{
    if ys.len() > 0 {
        lemma_count_with_bound(x, ys.drop_last());
    }
}

proof fn lemma_count_compatible_bound(xs: Seq<(u8, u8)>, ys: Seq<(u8, u8)>)
    ensures
        0 <= count_compatible(xs, ys) <= xs.len() * ys.len(),
    decreases xs.len(),
{
    if xs.len() > 0 {
        lemma_count_compatible_bound(xs.drop_last(), ys);
        lemma_count_with_bound(xs.last(), ys);
        assert((xs.len() - 1) * ys.len() + ys.len() == xs.len() * ys.len()) by (nonlinear_arith);
    }
}

/// Number of pairs of combos, one from each list, that share no card (card removal between
/// two classes: divided by the size of the first class it is the mean number of compatible
/// combos of the second).
pub fn compatible_count(xs: &Vec<(Card, Card)>, ys: &Vec<(Card, Card)>) -> (n: usize)
    requires
        xs@.len() <= 1326,
        ys@.len() <= 1326,
    ensures
        n == count_compatible(xs@, ys@),
{
    let mut n: usize = 0;
    let mut i: usize = 0;
    while i < xs.len()
        invariant
            i <= xs@.len() <= 1326,
            ys@.len() <= 1326,
            n == count_compatible(xs@.take(i as int), ys@),
            n <= i * 1326,
        decreases xs@.len() - i,
    {
        let x = xs[i];
        let mut m: usize = 0;
        let mut j: usize = 0;
        while j < ys.len()
            invariant
                j <= ys@.len() <= 1326,
                m == count_with(x, ys@.take(j as int)),
                m <= j,
            decreases ys@.len() - j,
        {
            assert(ys@.take(j + 1).drop_last() =~= ys@.take(j as int));
            if compatible(x, ys[j]) {
                m = m + 1;
            }
            j = j + 1;
        }
        assert(ys@.take(ys@.len() as int) =~= ys@);
        assert(xs@.take(i + 1).drop_last() =~= xs@.take(i as int));
        assert(n + m <= (i + 1) * 1326) by (nonlinear_arith)
            requires
                n <= i * 1326,
                m <= 1326,
        ;
        n = n + m;
        i = i + 1;
    }
    assert(xs@.take(xs@.len() as int) =~= xs@);
    n
}

// ---------------------------------------------------------------- suit symmetry

/// `(a, b, c, d)` is lexicographically smaller than `(e, f, g, h)`.
pub open spec fn lex_lt(x: (int, int, int, int), y: (int, int, int, int)) -> bool {
    x.0 < y.0 || (x.0 == y.0 && (x.1 < y.1 || (x.1 == y.1 && (x.2 < y.2 || (x.2 == y.2
        && x.3 < y.3)))))
}

/// Key of two hands after relabelling suits by permutation `p`: each hand higher card first.
pub open spec fn pair_key(p: int, x: (u8, u8), y: (u8, u8)) -> (int, int, int, int) {
    let a = relabel(p, x.0 as int);
    let b = relabel(p, x.1 as int);
    let c = relabel(p, y.0 as int);
    let d = relabel(p, y.1 as int);
    (
        if a >= b { a } else { b },
        if a >= b { b } else { a },
        if c >= d { c } else { d },
        if c >= d { d } else { c },
    )
}

/// Smallest key over the first `k` suit permutations (starting from `(255, 255, 255, 255)`).
pub open spec fn best_key(k: int, x: (u8, u8), y: (u8, u8)) -> (int, int, int, int)
    decreases k,
{
    if k <= 0 {
        (255, 255, 255, 255)
    } else {
        let b = best_key(k - 1, x, y);
        let q = pair_key(k - 1, x, y);
        if lex_lt(q, b) {
            q
        } else {
            b
        }
    }
}

/// Canonical form of two hands under the 24 permutations of the suits: the smallest key.
pub open spec fn spec_canon_pair(x: (u8, u8), y: (u8, u8)) -> (int, int, int, int) {
    best_key(24, x, y)
}

fn relabel_card(p: usize, c: Card) -> (r: u8)
    requires
        p < 24,
        c < 52,
    ensures
        r == relabel(p as int, c as int),
        r < 52,
{
    let s = PERMS[p][(c % 4) as usize];
    assert(PERMS@[p as int]@[(c % 4) as int] < 4) by {
        assert(forall|i: int, j: int| 0 <= i < 24 && 0 <= j < 4 ==> PERMS@[i]@[j] < 4);
    }
    (c / 4) * 4 + s
}

/// Canonical form of a pair of hands under suit permutations (two pairs of hands that
/// differ only by a renaming of the suits have the same form).
pub fn canon_pair(x: (Card, Card), y: (Card, Card)) -> (k: [u8; 4])
    requires
        x.0 < 52,
        x.1 < 52,
        y.0 < 52,
        y.1 < 52,
    ensures
        (k[0] as int, k[1] as int, k[2] as int, k[3] as int) == spec_canon_pair(x, y),
{
    let mut best = [255u8; 4];
    let mut p: usize = 0;
    while p < 24
        invariant
            p <= 24,
            x.0 < 52 && x.1 < 52 && y.0 < 52 && y.1 < 52,
            (best[0] as int, best[1] as int, best[2] as int, best[3] as int) == best_key(
                p as int,
                x,
                y,
            ),
        decreases 24 - p,
    {
        let a = relabel_card(p, x.0);
        let b = relabel_card(p, x.1);
        let c = relabel_card(p, y.0);
        let d = relabel_card(p, y.1);
        let k = [
            if a >= b { a } else { b },
            if a >= b { b } else { a },
            if c >= d { c } else { d },
            if c >= d { d } else { c },
        ];
        let less = k[0] < best[0] || (k[0] == best[0] && (k[1] < best[1] || (k[1] == best[1] && (
        k[2] < best[2] || (k[2] == best[2] && k[3] < best[3])))));
        if less {
            best = k;
        }
        p = p + 1;
    }
    best
}

} // verus!
