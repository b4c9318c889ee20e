//! Three-player tables: the 13 possible finishing orders and the dense index of unordered
//! triples of hand classes.
use vstd::prelude::*;
use crate::model::Card;
pub use crate::solver::preflop::classes::N;

verus! {

broadcast use vstd::array::axiom_array_ext_equal;

/// The 13 possible finishing orders of three players: rank of each (0 = best), ties shared.
pub const RANKS: [[u8; 3]; 13] = [
    [0, 1, 2], [0, 2, 1], [1, 0, 2], [2, 0, 1], [1, 2, 0], [2, 1, 0],
    [0, 0, 1], [0, 1, 0], [1, 0, 0],
    [0, 1, 1], [1, 0, 1], [1, 1, 0],
    [0, 0, 0],
];

/// `r` is one of the 13 finishing orders.
pub open spec fn is_order(r: [u8; 3]) -> bool {
    exists|k: int| 0 <= k < 13 && RANKS@[k] == r
}

/// Position of a finishing order in `RANKS`.
pub fn rank_index(r: [u8; 3]) -> (k: usize)
    requires
        is_order(r),
    ensures
        k < 13,
        RANKS@[k as int] == r,
{
    let mut k: usize = 0;
    while k < 13
        invariant
            k <= 13,
            is_order(r),
            forall|j: int| 0 <= j < k ==> RANKS@[j] != r,
        decreases 13 - k,
    {
        let x = RANKS[k];
        if x[0] == r[0] && x[1] == r[1] && x[2] == r[2] {
            assert(x =~= r);
            return k;
        }
        k = k + 1;
    }
    proof {
        let j = choose|j: int| 0 <= j < 13 && RANKS@[j] == r;
        assert(RANKS@[j] != r);
    }
    0
}

/// Number of distinct values among `s` strictly greater than `x`.
pub open spec fn distinct_greater(s: [u32; 3], x: u32) -> int {
    (if s[0] > x { 1int } else { 0 }) + (if s[1] > x && s[1] != s[0] { 1int } else { 0 }) + (if s[2]
        > x && s[2] != s[0] && s[2] != s[1] { 1int } else { 0 })
}

/// Dense ranks from hand strengths (larger strength is better): rank of a player = number
/// of distinct strengths above his.
pub fn ranks_of(s: [u32; 3]) -> (r: [u8; 3])
    ensures
        forall|i: int| 0 <= i < 3 ==> r[i] == distinct_greater(s, s[i]),
        is_order(r),
{
    let mut r = [0u8; 3];
    let mut i: usize = 0;
    while i < 3
        invariant
            i <= 3,
            forall|k: int| 0 <= k < i ==> r[k] == distinct_greater(s, s[k]),
        decreases 3 - i,
    {
        let x = s[i];
        let mut n: u8 = 0;
        if s[0] > x {
            n = n + 1;
        }
        if s[1] > x && s[1] != s[0] {
            n = n + 1;
        }
        if s[2] > x && s[2] != s[0] && s[2] != s[1] {
            n = n + 1;
        }
        r[i] = n;
        i = i + 1;
    }
    proof {
        lemma_ranks_are_orders(s, r);
    }
    r
}

/// Dense ranks of three strengths always form one of the 13 finishing orders.
pub proof fn lemma_ranks_are_orders(s: [u32; 3], r: [u8; 3])
    requires
        forall|i: int| 0 <= i < 3 ==> r[i] == distinct_greater(s, s[i]),
    ensures
        is_order(r),
{
    assert(r[0] == distinct_greater(s, s[0]));
    assert(r[1] == distinct_greater(s, s[1]));
    assert(r[2] == distinct_greater(s, s[2]));
    let (a, b, c) = (s[0], s[1], s[2]);
    let k: int = if a == b && b == c {
        12
    } else if a == b {
        if a > c { 6 } else { 11 }
    } else if a == c {
        if a > b { 7 } else { 10 }
    } else if b == c {
        if b > a { 8 } else { 9 }
    } else if a > b && b > c {
        0
    } else if a > c && c > b {
        1
    } else if b > a && a > c {
        2
    } else if b > c && c > a {
        3
    } else if c > a && a > b {
        4
    } else {
        5
    };
    assert(RANKS@[k] =~= r);
}

/// Number of triples `x <= y <= z` of classes with `x < a`.
pub open spec fn before_a(a: int) -> int
    decreases a,
{
    if a <= 0 {
        0
    } else {
        before_a(a - 1) + (N - (a - 1)) * (N - (a - 1) + 1) / 2
    }
}

/// Number of pairs `y <= z` with `a <= y < b`.
pub open spec fn before_b(a: int, b: int) -> int
    decreases b - a,
{
    if b <= a {
        0
    } else {
        before_b(a, b - 1) + (N - (b - 1))
    }
}

/// Index of the unordered triple `a <= b <= c`.
pub open spec fn spec_tri_index(a: int, b: int, c: int) -> int {
    before_a(a) + before_b(a, b) + (c - b)
}

proof fn lemma_before_a_bound(a: int)
    requires
        0 <= a <= N,
    ensures
        0 <= before_a(a) <= a * 14365,
    decreases a,
{
    if a > 0 {
        lemma_before_a_bound(a - 1);
        let k = N - (a - 1);
        assert(k * (k + 1) <= 28730) by (nonlinear_arith)
            requires
                1 <= k <= 169,
        ;
        assert(k * (k + 1) >= 0) by (nonlinear_arith)
            requires
                1 <= k,
        ;
    }
}

proof fn lemma_before_b_bound(a: int, b: int)
    requires
        0 <= a <= b <= N,
    ensures
        0 <= before_b(a, b) <= (b - a) * N,
    decreases b - a,
{
    if b > a {
        lemma_before_b_bound(a, b - 1);
    }
}

/// Index of an unordered triple `a <= b <= c` of classes.
pub fn tri_index(a: usize, b: usize, c: usize) -> (r: usize)
    requires
        a <= b <= c < N,
    ensures
        r == spec_tri_index(a as int, b as int, c as int),
{
    let n = N;
    let mut before: usize = 0;
    let mut x: usize = 0;
    while x < a
        invariant
            x <= a < N,
            n == N,
            before == before_a(x as int),
            before <= 2_500_000,
        decreases a - x,
    {
        proof {
            lemma_before_a_bound(x + 1);
            assert((x + 1) * 14365 <= 2_500_000) by (nonlinear_arith)
                requires
                    x + 1 <= 169,
            ;
        }
        let k = n - x;
        assert(k * (k + 1) <= 28730) by (nonlinear_arith)
            requires
                1 <= k <= 169,
        ;
        before = before + k * (k + 1) / 2;
        x = x + 1;
    }
    let mut bb: usize = 0;
    let mut y = a;
    while y < b
        invariant
            a <= y <= b < N,
            n == N,
            bb == before_b(a as int, y as int),
            bb <= (y - a) * 169,
        decreases b - y,
    {
        bb = bb + (n - y);
        y = y + 1;
    }
    before + bb + (c - b)
}

/// Number of unordered triples of classes.
pub open spec fn tetra(k: int) -> int {
    k * (k + 1) * (k + 2) / 6
}

/// Number of unordered triples of classes: N (N + 1) (N + 2) / 6.
pub fn n_triples() -> (r: usize)
    ensures
        r == tetra(N as int),
{
    N * (N + 1) * (N + 2) / 6
}

/// Two hands (pairs of cards) share no card.
pub open spec fn spec_compatible(x: (Card, Card), y: (Card, Card)) -> bool {
    x.0 != y.0 && x.0 != y.1 && x.1 != y.0 && x.1 != y.1
}

/// Two hands share no card.
pub fn compatible(x: (Card, Card), y: (Card, Card)) -> (r: bool)
    ensures
        r == spec_compatible(x, y),
{
    x.0 != y.0 && x.0 != y.1 && x.1 != y.0 && x.1 != y.1
}

/// Number of pairs `y <= z` of classes taken from `k` classes.
pub open spec fn tri(k: int) -> int {
    k * (k + 1) / 2
}

proof fn lemma_tri_step(k: int)
    requires
        0 <= k,
    ensures
        tri(k + 1) == tri(k) + (k + 1),
{
    assert((k + 1) * (k + 2) == k * (k + 1) + 2 * (k + 1)) by (nonlinear_arith);
}

proof fn lemma_tetra_step(k: int)
    requires
        0 <= k,
    ensures
        tetra(k + 1) == tetra(k) + tri(k + 1),
{
    assert((k + 1) * (k + 2) * (k + 3) == k * (k + 1) * (k + 2) + 3 * ((k + 1) * (k + 2)))
        by (nonlinear_arith);
    lemma_even_product(k + 1);
    lemma_six_divides(k);
    let p = k * (k + 1) * (k + 2);
    let e = (k + 1) * (k + 2);
    assert((p + 3 * e) / 6 == p / 6 + e / 2) by (nonlinear_arith)
        requires
            p % 6 == 0,
            e % 2 == 0,
    ;
}

proof fn lemma_even_product(k: int)
    requires
        0 <= k,
    ensures
        (k * (k + 1)) % 2 == 0,
    decreases k,
{
    if k > 0 {
        lemma_even_product(k - 1);
        let p = (k - 1) * k;
        assert(k * (k + 1) == p + 2 * k) by (nonlinear_arith)
            requires
                p == (k - 1) * k,
        ;
        assert((p + 2 * k) % 2 == 0) by (nonlinear_arith)
            requires
                p % 2 == 0,
        ;
    } else {
        assert(k * (k + 1) == 0) by (nonlinear_arith)
            requires
                k == 0,
        ;
    }
}

proof fn lemma_six_divides(k: int)
    requires
        0 <= k,
    ensures
        (k * (k + 1) * (k + 2)) % 6 == 0,
    decreases k,
{
    if k > 0 {
        lemma_six_divides(k - 1);
        lemma_even_product(k);
        let p = (k - 1) * k * (k + 1);
        let e = k * (k + 1);
        assert(k * (k + 1) * (k + 2) == p + 3 * e) by (nonlinear_arith)
            requires
                p == (k - 1) * k * (k + 1),
                e == k * (k + 1),
        ;
        assert((p + 3 * e) % 6 == 0) by (nonlinear_arith)
            requires
                p % 6 == 0,
                e % 2 == 0,
        ;
    } else {
        assert(k * (k + 1) * (k + 2) == 0) by (nonlinear_arith)
            requires
                k == 0,
        ;
    }
}

proof fn lemma_before_a_closed(a: int)
    requires
        0 <= a <= N,
    ensures
        before_a(a) == tetra(N as int) - tetra(N - a),
    decreases a,
{
    if a > 0 {
        lemma_before_a_closed(a - 1);
        lemma_tetra_step(N - a);
    }
}

proof fn lemma_before_b_closed(a: int, b: int)
    requires
        0 <= a <= b <= N,
    ensures
        before_b(a, b) == tri(N - a) - tri(N - b),
    decreases b - a,
{
    if b > a {
        lemma_before_b_closed(a, b - 1);
        lemma_tri_step(N - b);
    }
}

proof fn lemma_tetra_covers_tri(m: int)
    requires
        1 <= m,
    ensures
        tetra(m) >= tri(m),
        tri(m) >= m,
    decreases m,
{
    lemma_tetra_step(m - 1);
    lemma_tri_step(m - 1);
    if m > 1 {
        lemma_tetra_covers_tri(m - 1);
    } else {
        assert(tetra(0) == 0 && tri(0) == 0) by (nonlinear_arith);
    }
}

/// The index enumerates the unordered triples `a <= b <= c < N` densely in lexicographic
/// order: the first triple has index 0, each triple is followed by the next one with the
/// next index, and the last one has index `tetra(N) - 1`. Every index lies in
/// `[0, tetra(N))`.
pub proof fn lemma_tri_index_dense(a: int, b: int, c: int)
    requires
        0 <= a <= b <= c < N,
    ensures
        0 <= spec_tri_index(a, b, c) < tetra(N as int),
        spec_tri_index(0, 0, 0) == 0,
        c + 1 < N ==> spec_tri_index(a, b, c + 1) == spec_tri_index(a, b, c) + 1,
        c + 1 == N && b + 1 < N ==> spec_tri_index(a, b + 1, b + 1) == spec_tri_index(a, b, c)
            + 1,
        c + 1 == N && b + 1 == N && a + 1 < N ==> spec_tri_index(a + 1, a + 1, a + 1)
            == spec_tri_index(a, b, c) + 1,
        a + 1 == N ==> spec_tri_index(a, b, c) == tetra(N as int) - 1,
{
    lemma_before_a_closed(a);
    lemma_before_a_closed(a + 1);
    lemma_before_b_closed(a, b);
    lemma_before_b_closed(a, N - 1);
    lemma_before_b_closed(a, b + 1);
    lemma_before_a_bound(a);
    lemma_before_b_bound(a, b);
    lemma_tetra_covers_tri(N - a);
    lemma_tetra_covers_tri(N - b);
    assert(tri(1) == 1 && tetra(1) == 1) by (nonlinear_arith);
    assert(before_b(0, 0) == 0 && before_a(0) == 0);
}

} // verus!
