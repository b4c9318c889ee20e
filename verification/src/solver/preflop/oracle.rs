//! Canonical flops (up to suit relabelling) and a weighted systematic sample of them.
use vstd::prelude::*;
use crate::model::Card;

verus! {

broadcast use vstd::array::axiom_array_ext_equal;

/// The 24 permutations of the four suits, in lexicographic order.
pub const PERMS: [[u8; 4]; 24] = [
    [0, 1, 2, 3], [0, 1, 3, 2], [0, 2, 1, 3], [0, 2, 3, 1], [0, 3, 1, 2], [0, 3, 2, 1],
    [1, 0, 2, 3], [1, 0, 3, 2], [1, 2, 0, 3], [1, 2, 3, 0], [1, 3, 0, 2], [1, 3, 2, 0],
    [2, 0, 1, 3], [2, 0, 3, 1], [2, 1, 0, 3], [2, 1, 3, 0], [2, 3, 0, 1], [2, 3, 1, 0],
    [3, 0, 1, 2], [3, 0, 2, 1], [3, 1, 0, 2], [3, 1, 2, 0], [3, 2, 0, 1], [3, 2, 1, 0],
];

/// Number of distinct three-card codes `x * 2704 + y * 52 + z`.
pub const NCODES: usize = 140608;

pub open spec fn perm_suit(p: int, s: int) -> int {
    PERMS@[p]@[s] as int
}

/// Card `x` with its suit relabelled by permutation `p`.
pub open spec fn relabel(p: int, x: int) -> int {
    (x / 4) * 4 + perm_suit(p, x % 4)
}

/// Code of a triple: lexicographic order on triples is numeric order on codes.
pub open spec fn code3(x: int, y: int, z: int) -> int {
    x * 2704 + y * 52 + z
}

/// Code of the triple `x, y, z` sorted in decreasing order.
pub open spec fn sorted_code(x: int, y: int, z: int) -> int {
    if x >= y && y >= z {
        code3(x, y, z)
    } else if x >= z && z >= y {
        code3(x, z, y)
    } else if y >= x && x >= z {
        code3(y, x, z)
    } else if y >= z && z >= x {
        code3(y, z, x)
    } else if z >= x && x >= y {
        code3(z, x, y)
    } else {
        code3(z, y, x)
    }
}

/// Smallest code of the decreasing-sorted relabelled flop over the first `n` permutations.
pub open spec fn canon_upto(a: int, b: int, c: int, n: int) -> int
    decreases n,
{
    if n <= 0 {
        NCODES as int
    } else {
        let prev = canon_upto(a, b, c, n - 1);
        let k = sorted_code(relabel(n - 1, a), relabel(n - 1, b), relabel(n - 1, c));
        if k < prev {
            k
        } else {
            prev
        }
    }
}

/// Code of the canonical form of the flop `a, b, c`: the smallest, over all suit
/// permutations, of the relabelled flop sorted in decreasing order.
pub open spec fn canon(a: int, b: int, c: int) -> int {
    canon_upto(a, b, c, 24)
}

/// The triple with index `t` (in `0..NCODES`) is a flop `a < b < c`.
pub open spec fn is_flop_index(t: int) -> bool {
    t / 2704 < (t / 52) % 52 && (t / 52) % 52 < t % 52
}

/// Number of flops with index below `t` whose canonical form has code `f`.
pub open spec fn flop_count(f: int, t: int) -> nat
    decreases t,
{
    if t <= 0 {
        0
    } else {
        flop_count(f, t - 1) + if is_flop_index(t - 1) && canon((t - 1) / 2704, ((t - 1) / 52) % 52, (t - 1) % 52) == f {
            1nat
        } else {
            0nat
        }
    }
}

/// Decoded triple of a code.
pub open spec fn decode3(k: int) -> [u8; 3] {
    [(k / 2704) as u8, ((k / 52) % 52) as u8, (k % 52) as u8]
}

/// Canonical flops among the codes below `n`, ascending, each with the number of flops
/// it stands for.
pub open spec fn canon_list(n: int) -> Seq<([u8; 3], u32)>
    decreases n,
{
    if n <= 0 {
        Seq::empty()
    } else {
        let prev = canon_list(n - 1);
        let w = flop_count(n - 1, NCODES as int);
        if w > 0 {
            prev.push((decode3(n - 1), w as u32))
        } else {
            prev
        }
    }
}

proof fn lemma_flop_count_le(f: int, t: int)
    requires
        t >= 0,
    ensures
        flop_count(f, t) <= t,
    decreases t,
{
    if t > 0 {
        lemma_flop_count_le(f, t - 1);
    }
}

fn sort3_code(x: u8, y: u8, z: u8) -> (k: u32)
    requires
        x < 52,
        y < 52,
        z < 52,
    ensures
        k == sorted_code(x as int, y as int, z as int),
        k < NCODES,
{
    let (p, q, r) = if x >= y && y >= z {
        (x, y, z)
    } else if x >= z && z >= y {
        (x, z, y)
    } else if y >= x && x >= z {
        (y, x, z)
    } else if y >= z && z >= x {
        (y, z, x)
    } else if z >= x && x >= y {
        (z, x, y)
    } else {
        (z, y, x)
    };
    p as u32 * 2704 + q as u32 * 52 + r as u32
}

fn relabel_exec(p: usize, x: u8) -> (r: u8)
    requires
        p < 24,
        x < 52,
    ensures
        r == relabel(p as int, x as int),
        r < 52,
{
    let s = PERMS[p][(x % 4) as usize];
    assert(PERMS@[p as int]@[(x % 4) as int] < 4) by {
        assert(forall|i: int, j: int| 0 <= i < 24 && 0 <= j < 4 ==> PERMS@[i]@[j] < 4);
    }
    (x / 4) * 4 + s
}

fn canon_exec(a: u8, b: u8, c: u8) -> (k: u32)
    requires
        a < 52,
        b < 52,
        c < 52,
    ensures
        k == canon(a as int, b as int, c as int),
        k < NCODES,
{
    let mut best: u32 = NCODES as u32;
    let mut p: usize = 0;
    while p < 24
        invariant
            p <= 24,
            a < 52 && b < 52 && c < 52,
            best == canon_upto(a as int, b as int, c as int, p as int),
            best <= NCODES,
        decreases 24 - p,
    {
        let k = sort3_code(relabel_exec(p, a), relabel_exec(p, b), relabel_exec(p, c));
        if k < best {
            best = k;
        }
        p = p + 1;
    }
    proof {
        lemma_canon_lt(a as int, b as int, c as int);
    }
    best
}

proof fn lemma_canon_lt(a: int, b: int, c: int)
    requires
        0 <= a < 52,
        0 <= b < 52,
        0 <= c < 52,
    ensures
        canon(a, b, c) < NCODES,
{
    assert(relabel(0, a) == a && relabel(0, b) == b && relabel(0, c) == c);
    lemma_canon_upto_le_first(a, b, c, 24);
}

proof fn lemma_canon_upto_le_first(a: int, b: int, c: int, n: int)
    requires
        1 <= n,
        0 <= a < 52,
        0 <= b < 52,
        0 <= c < 52,
    ensures
        canon_upto(a, b, c, n) <= sorted_code(relabel(0, a), relabel(0, b), relabel(0, c)),
    decreases n,
{
    if n > 1 {
        lemma_canon_upto_le_first(a, b, c, n - 1);
    }
}

/// Canonical flops (smallest representative under suit permutation), ascending, with the
/// number of the 22 100 flops each one stands for.
pub fn canonical_flops() -> (out: Vec<([Card; 3], u32)>)
    ensures
        out@ == canon_list(NCODES as int),
{
    let mut counts: Vec<u32> = Vec::new();
    let mut i: usize = 0;
    while i < NCODES
        invariant
            i <= NCODES,
            counts@.len() == i,
            forall|j: int| 0 <= j < i ==> counts@[j] == 0,
        decreases NCODES - i,
    {
        counts.push(0);
        i = i + 1;
    }
    let mut t: usize = 0;
    while t < NCODES
        invariant
            t <= NCODES,
            counts@.len() == NCODES,
            forall|f: int| 0 <= f < NCODES ==> counts@[f] == flop_count(f, t as int),
        decreases NCODES - t,
    {
        let a = (t / 2704) as u8;
        let b = ((t / 52) % 52) as u8;
        let c = (t % 52) as u8;
        let ghost old_counts = counts@;
        assert(a as int == t as int / 2704 && b as int == (t as int / 52) % 52 && c as int == t as int % 52);
        assert(is_flop_index(t as int) <==> a < b && b < c);
        if a < b && b < c {
            let k = canon_exec(a, b, c) as usize;
            proof {
                lemma_flop_count_le(k as int, t as int);
            }
            counts.set(k, counts[k] + 1);
        }
        assert forall|f: int| 0 <= f < NCODES implies counts@[f] == flop_count(f, t + 1) by {
            assert(flop_count(f, t + 1) == flop_count(f, t as int) + if is_flop_index(t as int) && canon(t as int / 2704, (t as int / 52) % 52, t as int % 52) == f { 1nat } else { 0nat });
        }
        t = t + 1;
    }
    let mut out: Vec<([Card; 3], u32)> = Vec::new();
    let mut k: usize = 0;
    while k < NCODES
        invariant
            k <= NCODES,
            counts@.len() == NCODES,
            forall|f: int| 0 <= f < NCODES ==> counts@[f] == flop_count(f, NCODES as int),
            out@ == canon_list(k as int),
        decreases NCODES - k,
    {
        let w = counts[k];
        if w > 0 {
            let f: [u8; 3] = [(k / 2704) as u8, ((k / 52) % 52) as u8, (k % 52) as u8];
            out.push((f, w));
        }
        k = k + 1;
    }
    out
}

/// Number of distinct suits on a flop.
pub open spec fn n_suits(f: [u8; 3]) -> int {
    let (s0, s1, s2) = (f[0] % 4, f[1] % 4, f[2] % 4);
    if s0 == s1 && s1 == s2 {
        1
    } else if s0 == s1 || s1 == s2 || s0 == s2 {
        2
    } else {
        3
    }
}

/// Texture order of a flop: fewer suits first, then higher first, second and third rank.
pub open spec fn texture_key(f: [u8; 3]) -> int {
    n_suits(f) * 4096 + (12 - f[0] / 4) * 256 + (12 - f[1] / 4) * 16 + (12 - f[2] / 4)
}

/// The entries of `l` whose texture key is `v`, in the order they come in `l`.
pub open spec fn with_key(l: Seq<([u8; 3], u32)>, v: int) -> Seq<([u8; 3], u32)>
    decreases l.len(),
{
    if l.len() == 0 {
        Seq::empty()
    } else {
        let prev = with_key(l.drop_last(), v);
        if texture_key(l.last().0) == v {
            prev.push(l.last())
        } else {
            prev
        }
    }
}

/// Stable sort of `l` by texture key, restricted to keys below `n`.
pub open spec fn by_texture(l: Seq<([u8; 3], u32)>, n: int) -> Seq<([u8; 3], u32)>
    decreases n,
{
    if n <= 0 {
        Seq::empty()
    } else {
        by_texture(l, n - 1) + with_key(l, n - 1)
    }
}

/// Keys of all flops lie below this bound.
pub const KEY_BOUND: u32 = 16384;

/// Total weight of the first `i` entries.
pub open spec fn cum(l: Seq<([u8; 3], u32)>, i: int) -> int
    decreases i,
{
    if i <= 0 || i > l.len() {
        0
    } else {
        cum(l, i - 1) + l[i - 1].1
    }
}

/// Sample point `j` of `k` (at fraction `(j + 1/2) / k` of the total weight) falls within
/// the cumulated weight of the first `i + 1` entries.
pub open spec fn reached(l: Seq<([u8; 3], u32)>, k: int, total: int, j: int, i: int) -> bool {
    (2 * j + 1) * total <= 2 * k * cum(l, i + 1)
}

/// Index of the entry that sample point `j` falls in (searching from `i`), or `l.len()`.
pub open spec fn pick_from(l: Seq<([u8; 3], u32)>, k: int, total: int, j: int, i: int) -> int
    decreases l.len() - i,
{
    if i >= l.len() {
        l.len() as int
    } else if reached(l, k, total, j, i) {
        i
    } else {
        pick_from(l, k, total, j, i + 1)
    }
}

/// Flops picked by the first `j` sample points, consecutive repeats removed.
pub open spec fn samples(l: Seq<([u8; 3], u32)>, k: int, total: int, j: int) -> Seq<[u8; 3]>
    decreases j,
{
    if j <= 0 {
        Seq::empty()
    } else {
        let prev = samples(l, k, total, j - 1);
        let i = pick_from(l, k, total, j - 1, 0);
        if i >= l.len() {
            prev
        } else if prev.len() > 0 && prev.last() == l[i].0 {
            prev
        } else {
            prev.push(l[i].0)
        }
    }
}

proof fn lemma_pick_from(l: Seq<([u8; 3], u32)>, k: int, total: int, j: int, i: int)
    requires
        0 <= i <= l.len(),
    ensures
        i <= pick_from(l, k, total, j, i) <= l.len(),
        pick_from(l, k, total, j, i) < l.len() ==> reached(l, k, total, j, pick_from(l, k, total, j, i)),
        forall|i2: int| i <= i2 < pick_from(l, k, total, j, i) ==> !reached(l, k, total, j, i2),
    decreases l.len() - i,
{
    if i < l.len() && !reached(l, k, total, j, i) {
        lemma_pick_from(l, k, total, j, i + 1);
    }
}

proof fn lemma_pick_monotone(l: Seq<([u8; 3], u32)>, k: int, total: int, j1: int, j2: int)
    requires
        0 <= j1 <= j2,
        total >= 0,
    ensures
        pick_from(l, k, total, j1, 0) <= pick_from(l, k, total, j2, 0),
{
    lemma_pick_from(l, k, total, j1, 0);
    lemma_pick_from(l, k, total, j2, 0);
    let p2 = pick_from(l, k, total, j2, 0);
    if p2 < l.len() {
        assert((2 * j1 + 1) * total <= (2 * j2 + 1) * total) by (nonlinear_arith)
            requires
                0 <= j1 <= j2,
                total >= 0,
        ;
        assert(reached(l, k, total, j1, p2));
    }
}

proof fn lemma_samples_stable(l: Seq<([u8; 3], u32)>, k: int, total: int, j: int, j2: int)
    requires
        0 <= j <= j2,
        total >= 0,
        pick_from(l, k, total, j, 0) >= l.len(),
    ensures
        samples(l, k, total, j2) == samples(l, k, total, j),
    decreases j2 - j,
{
    if j2 > j {
        lemma_samples_stable(l, k, total, j, j2 - 1);
        lemma_pick_monotone(l, k, total, j, j2 - 1);
        lemma_pick_from(l, k, total, j2 - 1, 0);
    }
}

proof fn lemma_canon_list_props(n: int)
    requires
        0 <= n <= NCODES,
    ensures
        canon_list(n).len() <= n,
        forall|e: int| 0 <= e < canon_list(n).len() ==> canon_list(n)[e].1 <= NCODES && canon_list(n)[e].0[0] < 52 && canon_list(n)[e].0[1] < 52 && canon_list(n)[e].0[2] < 52,
    decreases n,
{
    if n > 0 {
        lemma_canon_list_props(n - 1);
        lemma_flop_count_le(n - 1, NCODES as int);
    }
}

fn texture_key_exec(f: [u8; 3]) -> (k: u32)
    requires
        f[0] < 52,
        f[1] < 52,
        f[2] < 52,
    ensures
        k == texture_key(f),
        k < KEY_BOUND,
{
    let (s0, s1, s2) = (f[0] % 4, f[1] % 4, f[2] % 4);
    let ns: u32 = if s0 == s1 && s1 == s2 {
        1
    } else if s0 == s1 || s1 == s2 || s0 == s2 {
        2
    } else {
        3
    };
    ns * 4096 + (12 - (f[0] / 4) as u32) * 256 + (12 - (f[1] / 4) as u32) * 16 + (12 - (f[2] / 4) as u32)
}

/// Sample point `next` of `k` is reached once `acc` of the total weight is cumulated.
fn sample_due(next: usize, k: usize, total: u64, acc: u64) -> (r: bool)
    requires
        total <= KEY_BOUND * NCODES * NCODES,
        acc <= KEY_BOUND * NCODES * NCODES,
    ensures
        r == (next < k && (2 * next + 1) * total <= 2 * k * acc),
{
    if next >= k {
        return false;
    }
    let n = next as u128;
    let kk = k as u128;
    let t = total as u128;
    let a = acc as u128;
    proof {
        assert((2 * n + 1) * t <= 0x2_0000_0000_0000_0000 * 0x4_0000_0000_0000) by (nonlinear_arith)
            requires
                n < 0x1_0000_0000_0000_0000,
                t <= 0x4_0000_0000_0000,
        ;
        assert(2 * kk * a <= 0x2_0000_0000_0000_0000 * 0x4_0000_0000_0000) by (nonlinear_arith)
            requires
                kk < 0x1_0000_0000_0000_0000,
                a <= 0x4_0000_0000_0000,
        ;
    }
    (2 * n + 1) * t <= 2 * kk * a
}

/// `k` representative flops of equal weight: the canonical flops sorted by texture
/// (suits, then ranks), sampled at evenly spaced points of their cumulated frequency.
pub fn flop_subset(k: usize) -> (out: Vec<[Card; 3]>)
    ensures
        ({
            let sorted = by_texture(canon_list(NCODES as int), KEY_BOUND as int);
            out@ == samples(sorted, k as int, cum(sorted, sorted.len() as int), k as int)
        }),
{
    let all = canonical_flops();
    proof {
        lemma_canon_list_props(NCODES as int);
    }
    let n = all.len();
    let mut keys: Vec<u32> = Vec::new();
    let mut i: usize = 0;
    while i < n
        invariant
            i <= n,
            n == all@.len(),
            all@ == canon_list(NCODES as int),
            n <= NCODES,
            forall|e: int| 0 <= e < n ==> all@[e].1 <= NCODES && all@[e].0[0] < 52 && all@[e].0[1] < 52 && all@[e].0[2] < 52,
            keys@.len() == i,
            forall|e: int| 0 <= e < i ==> keys@[e] == texture_key(all@[e].0),
        decreases n - i,
    {
        keys.push(texture_key_exec(all[i].0));
        i = i + 1;
    }
    let mut sorted: Vec<([Card; 3], u32)> = Vec::new();
    let mut v: u32 = 0;
    while v < KEY_BOUND
        invariant
            v <= KEY_BOUND,
            n == all@.len(),
            n <= NCODES,
            keys@.len() == n,
            forall|e: int| 0 <= e < n ==> keys@[e] == texture_key(all@[e].0),
            forall|e: int| 0 <= e < n ==> all@[e].1 <= NCODES && all@[e].0[0] < 52 && all@[e].0[1] < 52 && all@[e].0[2] < 52,
            sorted@ == by_texture(all@, v as int),
            sorted@.len() <= v * n,
            forall|e: int| 0 <= e < sorted@.len() ==> sorted@[e].1 <= NCODES,
        decreases KEY_BOUND - v,
    {
        let mut i: usize = 0;
        let ghost base = sorted@;
        while i < n
            invariant
                i <= n,
                n == all@.len(),
                n <= NCODES,
                v < KEY_BOUND,
                keys@.len() == n,
                forall|e: int| 0 <= e < n ==> keys@[e] == texture_key(all@[e].0),
                forall|e: int| 0 <= e < n ==> all@[e].1 <= NCODES,
                base == by_texture(all@, v as int),
                sorted@ == base + with_key(all@.take(i as int), v as int),
                sorted@.len() <= v * n + i,
                forall|e: int| 0 <= e < sorted@.len() ==> sorted@[e].1 <= NCODES,
            decreases n - i,
        {
            proof {
                assert(all@.take(i + 1).drop_last() == all@.take(i as int));
                assert(all@.take(i + 1).last() == all@[i as int]);
            }
            if keys[i] == v {
                sorted.push(all[i]);
            }
            i = i + 1;
        }
        assert(all@.take(n as int) == all@);
        proof {
            assert(sorted@.len() <= (v + 1) * n) by (nonlinear_arith)
                requires
                    sorted@.len() <= v * n + n,
            ;
        }
        v = v + 1;
    }
    let ghost l = sorted@;
    let m = sorted.len();
    proof {
        assert(m <= KEY_BOUND * NCODES) by (nonlinear_arith)
            requires
                m <= KEY_BOUND * n,
                n <= NCODES,
        ;
    }
    let mut total: u64 = 0;
    let mut i: usize = 0;
    while i < m
        invariant
            i <= m,
            m == l.len(),
            l == sorted@,
            m <= KEY_BOUND * NCODES,
            forall|e: int| 0 <= e < m ==> l[e].1 <= NCODES,
            total == cum(l, i as int),
            total <= i * NCODES,
        decreases m - i,
    {
        total = total + sorted[i].1 as u64;
        i = i + 1;
    }
    let ghost tot = total as int;
    let kk = k as u128;
    let tt = total as u128;
    let mut out: Vec<[Card; 3]> = Vec::new();
    let mut acc: u64 = 0;
    let mut next: usize = 0;
    let mut i: usize = 0;
    proof {
        lemma_pick_from(l, k as int, tot, 0, 0);
        assert(tot <= KEY_BOUND * NCODES * NCODES) by (nonlinear_arith)
            requires
                tot <= m * NCODES,
                m <= KEY_BOUND * NCODES,
        ;
    }
    while i < m
        invariant
            i <= m,
            m == l.len(),
            l == sorted@,
            kk == k,
            tt == tot,
            total == tot,
            tot == cum(l, m as int),
            m <= KEY_BOUND * NCODES,
            forall|e: int| 0 <= e < m ==> l[e].1 <= NCODES,
            acc == cum(l, i as int),
            acc <= i * NCODES,
            tot <= m * NCODES,
            tot <= KEY_BOUND * NCODES * NCODES,
            next <= k,
            forall|j: int| 0 <= j < next ==> pick_from(l, k as int, tot, j, 0) < i,
            next < k ==> pick_from(l, k as int, tot, next as int, 0) >= i,
            out@ == samples(l, k as int, tot, next as int),
        decreases m - i,
    {
        let f = sorted[i].0;
        acc = acc + sorted[i].1 as u64;
        assert(acc == cum(l, i + 1));
        proof {
            assert(acc <= KEY_BOUND * NCODES * NCODES) by (nonlinear_arith)
                requires
                    acc <= (i + 1) * NCODES,
                    i < m,
                    m <= KEY_BOUND * NCODES,
            ;
        }
        let mut go = sample_due(next, k, total, acc);
        while go
            invariant
                go == (next < k && (2 * next + 1) * tot <= 2 * k * acc),
                i < m,
                m == l.len(),
                l == sorted@,
                f == l[i as int].0,
                kk == k,
                tt == tot,
                total == tot,
                tot <= KEY_BOUND * NCODES * NCODES,
                acc == cum(l, i + 1),
                acc <= KEY_BOUND * NCODES * NCODES,
                next <= k,
                forall|j: int| 0 <= j < next ==> pick_from(l, k as int, tot, j, 0) <= i,
                next < k ==> pick_from(l, k as int, tot, next as int, 0) >= i,
                out@ == samples(l, k as int, tot, next as int),
            decreases k - next,
        {
            proof {
                lemma_pick_from(l, k as int, tot, next as int, 0);
                assert(reached(l, k as int, tot, next as int, i as int));
                assert(pick_from(l, k as int, tot, next as int, 0) == i);
                lemma_pick_from(l, k as int, tot, next + 1, 0);
                lemma_pick_monotone(l, k as int, tot, next as int, next + 1);
            }
            let push = if out.len() == 0 {
                true
            } else {
                let last = out[out.len() - 1];
                let same = last[0] == f[0] && last[1] == f[1] && last[2] == f[2];
                proof {
                    if same {
                        assert(last =~= f);
                    }
                }
                !same
            };
            proof {
                let prev = samples(l, k as int, tot, next as int);
                assert(prev == out@);
                assert(samples(l, k as int, tot, next + 1) == (if prev.len() > 0 && prev.last() == l[i as int].0 { prev } else { prev.push(l[i as int].0) }));
                assert(push <==> !(prev.len() > 0 && prev.last() == f));
            }
            if push {
                out.push(f);
            }
            next = next + 1;
            go = sample_due(next, k, total, acc);
        }
        proof {
            if next < k {
                lemma_pick_from(l, k as int, tot, next as int, 0);
                assert(!reached(l, k as int, tot, next as int, i as int));
            }
        }
        i = i + 1;
    }
    proof {
        if next < k {
            lemma_pick_from(l, k as int, tot, next as int, 0);
            lemma_samples_stable(l, k as int, tot, next as int, k as int);
        }
    }
    out
}

} // verus!
