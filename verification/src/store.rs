//! How the store orders what it holds: tournaments by start time then id, hands by
//! tournament, time and id, and the hands of each tournament.
use vstd::prelude::*;
use crate::import::strs;
use crate::text::chars_of;

verus! {

/// Lexicographic order on character sequences (the order of `str`: UTF-8 bytes compare as
/// the code points they encode).
pub open spec fn seq_lt(a: Seq<char>, b: Seq<char>) -> bool
    decreases a.len(),
{
    if a.len() == 0 {
        b.len() > 0
    } else if b.len() == 0 {
        false
    } else if a[0] != b[0] {
        a[0] < b[0]
    } else {
        seq_lt(a.drop_first(), b.drop_first())
    }
}

/// A sort key: two numbers, then an id.
pub struct SortKey {
    pub major: i64,
    pub minor: i64,
    pub id: String,
}

pub open spec fn key_lt(x: (int, int, Seq<char>), y: (int, int, Seq<char>)) -> bool {
    x.0 < y.0 || (x.0 == y.0 && (x.1 < y.1 || (x.1 == y.1 && seq_lt(x.2, y.2))))
}

pub open spec fn key_of(k: SortKey) -> (int, int, Seq<char>) {
    (k.major as int, k.minor as int, k.id@)
}

/// Whether entry `x` comes before entry `y`: a smaller key, or the same key and a smaller
/// index (the sort is stable).
pub open spec fn before(keys: Seq<SortKey>, x: int, y: int) -> bool {
    key_lt(key_of(keys[x]), key_of(keys[y])) || (key_of(keys[x]) == key_of(keys[y]) && x < y)
}

/// `ord` lists each index below `n` once, each entry before the next.
pub open spec fn sorted_order(keys: Seq<SortKey>, ord: Seq<usize>, n: int) -> bool {
    &&& ord.len() == n
    &&& ord.no_duplicates()
    &&& forall|j: int| 0 <= j < ord.len() ==> #[trigger] ord[j] < n
    &&& forall|j: int, k: int| 0 <= j < k < ord.len() ==> before(keys, #[trigger] ord[j] as int, #[trigger] ord[k] as int)
}

proof fn lemma_seq_lt_irrefl(a: Seq<char>)
    ensures
        !seq_lt(a, a),
    decreases a.len(),
{
    if a.len() > 0 {
        lemma_seq_lt_irrefl(a.drop_first());
    }
}

proof fn lemma_seq_lt_trans(a: Seq<char>, b: Seq<char>, c: Seq<char>)
    requires
        seq_lt(a, b),
        seq_lt(b, c),
    ensures
        seq_lt(a, c),
    decreases a.len(),
{
    if a.len() > 0 && b.len() > 0 && c.len() > 0 && a[0] == b[0] && b[0] == c[0] {
        lemma_seq_lt_trans(a.drop_first(), b.drop_first(), c.drop_first());
    }
}

proof fn lemma_seq_lt_total(a: Seq<char>, b: Seq<char>)
    ensures
        a == b || seq_lt(a, b) || seq_lt(b, a),
    decreases a.len(),
{
    if a.len() > 0 && b.len() > 0 && a[0] == b[0] {
        lemma_seq_lt_total(a.drop_first(), b.drop_first());
        if a.drop_first() == b.drop_first() {
            assert(a =~= seq![a[0]] + a.drop_first());
            assert(b =~= seq![b[0]] + b.drop_first());
        }
    } else if a.len() == 0 && b.len() == 0 {
        assert(a =~= b);
    }
}

proof fn lemma_seq_lt_asym(a: Seq<char>, b: Seq<char>)
    requires
        seq_lt(a, b),
    ensures
        !seq_lt(b, a),
    decreases a.len(),
{
    if a.len() > 0 && b.len() > 0 && a[0] == b[0] {
        lemma_seq_lt_asym(a.drop_first(), b.drop_first());
    }
}

/// `before` is a strict total order on the indices of `keys`.
proof fn lemma_before_order(keys: Seq<SortKey>, x: int, y: int, z: int)
    ensures
        !before(keys, x, x),
        x != y ==> before(keys, x, y) || before(keys, y, x),
        before(keys, x, y) ==> !before(keys, y, x),
        before(keys, x, y) && before(keys, y, z) ==> before(keys, x, z),
{
    let kx = key_of(keys[x]);
    let ky = key_of(keys[y]);
    let kz = key_of(keys[z]);
    lemma_seq_lt_irrefl(kx.2);
    lemma_seq_lt_total(kx.2, ky.2);
    if seq_lt(kx.2, ky.2) {
        lemma_seq_lt_asym(kx.2, ky.2);
    }
    if seq_lt(kx.2, ky.2) && seq_lt(ky.2, kz.2) {
        lemma_seq_lt_trans(kx.2, ky.2, kz.2);
    }
    if seq_lt(kx.2, ky.2) && kx.2 == kz.2 {
        lemma_seq_lt_asym(kx.2, ky.2);
    }
}

/// Whether `a` comes before `b` in the order of `str`.
fn chars_less(a: &Vec<char>, b: &Vec<char>) -> (r: bool)
    ensures
        r == seq_lt(a@, b@),
{
    let mut i: usize = 0;
    assert(a@.skip(0) =~= a@ && b@.skip(0) =~= b@);
    while i < a.len() && i < b.len()
        invariant
            i <= a@.len(),
            i <= b@.len(),
            seq_lt(a@, b@) == seq_lt(a@.skip(i as int), b@.skip(i as int)),
        decreases a@.len() - i,
    {
        if a[i] != b[i] {
            assert(a@.skip(i as int)[0] == a@[i as int]);
            assert(b@.skip(i as int)[0] == b@[i as int]);
            return a[i] < b[i];
        }
        assert(a@.skip(i as int).drop_first() =~= a@.skip(i as int + 1));
        assert(b@.skip(i as int).drop_first() =~= b@.skip(i as int + 1));
        i = i + 1;
    }
    i < b.len()
}

/// Whether entry `x` comes before entry `y` (see `before`); `ids[i]` holds the characters of
/// `keys[i].id`.
fn entry_before(keys: &Vec<SortKey>, ids: &Vec<Vec<char>>, x: usize, y: usize) -> (r: bool)
    requires
        x < keys@.len(),
        y < keys@.len(),
        ids@.len() == keys@.len(),
        forall|i: int| 0 <= i < ids@.len() ==> #[trigger] ids@[i]@ == keys@[i].id@,
    ensures
        r == before(keys@, x as int, y as int),
{
    let kx = &keys[x];
    let ky = &keys[y];
    assert(ids@[x as int]@ == kx.id@ && ids@[y as int]@ == ky.id@);
    if kx.major != ky.major {
        return kx.major < ky.major;
    }
    if kx.minor != ky.minor {
        return kx.minor < ky.minor;
    }
    if chars_less(&ids[x], &ids[y]) {
        return true;
    }
    if chars_less(&ids[y], &ids[x]) {
        proof {
            lemma_seq_lt_asym(ky.id@, kx.id@);
            lemma_seq_lt_irrefl(kx.id@);
        }
        return false;
    }
    proof {
        lemma_seq_lt_total(kx.id@, ky.id@);
    }
    x < y
}

/// The order in which the entries of `keys` are sorted: by `major`, then `minor`, then `id`,
/// entries with equal keys in their given order. `keys[r[0]]` comes first.
pub fn sort_order(keys: &Vec<SortKey>) -> (r: Vec<usize>)
    ensures
        sorted_order(keys@, r@, keys@.len() as int),
{
    let n = keys.len();
    let mut ids: Vec<Vec<char>> = Vec::new();
    let mut i: usize = 0;
    while i < n
        invariant
            i <= n == keys@.len(),
            ids@.len() == i,
            forall|q: int| 0 <= q < i ==> #[trigger] ids@[q]@ == keys@[q].id@,
        decreases n - i,
    {
        ids.push(chars_of(keys[i].id.as_str()));
        i = i + 1;
    }
    let mut ord: Vec<usize> = Vec::new();
    let mut i: usize = 0;
    assert(ord@.no_duplicates());
    while i < n
        invariant
            i <= n == keys@.len(),
            ids@.len() == n,
            forall|q: int| 0 <= q < n ==> #[trigger] ids@[q]@ == keys@[q].id@,
            sorted_order(keys@, ord@, i as int),
        decreases n - i,
    {
        let mut p: usize = 0;
        while p < ord.len() && entry_before(keys, &ids, ord[p], i)
            invariant
                i < n == keys@.len(),
                ids@.len() == n,
                forall|q: int| 0 <= q < n ==> #[trigger] ids@[q]@ == keys@[q].id@,
                sorted_order(keys@, ord@, i as int),
                p <= ord@.len(),
                forall|q: int| 0 <= q < p ==> before(keys@, #[trigger] ord@[q] as int, i as int),
            decreases ord@.len() - p,
        {
            p = p + 1;
        }
        let ghost old_ord = ord@;
        proof {
            if p < old_ord.len() {
                lemma_before_order(keys@, old_ord[p as int] as int, i as int, i as int);
                assert forall|q: int| p <= q < old_ord.len() implies before(keys@, i as int, #[trigger] old_ord[q] as int) by {
                    if q > p {
                        lemma_before_order(keys@, i as int, old_ord[p as int] as int, old_ord[q] as int);
                    }
                }
            }
        }
        ord.insert(p, i);
        proof {
            let o = ord@;
            assert(o.len() == i + 1);
            assert forall|j: int| 0 <= j < o.len() implies #[trigger] o[j] < i + 1 by {
                if j < p {
                    assert(o[j] == old_ord[j]);
                } else if j > p {
                    assert(o[j] == old_ord[j - 1]);
                }
            }
            assert forall|j: int, k: int| 0 <= j < o.len() && 0 <= k < o.len() && j != k implies o[j] != o[k] by {
                if j != p && k != p {
                    let jj = if j < p { j } else { j - 1 };
                    let kk = if k < p { k } else { k - 1 };
                    assert(o[j] == old_ord[jj] && o[k] == old_ord[kk]);
                } else if j == p {
                    let kk = if k < p { k } else { k - 1 };
                    assert(o[k] == old_ord[kk]);
                } else {
                    let jj = if j < p { j } else { j - 1 };
                    assert(o[j] == old_ord[jj]);
                }
            }
            assert forall|j: int, k: int| 0 <= j < k < o.len() implies before(keys@, #[trigger] o[j] as int, #[trigger] o[k] as int) by {
                if k < p {
                    assert(o[j] == old_ord[j] && o[k] == old_ord[k]);
                } else if k == p {
                    assert(o[j] == old_ord[j]);
                } else if j < p {
                    assert(o[j] == old_ord[j] && o[k] == old_ord[k - 1]);
                } else if j == p {
                    assert(o[k] == old_ord[k - 1]);
                } else {
                    assert(o[j] == old_ord[j - 1] && o[k] == old_ord[k - 1]);
                }
            }
        }
        i = i + 1;
    }
    ord
}

/// The last of the first `k` positions of `ids` that holds `id`.
pub open spec fn last_index(ids: Seq<Seq<char>>, id: Seq<char>, k: int) -> Option<int>
    decreases k,
{
    if k <= 0 {
        None
    } else if ids[k - 1] == id {
        Some(k - 1)
    } else {
        last_index(ids, id, k - 1)
    }
}

/// The position of tournament `id` among the tournaments of the store, in their order
/// (the last one, should an id occur twice); none for a hand of an unknown tournament,
/// which the store leaves out.
pub fn tour_position(ids: &Vec<String>, id: &String) -> (r: Option<usize>)
    ensures
        r matches Some(j) ==> last_index(strs(ids@), id@, ids@.len() as int) == Some(j as int),
        r is None ==> last_index(strs(ids@), id@, ids@.len() as int) is None,
{
    let ghost ns = strs(ids@);
    let mut k: usize = ids.len();
    while k > 0
        invariant
            k <= ids@.len(),
            ns == strs(ids@),
            last_index(ns, id@, ids@.len() as int) == last_index(ns, id@, k as int),
        decreases k,
    {
        assert(ns[k - 1] == ids@[k - 1]@);
        if ids[k - 1] == *id {
            return Some(k - 1);
        }
        k = k - 1;
    }
    None
}

/// The first `k` positions of `hand_tour` that hold `t`, in order.
pub open spec fn positions_of(hand_tour: Seq<usize>, t: int, k: int) -> Seq<usize>
    decreases k,
{
    if k <= 0 {
        Seq::empty()
    } else {
        let prev = positions_of(hand_tour, t, k - 1);
        if hand_tour[k - 1] == t {
            prev.push((k - 1) as usize)
        } else {
            prev
        }
    }
}

/// The hands of each of `n` tournaments: `hand_tour[i]` is the tournament of hand `i`;
/// entry `t` of the result lists the hands of tournament `t` in the order of the hands.
pub fn tour_hands(hand_tour: &Vec<usize>, n: usize) -> (r: Vec<Vec<usize>>)
    ensures
        r@.len() == n,
        forall|t: int| 0 <= t < n ==> #[trigger] r@[t]@ == positions_of(hand_tour@, t, hand_tour@.len() as int),
{
    let mut out: Vec<Vec<usize>> = Vec::new();
    let mut t: usize = 0;
    while t < n
        invariant
            t <= n,
            out@.len() == t,
            forall|q: int| 0 <= q < t ==> #[trigger] out@[q]@ == positions_of(hand_tour@, q, hand_tour@.len() as int),
        decreases n - t,
    {
        let mut v: Vec<usize> = Vec::new();
        let mut i: usize = 0;
        while i < hand_tour.len()
            invariant
                i <= hand_tour@.len(),
                v@ == positions_of(hand_tour@, t as int, i as int),
            decreases hand_tour@.len() - i,
        {
            if hand_tour[i] == t {
                v.push(i);
            }
            i = i + 1;
        }
        out.push(v);
        t = t + 1;
    }
    out
}

/// A hand is listed under its own tournament, once, and under no other.
pub proof fn lemma_positions_of(hand_tour: Seq<usize>, t: int, k: int, i: usize)
    requires
        0 <= k <= hand_tour.len() <= usize::MAX,
    ensures
        positions_of(hand_tour, t, k).contains(i) <==> (i < k && hand_tour[i as int] == t),
        positions_of(hand_tour, t, k).no_duplicates(),
        forall|j: int| 0 <= j < positions_of(hand_tour, t, k).len() ==> #[trigger] positions_of(hand_tour, t, k)[j] < k,
    decreases k,
{
    if k > 0 {
        lemma_positions_of(hand_tour, t, k - 1, i);
        let prev = positions_of(hand_tour, t, k - 1);
        if hand_tour[k - 1] == t {
            let pp = prev.push((k - 1) as usize);
            assert(pp[prev.len() as int] == (k - 1) as usize);
            assert forall|a: int, b: int| 0 <= a < pp.len() && 0 <= b < pp.len() && a != b implies pp[a] != pp[b] by {
                if a < prev.len() && b < prev.len() {
                    assert(pp[a] == prev[a] && pp[b] == prev[b]);
                } else if a < prev.len() {
                    assert(pp[a] == prev[a] && prev[a] < k - 1);
                } else {
                    assert(pp[b] == prev[b] && prev[b] < k - 1);
                }
            }
            if i < k - 1 && hand_tour[i as int] == t {
                let j = choose|j: int| 0 <= j < prev.len() && prev[j] == i;
                assert(pp[j] == i);
            }
            if pp.contains(i) && i != k - 1 {
                let j = choose|j: int| 0 <= j < pp.len() && pp[j] == i;
                assert(j < prev.len());
                assert(prev[j] == i);
            }
        }
    }
}

/// What the store merges of two records of one tournament (a summary and a hand history,
/// say), beside the amounts: the name, the hero, the start and end times, the finishing
/// place (`0` when unknown) and the number of hands.
pub struct TourRecord {
    pub name: String,
    pub hero: String,
    pub start: i64,
    pub end: i64,
    pub place: u8,
    pub hands: u32,
}

/// Merges a second record of a tournament into the first: a place, hero or name the first
/// lacks is taken from the second; the start is the earlier known one (a start of `0` or
/// less is unknown); the end and the number of hands are the larger.
pub fn merge_tournament(a: &mut TourRecord, b: TourRecord)
    ensures
        final(a).place == if old(a).place == 0 && b.place != 0 { b.place } else { old(a).place },
        final(a).hero@ == if old(a).hero@.len() == 0 { b.hero@ } else { old(a).hero@ },
        final(a).name@ == if old(a).name@.len() == 0 { b.name@ } else { old(a).name@ },
        final(a).start == if b.start > 0 && (old(a).start == 0 || b.start < old(a).start) {
            b.start
        } else {
            old(a).start
        },
        final(a).end == if b.end > old(a).end { b.end } else { old(a).end },
        final(a).hands == if b.hands > old(a).hands { b.hands } else { old(a).hands },
{
    if a.place == 0 && b.place != 0 {
        a.place = b.place;
    }
    if a.hero.as_str().is_empty() {
        a.hero = b.hero;
    }
    if a.name.as_str().is_empty() {
        a.name = b.name;
    }
    if b.start > 0 && (a.start == 0 || b.start < a.start) {
        a.start = b.start;
    }
    if b.end > a.end {
        a.end = b.end;
    }
    if b.hands > a.hands {
        a.hands = b.hands;
    }
}

} // verus!
