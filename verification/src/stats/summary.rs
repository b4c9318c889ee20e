//! Summary figures: time played with several tables open at once.
use vstd::prelude::*;
use vstd::set_lib::{set_int_range, lemma_int_range, lemma_set_disjoint_lens, lemma_len_subset};

verus! {

/// Seconds covered by at least one of the spans `[start, end)` (a span that ends before it
/// starts covers nothing).
pub open spec fn covered(spans: Seq<(i64, i64)>) -> Set<int> {
    Set::new(|t: int| exists|i: int| #![trigger spans[i]] 0 <= i < spans.len() && spans[i].0 <= t < spans[i].1)
}

/// Order of std's tuples: by start, then by end.
pub open spec fn span_le(x: (i64, i64), y: (i64, i64)) -> bool {
    x.0 < y.0 || (x.0 == y.0 && x.1 <= y.1)
}

pub open spec fn spans_sorted(s: Seq<(i64, i64)>) -> bool {
    forall|i: int, j: int| 0 <= i < j < s.len() ==> span_le(s[i], s[j])
}

/// Time stamps the summary works with: far inside `i64`.
pub open spec fn in_time_range(x: i64) -> bool {
    -0x2000_0000_0000_0000 <= x <= 0x2000_0000_0000_0000
}

fn span_le_exec(x: (i64, i64), y: (i64, i64)) -> (r: bool)
    ensures
        r == span_le(x, y),
{
    x.0 < y.0 || (x.0 == y.0 && x.1 <= y.1)
}

/// Sorts spans in tuple order (insertion sort).
fn sort_spans(v: &Vec<(i64, i64)>) -> (out: Vec<(i64, i64)>)
    ensures
        out@.len() == v@.len(),
        spans_sorted(out@),
        forall|x: (i64, i64)| out@.contains(x) <==> v@.contains(x),
{
    let mut out: Vec<(i64, i64)> = Vec::new();
    let mut i: usize = 0;
    while i < v.len()
        invariant
            i <= v@.len(),
            out@.len() == i,
            spans_sorted(out@),
            forall|x: (i64, i64)| out@.contains(x) <==> v@.take(i as int).contains(x),
        decreases v@.len() - i,
    {
        let x = v[i];
        let mut j: usize = 0;
        while j < out.len() && span_le_exec(out[j], x)
            invariant
                j <= out@.len(),
                forall|q: int| 0 <= q < j ==> span_le(out@[q], x),
            decreases out@.len() - j,
        {
            j = j + 1;
        }
        let ghost old_out = out@;
        out.insert(j, x);
        proof {
            old_out.insert_ensures(j as int, x);
            assert(forall|q: int| j <= q < old_out.len() ==> !span_le(old_out[q], x)) by {
                assert forall|q: int| j <= q < old_out.len() implies !span_le(old_out[q], x) by {
                    if span_le(old_out[q], x) {
                        assert(span_le(old_out[j as int], old_out[q]));
                    }
                }
            }
            assert forall|a: int, b: int| 0 <= a < b < out@.len() implies span_le(out@[a], out@[b]) by {
                if a < j && b < j {
                    assert(out@[a] == old_out[a] && out@[b] == old_out[b]);
                } else if a < j && b == j {
                } else if a < j {
                    assert(out@[b] == old_out[b - 1]);
                    assert(span_le(old_out[a], old_out[b - 1]) || a == b - 1);
                } else if a == j {
                    assert(out@[b] == old_out[b - 1]);
                } else {
                    assert(out@[a] == old_out[a - 1] && out@[b] == old_out[b - 1]);
                }
            }
            assert(v@.take(i + 1) =~= v@.take(i as int).push(x));
            assert forall|y: (i64, i64)| out@.contains(y) <==> v@.take(i + 1).contains(y) by {
                if out@.contains(y) {
                    let w = choose|w: int| #![trigger out@[w]] 0 <= w < out@.len() && out@[w] == y;
                    if w < j {
                        assert(old_out[w] == y);
                    } else if w > j {
                        assert(old_out[w - 1] == y);
                    }
                    assert(old_out.contains(y) || y == x);
                }
                if old_out.contains(y) {
                    let w = choose|w: int| #![trigger old_out[w]] 0 <= w < old_out.len() && old_out[w] == y;
                    if w < j {
                        assert(out@[w] == y);
                    } else {
                        assert(out@[w + 1] == y);
                    }
                }
                if y == x {
                    assert(out@[j as int] == y);
                }
                let t1 = v@.take(i + 1);
                let t0 = v@.take(i as int);
                assert(t1.contains(y) <==> (t0.contains(y) || y == x)) by {
                    if t1.contains(y) {
                        let w = choose|w: int| #![trigger t1[w]] 0 <= w < t1.len() && t1[w] == y;
                        if w < i {
                            assert(t0[w] == y);
                        }
                    }
                    if t0.contains(y) {
                        let w = choose|w: int| #![trigger t0[w]] 0 <= w < t0.len() && t0[w] == y;
                        assert(t1[w] == y);
                    }
                    if y == x {
                        assert(t1[i as int] == y);
                    }
                }
            }
        }
        i = i + 1;
    }
    assert(v@.take(v@.len() as int) =~= v@);
    out
}

proof fn lemma_covered_same(a: Seq<(i64, i64)>, b: Seq<(i64, i64)>)
    requires
        forall|x: (i64, i64)| a.contains(x) <==> b.contains(x),
    ensures
        covered(a) == covered(b),
{
    assert forall|t: int| covered(a).contains(t) implies covered(b).contains(t) by {
        let i = choose|i: int| #![trigger a[i]] 0 <= i < a.len() && a[i].0 <= t < a[i].1;
        assert(a.contains(a[i]));
        let j = choose|j: int| #![trigger b[j]] 0 <= j < b.len() && b[j] == a[i];
    }
    assert forall|t: int| covered(b).contains(t) implies covered(a).contains(t) by {
        let i = choose|i: int| #![trigger b[i]] 0 <= i < b.len() && b[i].0 <= t < b[i].1;
        assert(b.contains(b[i]));
        let j = choose|j: int| #![trigger a[j]] 0 <= j < a.len() && a[j] == b[i];
    }
    assert(covered(a) =~= covered(b));
}

proof fn lemma_covered_push(s: Seq<(i64, i64)>, k: int)
    requires
        0 <= k < s.len(),
    ensures
        covered(s.take(k + 1)) == covered(s.take(k)) + set_int_range(s[k].0 as int, s[k].1 as int),
{
    let r = set_int_range(s[k].0 as int, s[k].1 as int);
    assert forall|t: int| covered(s.take(k + 1)).contains(t) implies (covered(s.take(k)) + r).contains(t) by {
        let t1 = s.take(k + 1);
        let i = choose|i: int| #![trigger t1[i]] 0 <= i < t1.len() && t1[i].0 <= t < t1[i].1;
        if i < k {
            assert(s.take(k)[i] == s[i]);
        }
    }
    assert forall|t: int| (covered(s.take(k)) + r).contains(t) implies covered(s.take(k + 1)).contains(t) by {
        if covered(s.take(k)).contains(t) {
            let t0 = s.take(k);
            let i = choose|i: int| #![trigger t0[i]] 0 <= i < t0.len() && t0[i].0 <= t < t0[i].1;
            assert(s.take(k + 1)[i] == s[i]);
        } else {
            assert(s.take(k + 1)[k] == s[k]);
        }
    }
    assert(covered(s.take(k + 1)) =~= covered(s.take(k)) + r);
}

/// Total time covered by tournaments played at once (the union of the spans
/// `[start, end)`; a tournament whose end is before its start counts from its start only):
/// multi-tabling does not count the same second twice.
pub fn union_seconds(spans: &Vec<(i64, i64)>) -> (total: i64)
    requires
        forall|i: int| 0 <= i < spans@.len() ==> in_time_range(spans@[i].0) && in_time_range(spans@[i].1),
    ensures
        covered(spans@).finite(),
        total == covered(spans@).len(),
{
    let mut iv: Vec<(i64, i64)> = Vec::new();
    let mut i: usize = 0;
    while i < spans.len()
        invariant
            i <= spans@.len(),
            iv@.len() == i,
            forall|q: int| 0 <= q < i ==> iv@[q] == (spans@[q].0, if spans@[q].1 >= spans@[q].0 {
                spans@[q].1
            } else {
                spans@[q].0
            }),
        decreases spans@.len() - i,
    {
        let (a, b) = spans[i];
        iv.push((a, if b >= a { b } else { a }));
        i = i + 1;
    }
    proof {
        assert forall|t: int| covered(spans@).contains(t) <==> covered(iv@).contains(t) by {
            if covered(spans@).contains(t) {
                let w = choose|w: int| #![trigger spans@[w]] 0 <= w < spans@.len() && spans@[w].0 <= t < spans@[w].1;
                assert(iv@[w].0 <= t < iv@[w].1);
            }
            if covered(iv@).contains(t) {
                let w = choose|w: int| #![trigger iv@[w]] 0 <= w < iv@.len() && iv@[w].0 <= t < iv@[w].1;
                assert(spans@[w].0 <= t < spans@[w].1);
            }
        }
        assert(covered(spans@) =~= covered(iv@));
    }
    let s = sort_spans(&iv);
    proof {
        lemma_covered_same(s@, iv@);
        assert forall|q: int| 0 <= q < s@.len() implies in_time_range(s@[q].0) && in_time_range(s@[q].1)
            && s@[q].0 <= s@[q].1 by {
            assert(s@.contains(s@[q]));
            let w = choose|w: int| #![trigger iv@[w]] 0 <= w < iv@.len() && iv@[w] == s@[q];
        }
    }
    let n = s.len();
    if n == 0 {
        proof {
            assert(covered(s@) =~= Set::empty());
        }
        return 0;
    }
    let mut total: i64 = 0;
    let mut ca: i64 = s[0].0;
    let mut cb: i64 = s[0].1;
    let ghost mut done: Set<int> = Set::empty();
    proof {
        lemma_covered_push(s@, 0);
        assert(covered(s@.take(0)) =~= Set::empty());
        assert(covered(s@.take(1)) =~= done + set_int_range(ca as int, cb as int));
        assert forall|q: int| 1 <= q < n implies ca <= s@[q].0 by {
            assert(span_le(s@[0], s@[q]));
        }
    }
    let mut k: usize = 1;
    while k < n
        invariant
            1 <= k <= n == s@.len(),
            spans_sorted(s@),
            forall|q: int| 0 <= q < s@.len() ==> in_time_range(s@[q].0) && in_time_range(s@[q].1)
                && s@[q].0 <= s@[q].1,
            in_time_range(ca) && in_time_range(cb),
            ca <= cb,
            forall|q: int| k <= q < n ==> ca <= s@[q].0,
            done.finite(),
            total == done.len(),
            forall|t: int| done.contains(t) ==> -0x2000_0000_0000_0000 <= t < ca,
            covered(s@.take(k as int)) == done + set_int_range(ca as int, cb as int),
        decreases n - k,
    {
        let (a, b) = s[k];
        proof {
            lemma_covered_push(s@, k as int);
            assert(forall|q: int| k < q < n ==> span_le(s@[k as int], s@[q]));
        }
        if a <= cb {
            let nb = if b >= cb { b } else { cb };
            proof {
                assert(set_int_range(ca as int, cb as int) + set_int_range(a as int, b as int)
                    =~= set_int_range(ca as int, nb as int));
                assert(done + set_int_range(ca as int, cb as int) + set_int_range(a as int, b as int)
                    =~= done + set_int_range(ca as int, nb as int));
            }
            cb = nb;
        } else {
            proof {
                let r = set_int_range(ca as int, cb as int);
                lemma_int_range(ca as int, cb as int);
                assert(done.disjoint(r));
                lemma_set_disjoint_lens(done, r);
                let big = set_int_range(-0x2000_0000_0000_0000, 0x2000_0000_0000_0001);
                lemma_int_range(-0x2000_0000_0000_0000, 0x2000_0000_0000_0001);
                assert((done + r).subset_of(big));
                lemma_len_subset(done + r, big);
                done = done + r;
            }
            total = total + (cb - ca);
            ca = a;
            cb = b;
            proof {
                assert(covered(s@.take(k + 1)) =~= done + set_int_range(ca as int, cb as int));
            }
        }
        k = k + 1;
    }
    proof {
        let r = set_int_range(ca as int, cb as int);
        lemma_int_range(ca as int, cb as int);
        assert(done.disjoint(r));
        lemma_set_disjoint_lens(done, r);
        let big = set_int_range(-0x2000_0000_0000_0000, 0x2000_0000_0000_0001);
        lemma_int_range(-0x2000_0000_0000_0000, 0x2000_0000_0000_0001);
        assert((done + r).subset_of(big));
        lemma_len_subset(done + r, big);
        assert(s@.take(n as int) =~= s@);
    }
    total + (cb - ca)
}

} // verus!
