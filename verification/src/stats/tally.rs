//! Decision tallies of the leak finder: for each spot (the key of a decision), how often each
//! class of decision was taken, overall and per effective-stack bucket.
use vstd::prelude::*;
use crate::import::{has_str, strs};
use crate::analysis::Scenario;
use crate::stats::leaks::Decision;

verus! {

/// Tallies of decisions by key. Row `r` belongs to `keys[r]`: `counts[4 * r + c]` is the number
/// of decisions of class `c` (0 all-in, 1 raise, 2 call or check, 3 fold) and
/// `buckets[40 * r + 4 * b + c]` the number of them taken in stack bucket `b` (0 to 9).
/// `total` is the number of decisions added so far.
pub struct DecisionTally {
    pub keys: Vec<String>,
    pub counts: Vec<u32>,
    pub buckets: Vec<u32>,
    pub total: u32,
}

/// Number of decisions in `ds` with this key and class.
pub open spec fn tally(ds: Seq<Decision>, key: Seq<char>, c: int) -> int
    decreases ds.len(),
{
    if ds.len() == 0 {
        0
    } else {
        tally(ds.drop_last(), key, c) + if ds.last().key@ == key && ds.last().class == c {
            1int
        } else {
            0
        }
    }
}

/// Number of decisions in `ds` with this key and class, taken in stack bucket `b`.
pub open spec fn tally_bucket(ds: Seq<Decision>, key: Seq<char>, b: int, c: int) -> int
    decreases ds.len(),
{
    if ds.len() == 0 {
        0
    } else {
        tally_bucket(ds.drop_last(), key, b, c) + if ds.last().key@ == key && ds.last().bucket
            == b && ds.last().class == c {
            1int
        } else {
            0
        }
    }
}

/// Whether every decision of `ds` has a class and a bucket that the tally has room for.
pub open spec fn decisions_fit(ds: Seq<Decision>) -> bool {
    forall|i: int| 0 <= i < ds.len() ==> #[trigger] ds[i].class < 4 && ds[i].bucket < 10
}

impl DecisionTally {
    /// The keys, in the order in which they were first seen.
    pub open spec fn key_seq(&self) -> Seq<Seq<char>> {
        strs(self.keys@)
    }

    /// The row of a key, if it has one.
    pub open spec fn row(&self, key: Seq<char>) -> Option<int> {
        if exists|r: int| 0 <= r < self.key_seq().len() && self.key_seq()[r] == key {
            Some(choose|r: int| 0 <= r < self.key_seq().len() && self.key_seq()[r] == key)
        } else {
            None
        }
    }

    pub open spec fn wf(&self) -> bool {
        &&& self.counts@.len() == 4 * self.keys@.len()
        &&& self.buckets@.len() == 40 * self.keys@.len()
        &&& self.key_seq().no_duplicates()
        &&& forall|i: int| 0 <= i < self.counts@.len() ==> #[trigger] self.counts@[i] <= self.total
        &&& forall|i: int| 0 <= i < self.buckets@.len() ==> #[trigger] self.buckets@[i] <= self.total
    }

    /// How many decisions of class `c` were tallied under this key.
    pub open spec fn count(&self, key: Seq<char>, c: int) -> int {
        match self.row(key) {
            Some(r) => self.counts@[4 * r + c] as int,
            None => 0,
        }
    }

    /// How many decisions of class `c` were tallied under this key in stack bucket `b`.
    pub open spec fn bucket_count(&self, key: Seq<char>, b: int, c: int) -> int {
        match self.row(key) {
            Some(r) => self.buckets@[40 * r + 4 * b + c] as int,
            None => 0,
        }
    }

    /// An empty tally.
    pub fn new() -> (t: Self)
        ensures
            t.wf(),
            t.total == 0,
            t.key_seq() == Seq::<Seq<char>>::empty(),
            forall|k: Seq<char>, c: int| #[trigger] t.count(k, c) == 0,
            forall|k: Seq<char>, b: int, c: int| #[trigger] t.bucket_count(k, b, c) == 0,
    {
        let t = DecisionTally { keys: Vec::new(), counts: Vec::new(), buckets: Vec::new(), total: 0 };
        assert(t.key_seq() =~= Seq::<Seq<char>>::empty());
        t
    }

    /// The row of a key.
    fn find(&self, key: &String) -> (r: Option<usize>)
        requires
            self.wf(),
        ensures
            r matches Some(q) ==> self.row(key@) == Some(q as int) && q < self.keys@.len(),
            r is None ==> self.row(key@) is None,
    {
        let mut i: usize = 0;
        while i < self.keys.len()
            invariant
                i <= self.keys@.len(),
                self.wf(),
                forall|j: int| 0 <= j < i ==> self.keys@[j]@ != key@,
            decreases self.keys@.len() - i,
        {
            if self.keys[i] == *key {
                proof {
                    let ks = self.key_seq();
                    assert(ks[i as int] == key@);
                    let q = choose|r: int| 0 <= r < ks.len() && ks[r] == key@;
                    assert(q == i as int) by {
                        if q != i as int {
                            assert(ks[q] == ks[i as int]);
                        }
                    }
                }
                return Some(i);
            }
            i = i + 1;
        }
        proof {
            let ks = self.key_seq();
            if exists|r: int| 0 <= r < ks.len() && ks[r] == key@ {
                let q = choose|r: int| 0 <= r < ks.len() && ks[r] == key@;
                assert(self.keys@[q]@ == key@);
            }
        }
        None
    }

    /// Tallies one decision of class `class`, taken in stack bucket `bucket`, under `key`. A
    /// key seen for the first time gets a new row, after the others.
    pub fn add(&mut self, key: &String, class: usize, bucket: usize)
        requires
            old(self).wf(),
            class < 4,
            bucket < 10,
            old(self).total < u32::MAX,
        ensures
            final(self).wf(),
            final(self).total == old(self).total + 1,
            final(self).key_seq() == (if old(self).row(key@) is Some {
                old(self).key_seq()
            } else {
                old(self).key_seq().push(key@)
            }),
            forall|k: Seq<char>, c: int|
                0 <= c < 4 ==> #[trigger] final(self).count(k, c) == old(self).count(k, c) + if k
                    == key@ && c == class {
                    1int
                } else {
                    0
                },
            forall|k: Seq<char>, b: int, c: int|
                0 <= b < 10 && 0 <= c < 4 ==> #[trigger] final(self).bucket_count(k, b, c) == old(
                    self,
                ).bucket_count(k, b, c) + if k == key@ && b == bucket && c == class {
                    1int
                } else {
                    0
                },
    {
        let ghost pre = *self;
        let found = self.find(key);
        assert(found is Some ==> pre.row(key@) is Some && found->0 as int == pre.row(key@)->0);
        assert(found is None ==> pre.row(key@) is None);
        let r: usize = match found {
            Some(q) => q,
            None => {
                let n = self.keys.len();
                let mut j: usize = 0;
                while j < 4
                    invariant
                        j <= 4,
                        n == pre.keys@.len(),
                        pre.wf(),
                        self.keys@ == pre.keys@,
                        self.total == pre.total,
                        self.buckets@ == pre.buckets@,
                        self.counts@.len() == 4 * n + j,
                        self.counts@.subrange(0, 4 * n as int) == pre.counts@,
                        forall|q: int| 4 * n <= q < self.counts@.len() ==> #[trigger] self.counts@[q] == 0,
                    decreases 4 - j,
                {
                    self.counts.push(0);
                    j = j + 1;
                }
                let ghost grown = self.counts@;
                let mut j: usize = 0;
                while j < 40
                    invariant
                        j <= 40,
                        n == pre.keys@.len(),
                        pre.wf(),
                        self.keys@ == pre.keys@,
                        self.total == pre.total,
                        self.counts@ == grown,
                        self.buckets@.len() == 40 * n + j,
                        self.buckets@.subrange(0, 40 * n as int) == pre.buckets@,
                        forall|q: int| 40 * n <= q < self.buckets@.len() ==> #[trigger] self.buckets@[q] == 0,
                    decreases 40 - j,
                {
                    self.buckets.push(0);
                    j = j + 1;
                }
                self.keys.push(key.clone());
                n
            },
        };
        let ghost mid = *self;
        proof {
            assert(mid.keys@.len() == pre.keys@.len() || mid.keys@.len() == pre.keys@.len() + 1);
            if found is None {
                assert(mid.key_seq() =~= pre.key_seq().push(key@));
                let ks = mid.key_seq();
                let n = pre.keys@.len() as int;
                assert forall|i: int, j: int| 0 <= i < ks.len() && 0 <= j < ks.len() && i != j
                    implies ks[i] != ks[j] by {
                    if i == n {
                        assert(pre.key_seq()[j] != key@);
                    } else if j == n {
                        assert(pre.key_seq()[i] != key@);
                    } else {
                        assert(pre.key_seq()[i] != pre.key_seq()[j]);
                    }
                }
                assert(!pre.key_seq().contains(key@));
                assert forall|q: int| 0 <= q < mid.counts@.len() implies #[trigger] mid.counts@[q]
                    <= pre.total by {
                    if q < pre.counts@.len() {
                        assert(mid.counts@[q] == mid.counts@.subrange(0, pre.counts@.len() as int)[q]);
                    }
                }
                assert forall|q: int| 0 <= q < mid.buckets@.len() implies #[trigger] mid.buckets@[q]
                    <= pre.total by {
                    if q < pre.buckets@.len() {
                        assert(mid.buckets@[q] == mid.buckets@.subrange(0, pre.buckets@.len() as int)[q]);
                    }
                }
            } else {
                assert(mid.key_seq() =~= pre.key_seq());
                let ks = pre.key_seq();
                assert(pre.row(key@) is Some);
                let q = pre.row(key@)->0;
                assert(0 <= q < ks.len() && ks[q] == key@);
                assert(r as int == q);
                assert(ks[r as int] == key@);
            }
            assert(mid.key_seq()[r as int] == key@);
            assert(r < mid.keys@.len());
            assert(mid.counts@.len() == 4 * mid.keys@.len());
            assert(mid.buckets@.len() == 40 * mid.keys@.len());
            assert(4 * r + class < mid.counts@.len());
            assert(40 * r + 4 * bucket + class < mid.buckets@.len());
        }
        let cl = self.counts.len();
        let bl = self.buckets.len();
        assert(4 * r + class < cl && 40 * r + 4 * bucket + class < bl);
        let ci = 4 * r + class;
        let v = self.counts[ci];
        self.counts.set(ci, v + 1);
        let bi = 40 * r + 4 * bucket + class;
        let w = self.buckets[bi];
        self.buckets.set(bi, w + 1);
        self.total = self.total + 1;
        proof {
            let ks = mid.key_seq();
            assert(self.key_seq() =~= ks);
            assert forall|q: int| 0 <= q < self.counts@.len() implies #[trigger] self.counts@[q]
                <= self.total by {
                if q != ci as int {
                    assert(self.counts@[q] == mid.counts@[q]);
                }
            }
            assert forall|q: int| 0 <= q < self.buckets@.len() implies #[trigger] self.buckets@[q]
                <= self.total by {
                if q != bi as int {
                    assert(self.buckets@[q] == mid.buckets@[q]);
                }
            }
            assert forall|k: Seq<char>, c: int| 0 <= c < 4 implies #[trigger] self.count(k, c)
                == pre.count(k, c) + if k == key@ && c == class {
                1int
            } else {
                0
            } by {
                self.lemma_row_stable(pre, k);
                if self.row(k) is Some {
                    let q = self.row(k)->0;
                    assert(0 <= q < ks.len() && ks[q] == k);
                    if k == key@ {
                        assert(q == r as int) by {
                            if q != r as int {
                                assert(ks[q] == ks[r as int]);
                            }
                        }
                    } else {
                        assert(q != r as int);
                        assert(4 * q + c != ci as int) by (nonlinear_arith)
                            requires q != r as int, 0 <= c < 4, 0 <= class < 4, ci == 4 * r + class;
                        if found is None && q == pre.keys@.len() {
                            assert(ks[q] == key@);
                        }
                        if q < pre.keys@.len() {
                            assert(mid.counts@[4 * q + c] == mid.counts@.subrange(0, pre.counts@.len() as int)[4 * q + c]);
                        }
                    }
                }
            }
            assert forall|k: Seq<char>, b: int, c: int| 0 <= b < 10 && 0 <= c < 4 implies
                #[trigger] self.bucket_count(k, b, c) == pre.bucket_count(k, b, c) + if k == key@ && b
                == bucket && c == class {
                1int
            } else {
                0
            } by {
                self.lemma_row_stable(pre, k);
                if self.row(k) is Some {
                    let q = self.row(k)->0;
                    assert(0 <= q < ks.len() && ks[q] == k);
                    if k == key@ {
                        assert(q == r as int) by {
                            if q != r as int {
                                assert(ks[q] == ks[r as int]);
                            }
                        }
                    } else {
                        assert(q != r as int);
                        assert(40 * q + 4 * b + c != bi as int) by (nonlinear_arith)
                            requires q != r as int, 0 <= c < 4, 0 <= b < 10, 0 <= class < 4, bucket < 10,
                                bi == 40 * r + 4 * bucket + class;
                        if found is None && q == pre.keys@.len() {
                            assert(ks[q] == key@);
                        }
                        if q < pre.keys@.len() {
                            assert(mid.buckets@[40 * q + 4 * b + c] == mid.buckets@.subrange(0, pre.buckets@.len() as int)[40 * q + 4 * b + c]);
                        }
                    }
                }
            }
        }
    }

    /// Tallies the decisions of a hand, in order.
    pub fn add_decisions(&mut self, ds: &Vec<Decision>)
        requires
            old(self).wf(),
            decisions_fit(ds@),
            old(self).total + ds@.len() <= u32::MAX,
        ensures
            final(self).wf(),
            final(self).total == old(self).total + ds@.len(),
            forall|k: Seq<char>, c: int|
                0 <= c < 4 ==> #[trigger] final(self).count(k, c) == old(self).count(k, c) + tally(
                    ds@,
                    k,
                    c,
                ),
            forall|k: Seq<char>, b: int, c: int|
                0 <= b < 10 && 0 <= c < 4 ==> #[trigger] final(self).bucket_count(k, b, c) == old(
                    self,
                ).bucket_count(k, b, c) + tally_bucket(ds@, k, b, c),
    {
        let ghost pre = *self;
        let mut i: usize = 0;
        while i < ds.len()
            invariant
                i <= ds@.len(),
                self.wf(),
                decisions_fit(ds@),
                pre.total + ds@.len() <= u32::MAX,
                self.total == pre.total + i,
                forall|k: Seq<char>, c: int|
                    0 <= c < 4 ==> #[trigger] self.count(k, c) == pre.count(k, c) + tally(
                        ds@.take(i as int),
                        k,
                        c,
                    ),
                forall|k: Seq<char>, b: int, c: int|
                    0 <= b < 10 && 0 <= c < 4 ==> #[trigger] self.bucket_count(k, b, c)
                        == pre.bucket_count(k, b, c) + tally_bucket(ds@.take(i as int), k, b, c),
            decreases ds@.len() - i,
        {
            let ghost before = *self;
            let d = &ds[i];
            assert(d.class < 4 && d.bucket < 10);
            self.add(&d.key, d.class, d.bucket);
            proof {
                let t = ds@.take(i as int + 1);
                assert(t.drop_last() =~= ds@.take(i as int));
                assert(t.last() == ds@[i as int]);
                assert forall|k: Seq<char>, c: int| 0 <= c < 4 implies #[trigger] self.count(k, c)
                    == pre.count(k, c) + tally(t, k, c) by {
                    assert(before.count(k, c) == pre.count(k, c) + tally(ds@.take(i as int), k, c));
                }
                assert forall|k: Seq<char>, b: int, c: int| 0 <= b < 10 && 0 <= c < 4 implies
                    #[trigger] self.bucket_count(k, b, c) == pre.bucket_count(k, b, c)
                    + tally_bucket(t, k, b, c) by {
                    assert(before.bucket_count(k, b, c) == pre.bucket_count(k, b, c) + tally_bucket(
                        ds@.take(i as int),
                        k,
                        b,
                        c,
                    ));
                }
            }
            i = i + 1;
        }
        assert(ds@.take(ds@.len() as int) =~= ds@);
    }

    /// How many decisions of class `class` were tallied under `key`.
    pub fn count_of(&self, key: &String, class: usize) -> (r: u32)
        requires
            self.wf(),
            class < 4,
        ensures
            r == self.count(key@, class as int),
    {
        match self.find(key) {
            Some(q) => {
                let cl = self.counts.len();
                assert(4 * q + class < cl);
                self.counts[4 * q + class]
            },
            None => 0,
        }
    }

    /// How many decisions of class `class` were tallied under `key` in stack bucket `bucket`.
    pub fn bucket_count_of(&self, key: &String, bucket: usize, class: usize) -> (r: u32)
        requires
            self.wf(),
            bucket < 10,
            class < 4,
        ensures
            r == self.bucket_count(key@, bucket as int, class as int),
    {
        match self.find(key) {
            Some(q) => {
                let bl = self.buckets.len();
                assert(40 * q + 4 * bucket + class < bl);
                self.buckets[40 * q + 4 * bucket + class]
            },
            None => 0,
        }
    }

    /// A key keeps its row when a row is added after the others, and the added row is the
    /// key's own.
    proof fn lemma_row_stable(&self, pre: Self, k: Seq<char>)
        requires
            pre.key_seq().no_duplicates(),
            self.key_seq().no_duplicates(),
            self.key_seq() == pre.key_seq() || (exists|x: Seq<char>| self.key_seq() == pre.key_seq().push(x) && !pre.key_seq().contains(x)),
        ensures
            pre.row(k) is Some ==> self.row(k) == pre.row(k),
            self.row(k) is Some && self.row(k)->0 < pre.key_seq().len() ==> self.row(k) == pre.row(k),
    {
        let a = pre.key_seq();
        let s = self.key_seq();
        if pre.row(k) is Some {
            let q = pre.row(k)->0;
            assert(0 <= q < a.len() && a[q] == k);
            assert(s[q] == k);
            let q2 = self.row(k)->0;
            assert(0 <= q2 < s.len() && s[q2] == k);
            if q2 != q {
                assert(s[q2] == s[q]);
            }
        }
        if self.row(k) is Some && self.row(k)->0 < a.len() {
            let q2 = self.row(k)->0;
            assert(a[q2] == k);
        }
    }
}

/// Whether seat `i` of a hand goes to the reference population: not the player's own seat
/// `me`, not a hero's seat when the player is a hero, and, with a tag reference, only the
/// players that carry the tag.
pub open spec fn keeps_seat(
    names: Seq<Seq<char>>,
    i: int,
    me: Option<usize>,
    heroes: Seq<Seq<char>>,
    player_is_hero: bool,
    tagged: Option<Seq<Seq<char>>>,
) -> bool {
    &&& (match me {
        Some(m) => m != i,
        None => true,
    })
    &&& !(player_is_hero && heroes.contains(names[i]))
    &&& (match tagged {
        Some(t) => t.contains(names[i]),
        None => true,
    })
}

/// The seats among the first `k` that go to the reference population, in order.
pub open spec fn kept_seats(
    names: Seq<Seq<char>>,
    me: Option<usize>,
    heroes: Seq<Seq<char>>,
    player_is_hero: bool,
    tagged: Option<Seq<Seq<char>>>,
    k: int,
) -> Seq<usize>
    decreases k,
{
    if k <= 0 {
        Seq::empty()
    } else {
        let prev = kept_seats(names, me, heroes, player_is_hero, tagged, k - 1);
        if keeps_seat(names, k - 1, me, heroes, player_is_hero, tagged) {
            prev.push((k - 1) as usize)
        } else {
            prev
        }
    }
}

pub open spec fn tag_view(tagged: Option<Vec<String>>) -> Option<Seq<Seq<char>>> {
    match tagged {
        Some(v) => Some(strs(v@)),
        None => None,
    }
}

/// The seats of a hand (`names`, in seat order) whose decisions go to the reference
/// population of the leak finder; `tagged` holds the players of a tag reference.
pub fn reference_seats(
    names: &Vec<String>,
    me: Option<usize>,
    heroes: &Vec<String>,
    player_is_hero: bool,
    tagged: &Option<Vec<String>>,
) -> (r: Vec<usize>)
    ensures
        r@ == kept_seats(strs(names@), me, strs(heroes@), player_is_hero, tag_view(*tagged), names@.len() as int),
{
    let ghost ns = strs(names@);
    let mut out: Vec<usize> = Vec::new();
    let mut i: usize = 0;
    while i < names.len()
        invariant
            i <= names@.len(),
            ns == strs(names@),
            out@ == kept_seats(ns, me, strs(heroes@), player_is_hero, tag_view(*tagged), i as int),
        decreases names@.len() - i,
    {
        let name = &names[i];
        assert(ns[i as int] == name@);
        let mine = match me {
            Some(m) => m == i,
            None => false,
        };
        let hero_seat = player_is_hero && has_str(heroes, name);
        let in_tag = match tagged {
            Some(t) => has_str(t, name),
            None => true,
        };
        if !mine && !hero_seat && in_tag {
            out.push(i);
        }
        i = i + 1;
    }
    out
}

/// The scenario of the leak finder's `j`-th panel: BTN, SB vs BTN, SB vs BB, BB vs BTN,
/// BB vs SB, HU SB, HU BB.
pub open spec fn panel_scenario(j: int) -> Scenario {
    if j == 0 {
        Scenario::Btn
    } else if j == 1 {
        Scenario::SbVsBtn
    } else if j == 2 {
        Scenario::SbVsBb
    } else if j == 3 {
        Scenario::BbVsBtn
    } else if j == 4 {
        Scenario::BbVsSb
    } else if j == 5 {
        Scenario::HuSb
    } else {
        Scenario::HuBb
    }
}

/// The panel of a scenario.
pub fn panel_index(sc: Scenario) -> (r: usize)
    ensures
        r < 7,
        panel_scenario(r as int) == sc,
{
    match sc {
        Scenario::Btn => 0,
        Scenario::SbVsBtn => 1,
        Scenario::SbVsBb => 2,
        Scenario::BbVsBtn => 3,
        Scenario::BbVsSb => 4,
        Scenario::HuSb => 5,
        Scenario::HuBb => 6,
    }
}

/// Number of the first `k` entries of `scs` equal to `sc`.
pub open spec fn scenario_count(scs: Seq<Scenario>, sc: Scenario, k: int) -> int
    decreases k,
{
    if k <= 0 {
        0
    } else {
        scenario_count(scs, sc, k - 1) + if scs[k - 1] == sc {
            1int
        } else {
            0
        }
    }
}

/// How many of the player's hands (given by their scenarios) fall in each panel.
pub fn scenario_hands(scs: &Vec<Scenario>) -> (r: Vec<u32>)
    requires
        scs@.len() <= u32::MAX,
    ensures
        r@.len() == 7,
        forall|j: int| 0 <= j < 7 ==> #[trigger] r@[j] == scenario_count(scs@, panel_scenario(j), scs@.len() as int),
{
    let mut out: Vec<u32> = vec![0, 0, 0, 0, 0, 0, 0];
    let mut i: usize = 0;
    while i < scs.len()
        invariant
            i <= scs@.len() <= u32::MAX,
            out@.len() == 7,
            forall|j: int| 0 <= j < 7 ==> #[trigger] out@[j] == scenario_count(scs@, panel_scenario(j), i as int),
            forall|j: int| 0 <= j < 7 ==> scenario_count(scs@, panel_scenario(j), i as int) <= i,
        decreases scs@.len() - i,
    {
        let p = panel_index(scs[i]);
        let v = out[p];
        out.set(p, v + 1);
        proof {
            assert forall|j: int| 0 <= j < 7 implies #[trigger] out@[j] == scenario_count(
                scs@,
                panel_scenario(j),
                i as int + 1,
            ) by {
                if j != p as int {
                    assert(panel_scenario(j) != panel_scenario(p as int));
                }
            }
        }
        i = i + 1;
    }
    out
}

/// Tallying two runs of decisions one after the other counts, for every key and class, what
/// each run counts.
pub proof fn lemma_tally_concat(a: Seq<Decision>, b: Seq<Decision>, key: Seq<char>, c: int)
    ensures
        tally(a + b, key, c) == tally(a, key, c) + tally(b, key, c),
    decreases b.len(),
{
    if b.len() == 0 {
        assert(a + b =~= a);
    } else {
        lemma_tally_concat(a, b.drop_last(), key, c);
        assert((a + b).drop_last() =~= a + b.drop_last());
        assert((a + b).last() == b.last());
    }
}

/// The same holds of the counts per stack bucket.
pub proof fn lemma_tally_bucket_concat(a: Seq<Decision>, b: Seq<Decision>, key: Seq<char>, bk: int, c: int)
    ensures
        tally_bucket(a + b, key, bk, c) == tally_bucket(a, key, bk, c) + tally_bucket(b, key, bk, c),
    decreases b.len(),
{
    if b.len() == 0 {
        assert(a + b =~= a);
    } else {
        lemma_tally_bucket_concat(a, b.drop_last(), key, bk, c);
        assert((a + b).drop_last() =~= a + b.drop_last());
        assert((a + b).last() == b.last());
    }
}

} // verus!
