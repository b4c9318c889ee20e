//! Import decisions: which files failed, which tournaments are not Spins, which hands are
//! new, which incomplete tournaments a fresh copy replaces, and the room of each tournament.
//! The files are read and the tournaments stored by the caller.
use vstd::prelude::*;
use crate::text::{chars_of, starts_with, starts_with_exec};

verus! {

/// A tournament read from a file, as the import sees it.
pub struct ImportTour {
    pub id: String,
    pub hero: String,
    /// the room named by the file (empty when the file does not tell)
    pub room: String,
    /// a Spin format (two or three players, short starting stacks)
    pub is_spin: bool,
    /// the tournament's prize pool is known
    pub complete: bool,
    pub hand_ids: Vec<String>,
}

/// A tournament already stored.
pub struct KnownTour {
    pub id: String,
    pub hero: String,
    pub room: String,
    pub complete: bool,
}

/// What an import does.
pub struct ImportPlan {
    /// files that could not be read
    pub invalid: usize,
    /// tournaments left out because they are not Spins
    pub skipped: usize,
    /// hands of the Spin tournaments
    pub hands: usize,
    /// hands left out because already stored or already met in this import
    pub duplicates: usize,
    /// the hands to add, in the order met
    pub new_hands: Vec<String>,
    /// the stored tournaments that this import replaces
    pub refreshed: Vec<String>,
    /// the room of each Spin tournament, in the order met
    pub rooms: Vec<String>,
}

pub open spec fn strs(v: Seq<String>) -> Seq<Seq<char>> {
    Seq::new(v.len(), |i: int| v[i]@)
}

/// The tournaments of the first `k` files, in order (none for a file that failed).
pub open spec fn tours_upto(files: Seq<Option<Vec<ImportTour>>>, k: int) -> Seq<ImportTour>
    decreases k,
{
    if k <= 0 {
        Seq::empty()
    } else {
        tours_upto(files, k - 1) + match files[k - 1] {
            Some(v) => v@,
            None => Seq::empty(),
        }
    }
}

pub open spec fn all_tours(files: Seq<Option<Vec<ImportTour>>>) -> Seq<ImportTour> {
    tours_upto(files, files.len() as int)
}

/// Number of files among the first `k` that failed.
pub open spec fn invalid_upto(files: Seq<Option<Vec<ImportTour>>>, k: int) -> int
    decreases k,
{
    if k <= 0 {
        0
    } else {
        invalid_upto(files, k - 1) + if files[k - 1] is None { 1int } else { 0int }
    }
}

/// The Spin tournaments among the first `k`.
pub open spec fn spins_upto(ts: Seq<ImportTour>, k: int) -> Seq<ImportTour>
    decreases k,
{
    if k <= 0 {
        Seq::empty()
    } else if ts[k - 1].is_spin {
        spins_upto(ts, k - 1).push(ts[k - 1])
    } else {
        spins_upto(ts, k - 1)
    }
}

pub open spec fn spin_tours(ts: Seq<ImportTour>) -> Seq<ImportTour> {
    spins_upto(ts, ts.len() as int)
}

/// The hands of a tournament, each with the tournament's id.
pub open spec fn hands_of(t: ImportTour) -> Seq<(Seq<char>, Seq<char>)> {
    Seq::new(t.hand_ids@.len(), |j: int| (t.hand_ids@[j]@, t.id@))
}

/// The hands of the Spin tournaments among the first `k` of `ts`, in order.
pub open spec fn spin_hands_upto(ts: Seq<ImportTour>, k: int) -> Seq<(Seq<char>, Seq<char>)>
    decreases k,
{
    if k <= 0 {
        Seq::empty()
    } else if ts[k - 1].is_spin {
        spin_hands_upto(ts, k - 1) + hands_of(ts[k - 1])
    } else {
        spin_hands_upto(ts, k - 1)
    }
}

/// The hands of the Spin tournaments, in order, each with its tournament's id.
pub open spec fn spin_hands(files: Seq<Option<Vec<ImportTour>>>) -> Seq<(Seq<char>, Seq<char>)> {
    spin_hands_upto(all_tours(files), all_tours(files).len() as int)
}

/// Whether the first stored tournament with this id from the `i`-th on is complete (none
/// when there is no such tournament).
pub open spec fn known_complete(known: Seq<KnownTour>, id: Seq<char>, i: int) -> Option<bool>
    decreases known.len() - i,
{
    if i < 0 || i >= known.len() {
        None
    } else if known[i].id@ == id {
        Some(known[i].complete)
    } else {
        known_complete(known, id, i + 1)
    }
}

/// A stored Betclic tournament that was read incomplete (no prize pool) is replaced when
/// the import brings a complete copy of it.
pub open spec fn refreshes(id: Seq<char>, ts: Seq<ImportTour>, known: Seq<KnownTour>) -> bool {
    &&& starts_with(id, "bcl:"@)
    &&& exists|i: int| 0 <= i < ts.len() && (#[trigger] ts[i]).id@ == id && ts[i].complete
    &&& known_complete(known, id, 0) == Some(false)
}

/// The hands of the Spin tournaments from the first `k` met, with what became of them:
/// those kept (in order) and how many were left out as duplicates.
pub struct Dedup {
    pub kept: Seq<Seq<char>>,
    pub dups: int,
}

/// A hand is left out when it is already stored and its tournament is not replaced, or
/// when this import already met it; otherwise it is kept.
pub open spec fn dedup_upto(
    hs: Seq<(Seq<char>, Seq<char>)>,
    existing: Seq<Seq<char>>,
    ts: Seq<ImportTour>,
    known: Seq<KnownTour>,
    k: int,
) -> Dedup
    decreases k,
{
    if k <= 0 {
        Dedup { kept: Seq::empty(), dups: 0 }
    } else {
        let d = dedup_upto(hs, existing, ts, known, k - 1);
        let h = hs[k - 1].0;
        if (existing.contains(h) && !refreshes(hs[k - 1].1, ts, known)) || d.kept.contains(h) {
            Dedup { kept: d.kept, dups: d.dups + 1 }
        } else {
            Dedup { kept: d.kept.push(h), dups: d.dups }
        }
    }
}

/// The rooms named for hero `hero` by the first `k` stored tournaments (not iPoker ones,
/// whose room is a guess).
pub open spec fn known_rooms(known: Seq<KnownTour>, hero: Seq<char>, k: int) -> Seq<Seq<char>>
    decreases k,
{
    if k <= 0 {
        Seq::empty()
    } else {
        let t = known[k - 1];
        if !starts_with(t.id@, "ipk:"@) && t.hero@ == hero && t.room@.len() > 0 {
            known_rooms(known, hero, k - 1).push(t.room@)
        } else {
            known_rooms(known, hero, k - 1)
        }
    }
}

/// The rooms named for hero `hero` by the first `k` tournaments read.
pub open spec fn read_rooms(ts: Seq<ImportTour>, hero: Seq<char>, k: int) -> Seq<Seq<char>>
    decreases k,
{
    if k <= 0 {
        Seq::empty()
    } else {
        let t = ts[k - 1];
        if t.hero@ == hero && t.room@.len() > 0 {
            read_rooms(ts, hero, k - 1).push(t.room@)
        } else {
            read_rooms(ts, hero, k - 1)
        }
    }
}

/// The room where hero `hero` was seen, when it is a single one.
pub open spec fn hero_room(known: Seq<KnownTour>, ts: Seq<ImportTour>, hero: Seq<char>) -> Option<Seq<char>> {
    let c = known_rooms(known, hero, known.len() as int) + read_rooms(ts, hero, ts.len() as int);
    if c.len() > 0 && forall|i: int| 0 <= i < c.len() ==> #[trigger] c[i] == c[0] {
        Some(c[0])
    } else {
        None
    }
}

/// The room of a tournament read: the room imposed on iPoker files, else the file's own,
/// else the single room where its hero was seen, else PMU.
pub open spec fn room_for(
    t: ImportTour,
    over: Option<Seq<char>>,
    known: Seq<KnownTour>,
    ts: Seq<ImportTour>,
) -> Seq<char> {
    let r = match over {
        Some(o) => if starts_with(t.id@, "ipk:"@) { o } else { t.room@ },
        None => t.room@,
    };
    if r.len() == 0 {
        match hero_room(known, ts, t.hero@) {
            Some(x) => x,
            None => "PMU"@,
        }
    } else {
        r
    }
}

// ---------------------------------------------------------------- reading the files

/// Where each tournament read stands: file index, index in the file.
fn flatten(files: &Vec<Option<Vec<ImportTour>>>) -> (r: Vec<(usize, usize)>)
    ensures
        r@.len() == all_tours(files@).len(),
        forall|i: int|
            0 <= i < r@.len() ==> {
                let (f, k) = #[trigger] r@[i];
                &&& f < files@.len()
                &&& files@[f as int] is Some
                &&& k < (files@[f as int]->0)@.len()
                &&& (files@[f as int]->0)@[k as int] == all_tours(files@)[i]
            },
{
    let mut r: Vec<(usize, usize)> = Vec::new();
    let mut f: usize = 0;
    while f < files.len()
        invariant
            f <= files@.len(),
            r@.len() == tours_upto(files@, f as int).len(),
            forall|i: int|
                0 <= i < r@.len() ==> {
                    let (a, k) = #[trigger] r@[i];
                    &&& a < f
                    &&& files@[a as int] is Some
                    &&& k < (files@[a as int]->0)@.len()
                    &&& (files@[a as int]->0)@[k as int] == tours_upto(files@, f as int)[i]
                },
        decreases files@.len() - f,
    {
        let ghost before = tours_upto(files@, f as int);
        assert(tours_upto(files@, f + 1) == before + match files@[f as int] {
            Some(v) => v@,
            None => Seq::<ImportTour>::empty(),
        });
        match &files[f] {
            Some(v) => {
                let mut k: usize = 0;
                while k < v.len()
                    invariant
                        k <= v@.len(),
                        f < files@.len(),
                        files@[f as int] == Some(*v),
                        r@.len() == before.len() + k,
                        forall|i: int|
                            0 <= i < r@.len() ==> {
                                let (a, q) = #[trigger] r@[i];
                                &&& a <= f
                                &&& files@[a as int] is Some
                                &&& q < (files@[a as int]->0)@.len()
                                &&& (files@[a as int]->0)@[q as int] == (before + v@)[i]
                            },
                    decreases v@.len() - k,
                {
                    r.push((f, k));
                    k = k + 1;
                }
            },
            None => {},
        }
        f = f + 1;
    }
    r
}

/// The tournament at position `i` of `all_tours`.
fn tour_at<'a>(files: &'a Vec<Option<Vec<ImportTour>>>, ix: &Vec<(usize, usize)>, i: usize) -> (t: &'a ImportTour)
    requires
        i < ix@.len(),
        ({
            let (f, k) = ix@[i as int];
            &&& f < files@.len()
            &&& files@[f as int] is Some
            &&& k < (files@[f as int]->0)@.len()
        }),
    ensures
        *t == (files@[ix@[i as int].0 as int]->0)@[ix@[i as int].1 as int],
{
    let (f, k) = ix[i];
    let v = files[f].as_ref().unwrap();
    &v[k]
}

/// Some tournament among the first `n` of `ts` is a complete copy of `id`.
pub open spec fn seen_complete(ts: Seq<ImportTour>, id: Seq<char>, n: int) -> bool {
    exists|j: int| 0 <= j < n && (#[trigger] ts[j]).id@ == id && ts[j].complete
}

/// Number of files that failed (see `invalid_upto`).
fn count_invalid(files: &Vec<Option<Vec<ImportTour>>>) -> (n: usize)
    ensures
        n == invalid_upto(files@, files@.len() as int),
{
    let mut n: usize = 0;
    let mut f: usize = 0;
    while f < files.len()
        invariant
            f <= files@.len(),
            n == invalid_upto(files@, f as int),
            n <= f,
        decreases files@.len() - f,
    {
        if files[f].is_none() {
            n = n + 1;
        }
        f = f + 1;
    }
    n
}

/// Whether `s` is among `v`.
pub(crate) fn has_str(v: &Vec<String>, s: &String) -> (r: bool)
    ensures
        r == strs(v@).contains(s@),
{
    let mut i: usize = 0;
    while i < v.len()
        invariant
            i <= v@.len(),
            forall|j: int| 0 <= j < i ==> v@[j]@ != s@,
        decreases v@.len() - i,
    {
        if v[i] == *s {
            assert(strs(v@)[i as int] == s@);
            return true;
        }
        i = i + 1;
    }
    proof {
        if strs(v@).contains(s@) {
            let j = choose|j: int| 0 <= j < strs(v@).len() && strs(v@)[j] == s@;
            assert(v@[j]@ == s@);
        }
    }
    false
}

/// Whether the first stored tournament with this id is complete (see `known_complete`).
fn known_complete_exec(known: &Vec<KnownTour>, id: &String) -> (r: Option<bool>)
    ensures
        r == known_complete(known@, id@, 0),
{
    let mut i: usize = 0;
    while i < known.len()
        invariant
            i <= known@.len(),
            known_complete(known@, id@, 0) == known_complete(known@, id@, i as int),
        decreases known@.len() - i,
    {
        if known[i].id == *id {
            return Some(known[i].complete);
        }
        i = i + 1;
    }
    None
}

/// The stored tournaments that the import replaces (see `refreshes`), each once.
fn refreshed_ids(files: &Vec<Option<Vec<ImportTour>>>, ix: &Vec<(usize, usize)>, known: &Vec<KnownTour>) -> (r: Vec<String>)
    requires
        ix@.len() == all_tours(files@).len(),
        forall|i: int|
            0 <= i < ix@.len() ==> {
                let (f, k) = #[trigger] ix@[i];
                &&& f < files@.len()
                &&& files@[f as int] is Some
                &&& k < (files@[f as int]->0)@.len()
                &&& (files@[f as int]->0)@[k as int] == all_tours(files@)[i]
            },
    ensures
        forall|id: Seq<char>| strs(r@).contains(id) <==> refreshes(id, all_tours(files@), known@),
        strs(r@).no_duplicates(),
{
    let ghost ts = all_tours(files@);
    let bcl = chars_of("bcl:");
    let mut r: Vec<String> = Vec::new();
    let mut i: usize = 0;
    while i < ix.len()
        invariant
            i <= ix@.len() == ts.len(),
            ts == all_tours(files@),
            bcl@ == "bcl:"@,
            forall|q: int|
                0 <= q < ix@.len() ==> {
                    let (f, k) = #[trigger] ix@[q];
                    &&& f < files@.len()
                    &&& files@[f as int] is Some
                    &&& k < (files@[f as int]->0)@.len()
                    &&& (files@[f as int]->0)@[k as int] == ts[q]
                },
            forall|id: Seq<char>|
                strs(r@).contains(id) <==> (starts_with(id, "bcl:"@) && known_complete(known@, id, 0) == Some(false)
                    && seen_complete(ts, id, i as int)),
            strs(r@).no_duplicates(),
        decreases ix@.len() - i,
    {
        let t = tour_at(files, ix, i);
        assert(*t == ts[i as int]);
        let cur = i;
        i = i + 1;
        let ghost before = r@;
        let is_bcl = starts_with_exec(&chars_of(t.id.as_str()), &bcl);
        let kc = known_complete_exec(known, &t.id);
        let cond = t.complete && is_bcl && kc == Some(false);
        let dup = has_str(&r, &t.id);
        if cond && !dup {
            r.push(t.id.clone());
            proof {
                assert(strs(r@) =~= strs(before).push(t.id@));
            }
        }
        proof {
            assert forall|id: Seq<char>|
                strs(r@).contains(id) <==> (starts_with(id, "bcl:"@) && known_complete(known@, id, 0) == Some(false)
                    && seen_complete(ts, id, i as int)) by {
                let old_p = starts_with(id, "bcl:"@) && known_complete(known@, id, 0) == Some(false)
                    && seen_complete(ts, id, cur as int);
                let new_e = seen_complete(ts, id, i as int);
                let old_e = seen_complete(ts, id, cur as int);
                assert(strs(before).contains(id) == old_p);
                if new_e {
                    let j = choose|j: int| 0 <= j < i && (#[trigger] ts[j]).id@ == id && ts[j].complete;
                    if j < cur {
                        assert(old_e);
                    } else {
                        assert(id == t.id@ && t.complete);
                    }
                }
                if old_e {
                    let j = choose|j: int| 0 <= j < cur && (#[trigger] ts[j]).id@ == id && ts[j].complete;
                    assert(0 <= j < i && ts[j].id@ == id && ts[j].complete);
                    assert(new_e);
                }
                if id == t.id@ && t.complete {
                    assert(ts[cur as int].id@ == id);
                    assert(new_e);
                }
                if cond && !dup {
                    assert(strs(r@) == strs(before).push(t.id@));
                    if strs(before).contains(id) {
                        let k = choose|k: int| 0 <= k < strs(before).len() && strs(before)[k] == id;
                        assert(strs(r@)[k] == id);
                    }
                    if id == t.id@ {
                        assert(strs(r@)[strs(before).len() as int] == id);
                    }
                    if strs(r@).contains(id) {
                        let k = choose|k: int| 0 <= k < strs(r@).len() && strs(r@)[k] == id;
                        if k < strs(before).len() {
                            assert(strs(before)[k] == id);
                        }
                    }
                } else {
                    assert(r@ == before);
                }
            }
        }
    }
    r
}

/// The room imposed, as text.
pub open spec fn over_of(r: Option<String>) -> Option<Seq<char>> {
    match r {
        Some(o) => Some(o@),
        None => None,
    }
}

/// The facts that `flatten` gives of the positions of the tournaments read.
pub open spec fn flat_ok(files: Seq<Option<Vec<ImportTour>>>, ix: Seq<(usize, usize)>) -> bool {
    &&& ix.len() == all_tours(files).len()
    &&& forall|i: int|
        0 <= i < ix.len() ==> {
            let (f, k) = #[trigger] ix[i];
            &&& f < files.len()
            &&& files[f as int] is Some
            &&& k < (files[f as int]->0)@.len()
            &&& (files[f as int]->0)@[k as int] == all_tours(files)[i]
        }
}

/// The room where a hero was seen, when it is a single one (see `hero_room`).
fn hero_room_exec(
    known: &Vec<KnownTour>,
    files: &Vec<Option<Vec<ImportTour>>>,
    ix: &Vec<(usize, usize)>,
    hero: &String,
) -> (r: Option<String>)
    requires
        flat_ok(files@, ix@),
    ensures
        match r {
            Some(x) => hero_room(known@, all_tours(files@), hero@) == Some(x@),
            None => hero_room(known@, all_tours(files@), hero@) is None,
        },
{
    let ghost ts = all_tours(files@);
    let ipk = chars_of("ipk:");
    let mut c: Vec<String> = Vec::new();
    let mut k: usize = 0;
    while k < known.len()
        invariant
            k <= known@.len(),
            ipk@ == "ipk:"@,
            strs(c@) == known_rooms(known@, hero@, k as int),
        decreases known@.len() - k,
    {
        let t = &known[k];
        let ghost before = c@;
        if !starts_with_exec(&chars_of(t.id.as_str()), &ipk) && t.hero == *hero && !t.room.as_str().is_empty() {
            c.push(t.room.clone());
            assert(strs(c@) =~= strs(before).push(t.room@));
        }
        k = k + 1;
    }
    let ghost kr = strs(c@);
    let mut i: usize = 0;
    while i < ix.len()
        invariant
            i <= ix@.len(),
            flat_ok(files@, ix@),
            ts == all_tours(files@),
            kr == known_rooms(known@, hero@, known@.len() as int),
            strs(c@) == kr + read_rooms(ts, hero@, i as int),
        decreases ix@.len() - i,
    {
        let t = tour_at(files, ix, i);
        assert(*t == ts[i as int]);
        let ghost before = c@;
        if t.hero == *hero && !t.room.as_str().is_empty() {
            c.push(t.room.clone());
            assert(strs(c@) =~= strs(before).push(t.room@));
        }
        i = i + 1;
    }
    let ghost cv = strs(c@);
    assert(cv == known_rooms(known@, hero@, known@.len() as int) + read_rooms(ts, hero@, ts.len() as int));
    if c.len() == 0 {
        return None;
    }
    let mut j: usize = 1;
    while j < c.len()
        invariant
            1 <= j <= c@.len(),
            cv == strs(c@),
            ts == all_tours(files@),
            cv == known_rooms(known@, hero@, known@.len() as int) + read_rooms(ts, hero@, ts.len() as int),
            forall|q: int| 0 <= q < j ==> #[trigger] cv[q] == cv[0],
        decreases c@.len() - j,
    {
        if !(c[j] == c[0]) {
            assert(cv[j as int] != cv[0]);
            assert(!(forall|q: int| 0 <= q < cv.len() ==> #[trigger] cv[q] == cv[0]));
            return None;
        }
        j = j + 1;
    }
    Some(c[0].clone())
}

/// The room of a tournament read (see `room_for`).
fn room_exec(
    t: &ImportTour,
    over: &Option<String>,
    known: &Vec<KnownTour>,
    files: &Vec<Option<Vec<ImportTour>>>,
    ix: &Vec<(usize, usize)>,
) -> (r: String)
    requires
        flat_ok(files@, ix@),
    ensures
        r@ == room_for(*t, over_of(*over), known@, all_tours(files@)),
{
    proof {
        reveal_strlit("PMU");
    }
    let r = match over {
        Some(o) => if starts_with_exec(&chars_of(t.id.as_str()), &chars_of("ipk:")) { o.clone() } else { t.room.clone() },
        None => t.room.clone(),
    };
    if r.as_str().is_empty() {
        match hero_room_exec(known, files, ix, &t.hero) {
            Some(x) => x,
            None => String::from_str("PMU"),
        }
    } else {
        r
    }
}

proof fn lemma_spin_hands_len(ts: Seq<ImportTour>, i: int, n: int)
    requires
        0 <= i <= n,
    ensures
        spin_hands_upto(ts, i).len() <= spin_hands_upto(ts, n).len(),
    decreases n - i,
{
    if i < n {
        lemma_spin_hands_len(ts, i, n - 1);
    }
}

proof fn lemma_dedup_prefix(
    a: Seq<(Seq<char>, Seq<char>)>,
    b: Seq<(Seq<char>, Seq<char>)>,
    existing: Seq<Seq<char>>,
    ts: Seq<ImportTour>,
    known: Seq<KnownTour>,
    k: int,
)
    requires
        0 <= k <= a.len(),
        k <= b.len(),
        forall|i: int| 0 <= i < k ==> a[i] == b[i],
    ensures
        dedup_upto(a, existing, ts, known, k) == dedup_upto(b, existing, ts, known, k),
    decreases k,
{
    if k > 0 {
        lemma_dedup_prefix(a, b, existing, ts, known, k - 1);
    }
}

/// Law: of the hands met, each is kept or counted as a duplicate; no hand is kept twice;
/// a kept hand that is already stored belongs to a tournament that the import replaces.
pub proof fn lemma_dedup_facts(
    hs: Seq<(Seq<char>, Seq<char>)>,
    existing: Seq<Seq<char>>,
    ts: Seq<ImportTour>,
    known: Seq<KnownTour>,
    k: int,
)
    requires
        0 <= k <= hs.len(),
    ensures
        ({
            let d = dedup_upto(hs, existing, ts, known, k);
            &&& d.kept.len() + d.dups == k
            &&& d.kept.no_duplicates()
            &&& forall|q: int|
                0 <= q < d.kept.len() && existing.contains(#[trigger] d.kept[q]) ==> exists|j: int|
                    0 <= j < k && (#[trigger] hs[j]).0 == d.kept[q] && refreshes(hs[j].1, ts, known)
        }),
    decreases k,
{
    if k > 0 {
        lemma_dedup_facts(hs, existing, ts, known, k - 1);
        let d0 = dedup_upto(hs, existing, ts, known, k - 1);
        let d = dedup_upto(hs, existing, ts, known, k);
        let h = hs[k - 1].0;
        if !((existing.contains(h) && !refreshes(hs[k - 1].1, ts, known)) || d0.kept.contains(h)) {
            assert(d.kept == d0.kept.push(h));
            assert forall|q: int|
                0 <= q < d.kept.len() && existing.contains(#[trigger] d.kept[q]) implies exists|j: int|
                0 <= j < k && (#[trigger] hs[j]).0 == d.kept[q] && refreshes(hs[j].1, ts, known) by {
                if q < d0.kept.len() {
                    assert(d.kept[q] == d0.kept[q]);
                    let j = choose|j: int| 0 <= j < k - 1 && (#[trigger] hs[j]).0 == d0.kept[q] && refreshes(hs[j].1, ts, known);
                    assert(0 <= j < k && hs[j].0 == d.kept[q]);
                } else {
                    assert(hs[k - 1].0 == d.kept[q]);
                }
            }
            assert forall|x: int, y: int| 0 <= x < d.kept.len() && 0 <= y < d.kept.len() && x != y implies d.kept[x]
                != d.kept[y] by {
                if x == d0.kept.len() && y < d0.kept.len() {
                    assert(d0.kept[y] == d.kept[y]);
                } else if y == d0.kept.len() && x < d0.kept.len() {
                    assert(d0.kept[x] == d.kept[x]);
                }
            }
        } else {
            assert forall|q: int|
                0 <= q < d.kept.len() && existing.contains(#[trigger] d.kept[q]) implies exists|j: int|
                0 <= j < k && (#[trigger] hs[j]).0 == d.kept[q] && refreshes(hs[j].1, ts, known) by {
                let j = choose|j: int| 0 <= j < k - 1 && (#[trigger] hs[j]).0 == d0.kept[q] && refreshes(hs[j].1, ts, known);
                assert(0 <= j < k && hs[j].0 == d.kept[q]);
            }
        }
    }
}

/// Every hand among the first `k` is either stored already or kept.
proof fn lemma_dedup_covers(
    hs: Seq<(Seq<char>, Seq<char>)>,
    existing: Seq<Seq<char>>,
    ts: Seq<ImportTour>,
    known: Seq<KnownTour>,
    k: int,
    j: int,
)
    requires
        0 <= j < k <= hs.len(),
    ensures
        existing.contains(hs[j].0) || dedup_upto(hs, existing, ts, known, k).kept.contains(hs[j].0),
    decreases k,
{
    let d0 = dedup_upto(hs, existing, ts, known, k - 1);
    let d = dedup_upto(hs, existing, ts, known, k);
    if j < k - 1 {
        lemma_dedup_covers(hs, existing, ts, known, k - 1, j);
        if d0.kept.contains(hs[j].0) && d.kept != d0.kept {
            let q = choose|q: int| 0 <= q < d0.kept.len() && d0.kept[q] == hs[j].0;
            assert(d.kept[q] == hs[j].0);
        }
    } else {
        let h = hs[k - 1].0;
        if !((existing.contains(h) && !refreshes(hs[k - 1].1, ts, known)) || d0.kept.contains(h)) {
            assert(d.kept[d0.kept.len() as int] == h);
        }
    }
}

/// When every hand is stored already and none belongs to a tournament that is replaced,
/// none is kept.
proof fn lemma_dedup_keeps_none(
    hs: Seq<(Seq<char>, Seq<char>)>,
    existing: Seq<Seq<char>>,
    ts: Seq<ImportTour>,
    known: Seq<KnownTour>,
    k: int,
)
    requires
        0 <= k <= hs.len(),
        forall|j: int| 0 <= j < k ==> existing.contains(#[trigger] hs[j].0) && !refreshes(hs[j].1, ts, known),
    ensures
        dedup_upto(hs, existing, ts, known, k).kept == Seq::<Seq<char>>::empty(),
        dedup_upto(hs, existing, ts, known, k).dups == k,
    decreases k,
{
    if k > 0 {
        lemma_dedup_keeps_none(hs, existing, ts, known, k - 1);
        assert(existing.contains(hs[k - 1].0));
    }
}

/// Law: importing the same files a second time keeps no hand. Once the store holds the hands
/// it held before and those the first import kept (`existing2`), and holds the complete
/// copy of each complete Betclic tournament the files bring (`known2`), every hand of the
/// second import is counted as a duplicate, none is added, and the stored hand ids stay
/// the same.
pub proof fn lemma_reimport_keeps_nothing(
    existing: Seq<Seq<char>>,
    known: Seq<KnownTour>,
    files: Seq<Option<Vec<ImportTour>>>,
    existing2: Seq<Seq<char>>,
    known2: Seq<KnownTour>,
)
    requires
        forall|h: Seq<char>| existing.contains(h) ==> existing2.contains(h),
        forall|h: Seq<char>|
            dedup_upto(spin_hands(files), existing, all_tours(files), known, spin_hands(files).len() as int).kept.contains(h)
                ==> existing2.contains(h),
        forall|i: int|
            0 <= i < all_tours(files).len() && starts_with((#[trigger] all_tours(files)[i]).id@, "bcl:"@)
                && all_tours(files)[i].complete ==> known_complete(known2, all_tours(files)[i].id@, 0) != Some(false),
    ensures
        ({
            let hs = spin_hands(files);
            let d2 = dedup_upto(hs, existing2, all_tours(files), known2, hs.len() as int);
            &&& d2.kept == Seq::<Seq<char>>::empty()
            &&& d2.dups == hs.len()
            &&& existing2 + d2.kept == existing2
        }),
{
    let hs = spin_hands(files);
    let ts = all_tours(files);
    let n = hs.len() as int;
    assert forall|j: int| 0 <= j < n implies existing2.contains(#[trigger] hs[j].0) && !refreshes(hs[j].1, ts, known2) by {
        lemma_dedup_covers(hs, existing, ts, known, n, j);
        if refreshes(hs[j].1, ts, known2) {
            let i = choose|i: int| 0 <= i < ts.len() && (#[trigger] ts[i]).id@ == hs[j].1 && ts[i].complete;
            assert(starts_with(ts[i].id@, "bcl:"@));
        }
    }
    lemma_dedup_keeps_none(hs, existing2, ts, known2, n);
    assert(existing2 + Seq::<Seq<char>>::empty() =~= existing2);
}

/// The import's decisions on what the files hold: the files that failed, the tournaments
/// that are not Spins, the new hands and the duplicates, the stored tournaments that are
/// replaced, and the room of each Spin tournament (`room` is imposed on iPoker files).
#[verifier::rlimit(60)]
pub fn plan_import(
    existing: &Vec<String>,
    known: &Vec<KnownTour>,
    files: &Vec<Option<Vec<ImportTour>>>,
    room: Option<String>,
) -> (p: ImportPlan)
    requires
        spin_hands(files@).len() <= usize::MAX,
    ensures
        p.invalid == invalid_upto(files@, files@.len() as int),
        p.skipped == all_tours(files@).len() - spin_tours(all_tours(files@)).len(),
        p.hands == spin_hands(files@).len(),
        strs(p.new_hands@) == dedup_upto(
            spin_hands(files@),
            strs(existing@),
            all_tours(files@),
            known@,
            spin_hands(files@).len() as int,
        ).kept,
        p.duplicates == dedup_upto(
            spin_hands(files@),
            strs(existing@),
            all_tours(files@),
            known@,
            spin_hands(files@).len() as int,
        ).dups,
        p.duplicates + p.new_hands@.len() == p.hands,
        strs(p.new_hands@).no_duplicates(),
        forall|q: int|
            0 <= q < p.new_hands@.len() && strs(existing@).contains(#[trigger] p.new_hands@[q]@) ==> exists|j: int|
                0 <= j < spin_hands(files@).len() && (#[trigger] spin_hands(files@)[j]).0 == p.new_hands@[q]@
                    && refreshes(spin_hands(files@)[j].1, all_tours(files@), known@),
        forall|id: Seq<char>| strs(p.refreshed@).contains(id) <==> refreshes(id, all_tours(files@), known@),
        strs(p.refreshed@).no_duplicates(),
        p.rooms@.len() == spin_tours(all_tours(files@)).len(),
        forall|i: int|
            0 <= i < p.rooms@.len() ==> (#[trigger] p.rooms@[i])@ == room_for(
                spin_tours(all_tours(files@))[i],
                over_of(room),
                known@,
                all_tours(files@),
            ),
{
    let ghost ts = all_tours(files@);
    let ghost ex = strs(existing@);
    let ghost over = over_of(room);
    let ix = flatten(files);
    let refreshed = refreshed_ids(files, &ix, known);
    let invalid = count_invalid(files);
    let mut skipped: usize = 0;
    let mut hands: usize = 0;
    let mut duplicates: usize = 0;
    let mut kept: Vec<String> = Vec::new();
    let mut rooms: Vec<String> = Vec::new();
    let mut i: usize = 0;
    while i < ix.len()
        invariant
            i <= ix@.len() == ts.len(),
            flat_ok(files@, ix@),
            ts == all_tours(files@),
            ex == strs(existing@),
            over == over_of(room),
            spin_hands_upto(ts, ts.len() as int).len() <= usize::MAX,
            forall|id: Seq<char>| strs(refreshed@).contains(id) <==> refreshes(id, ts, known@),
            skipped == i - spins_upto(ts, i as int).len(),
            spins_upto(ts, i as int).len() <= i,
            hands == spin_hands_upto(ts, i as int).len(),
            strs(kept@) == dedup_upto(spin_hands_upto(ts, i as int), ex, ts, known@, hands as int).kept,
            duplicates == dedup_upto(spin_hands_upto(ts, i as int), ex, ts, known@, hands as int).dups,
            rooms@.len() == spins_upto(ts, i as int).len(),
            forall|q: int|
                0 <= q < rooms@.len() ==> (#[trigger] rooms@[q])@ == room_for(spins_upto(ts, i as int)[q], over, known@, ts),
        decreases ix@.len() - i,
    {
        let t = tour_at(files, &ix, i);
        assert(*t == ts[i as int]);
        if !t.is_spin {
            skipped = skipped + 1;
        } else {
            let rm = room_exec(t, &room, known, files, &ix);
            let ghost rb = rooms@;
            rooms.push(rm);
            assert forall|q: int| 0 <= q < rooms@.len() implies (#[trigger] rooms@[q])@ == room_for(
                spins_upto(ts, i + 1)[q],
                over,
                known@,
                ts,
            ) by {
                if q < rb.len() {
                    assert(rooms@[q] == rb[q]);
                }
            }
            let ghost cur = spin_hands_upto(ts, i as int);
            let ghost hh = spin_hands_upto(ts, i + 1);
            assert(hh == cur + hands_of(*t));
            proof {
                lemma_spin_hands_len(ts, i + 1, ts.len() as int);
                lemma_dedup_prefix(cur, hh, ex, ts, known@, cur.len() as int);
            }
            let mut j: usize = 0;
            while j < t.hand_ids.len()
                invariant
                    j <= t.hand_ids@.len(),
                    hh == cur + hands_of(*t),
                    hh.len() <= usize::MAX,
                    hands == cur.len() + j,
                    forall|id: Seq<char>| strs(refreshed@).contains(id) <==> refreshes(id, ts, known@),
                    ex == strs(existing@),
                    strs(kept@) == dedup_upto(hh, ex, ts, known@, hands as int).kept,
                    duplicates == dedup_upto(hh, ex, ts, known@, hands as int).dups,
                decreases t.hand_ids@.len() - j,
            {
                let h = &t.hand_ids[j];
                assert(hh[hands as int] == (h@, t.id@));
                proof {
                    lemma_dedup_facts(hh, ex, ts, known@, hands as int);
                }
                let stored = has_str(existing, h);
                let repl = has_str(&refreshed, &t.id);
                let met = has_str(&kept, h);
                if (stored && !repl) || met {
                    duplicates = duplicates + 1;
                } else {
                    let ghost kb = kept@;
                    kept.push(h.clone());
                    assert(strs(kept@) =~= strs(kb).push(h@));
                }
                hands = hands + 1;
                j = j + 1;
            }
        }
        i = i + 1;
    }
    proof {
        let hs = spin_hands_upto(ts, ts.len() as int);
        lemma_dedup_facts(hs, ex, ts, known@, hands as int);
        let d = dedup_upto(hs, ex, ts, known@, hands as int);
        assert forall|q: int| 0 <= q < kept@.len() && ex.contains(#[trigger] kept@[q]@) implies exists|j: int|
            0 <= j < hs.len() && (#[trigger] hs[j]).0 == kept@[q]@ && refreshes(hs[j].1, ts, known@) by {
            assert(d.kept[q] == kept@[q]@);
        }
    }
    ImportPlan {
        invalid,
        skipped,
        hands,
        duplicates,
        new_hands: kept,
        refreshed,
        rooms,
    }
}

} // verus!
