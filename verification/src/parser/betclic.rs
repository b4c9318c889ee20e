//! Betclic text format ("ExportHH" files): recognition and header fields.
use vstd::prelude::*;
use crate::text::{chars_of, contains, contains_exec, find_from, find_exec, sub_vec, trim, trim_range, upper, upper_exec, string_of, lemma_find_from_range};

verus! {

/// A Betclic text history holds "Hand ID:" and a "*** PLAYERS ***" section.
pub open spec fn spec_looks_like(c: Seq<char>) -> bool {
    contains(c, "Hand ID:"@) && contains(c, "*** PLAYERS ***"@)
}

/// Recognises the Betclic text format.
pub fn looks_like(c: &str) -> (r: bool)
    ensures
        r == spec_looks_like(c@),
{
    let v = chars_of(c);
    contains_exec(&v, &chars_of("Hand ID:")) && contains_exec(&v, &chars_of("*** PLAYERS ***"))
}

/// `l` starts with `key`, ignoring ASCII case.
pub open spec fn ci_prefix(l: Seq<char>, key: Seq<char>) -> bool {
    l.len() >= key.len() && forall|k: int| 0 <= k < key.len() ==> upper(l[k]) == upper(key[k])
}

/// Value of the first line "Key: value" of the lines of `lines` (split at line feeds) whose
/// trimmed text starts with `key` (ignoring ASCII case): the rest of that line, trimmed.
pub open spec fn header_from(s: Seq<char>, key: Seq<char>, i: int) -> Option<Seq<char>>
    decreases s.len() - i, 1int,
{
    if i < 0 || i > s.len() {
        None
    } else {
        let e = match find_from(s, "\n"@, i) { Some(e) => e, None => s.len() as int };
        proof {
            reveal_strlit("\n");
            if find_from(s, "\n"@, i) is Some {
                lemma_find_from_range(s, "\n"@, i);
            }
        }
        let l = trim(s.subrange(i, e));
        if ci_prefix(l, key) {
            Some(trim(l.subrange(key.len() as int, l.len() as int)))
        } else if e < s.len() {
            header_from(s, key, e + 1)
        } else {
            None
        }
    }
}

pub open spec fn spec_header(block: Seq<char>, key: Seq<char>) -> Option<Seq<char>> {
    header_from(block, key, 0)
}

fn ci_prefix_exec(v: &Vec<char>, lo: usize, hi: usize, key: &Vec<char>) -> (r: bool)
    requires
        lo <= hi <= v@.len(),
    ensures
        r == ci_prefix(v@.subrange(lo as int, hi as int), key@),
{
    if hi - lo < key.len() {
        return false;
    }
    let mut k: usize = 0;
    while k < key.len()
        invariant
            lo <= hi <= v@.len(),
            hi - lo >= key@.len(),
            k <= key@.len(),
            forall|j: int| 0 <= j < k ==> upper(v@[lo + j]) == upper(key@[j]),
        decreases key@.len() - k,
    {
        if upper_exec(v[lo + k]) != upper_exec(key[k]) {
            assert(v@.subrange(lo as int, hi as int)[k as int] == v@[lo + k]);
            return false;
        }
        k = k + 1;
    }
    assert forall|j: int| 0 <= j < key@.len() implies upper(v@.subrange(lo as int, hi as int)[j]) == upper(key@[j]) by {
        assert(v@.subrange(lo as int, hi as int)[j] == v@[lo + j]);
    }
    true
}

/// Value of a "Key: value" header line, the key compared without ASCII case.
pub fn header(block: &str, key: &str) -> (r: Option<String>)
    ensures
        match r {
            Some(x) => spec_header(block@, key@) == Some(x@),
            None => spec_header(block@, key@) is None,
        },
{
    let v = chars_of(block);
    let k = chars_of(key);
    let nl = chars_of("\n");
    let n = v.len();
    let mut i: usize = 0;
    loop
        invariant
            n == v@.len(),
            v@ == block@,
            i <= n,
            nl@ == "\n"@,
            k@ == key@,
            header_from(v@, key@, 0) == header_from(v@, key@, i as int),
        decreases n - i,
    {
        proof {
            reveal_strlit("\n");
        }
        let e = match find_exec(&v, &nl, i) {
            Some(e) => {
                proof {
                    lemma_find_from_range(v@, "\n"@, i as int);
                }
                e
            },
            None => n,
        };
        assert(e as int == match find_from(v@, "\n"@, i as int) { Some(x) => x, None => n as int });
        let (a, b) = trim_range(&v, i, e);
        let ghost l = v@.subrange(a as int, b as int);
        assert(l == trim(v@.subrange(i as int, e as int)));
        assert(header_from(v@, key@, i as int) == (if ci_prefix(l, key@) {
            Some(trim(l.subrange(key@.len() as int, l.len() as int)))
        } else if e < n {
            header_from(v@, key@, e + 1)
        } else {
            None
        }));
        if ci_prefix_exec(&v, a, b, &k) {
            let (c, d) = trim_range(&v, a + k.len(), b);
            assert(l.subrange(k@.len() as int, l.len() as int) == v@.subrange(a + k@.len(), b as int));
            return Some(string_of(&v, c, d));
        }
        if e >= n {
            return None;
        }
        i = e + 1;
    }
}

} // verus!
