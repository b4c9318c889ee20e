//! Preflop runs: postflop order of two live players.
use vstd::prelude::*;

verus! {

/// Postflop speaking rank of a position name in a table of `n` players (smaller speaks
/// first): heads-up the big blind speaks first; otherwise SB, BB, then the button.
pub open spec fn name_rank(n: int, name: Seq<char>) -> int {
    if n == 2 {
        if name == "BB"@ { 0 } else { 1 }
    } else if name == "SB"@ {
        0
    } else if name == "BB"@ {
        1
    } else {
        2
    }
}

fn rank_of(names: &Vec<&str>, p: usize) -> (r: u8)
    requires
        p < names@.len(),
    ensures
        r == name_rank(names@.len() as int, names@[p as int]@),
{
    let v = crate::text::chars_of(names[p]);
    let bb = crate::text::chars_of("BB");
    let sb = crate::text::chars_of("SB");
    let is_bb = crate::text::same_chars(&v, &bb);
    let is_sb = crate::text::same_chars(&v, &sb);
    if names.len() == 2 {
        if is_bb { 0 } else { 1 }
    } else if is_sb {
        0
    } else if is_bb {
        1
    } else {
        2
    }
}

/// The two live players `a` and `b` as (out of position, in position).
pub fn post_order(names: &Vec<&str>, a: usize, b: usize) -> (r: (usize, usize))
    requires
        a < names@.len(),
        b < names@.len(),
    ensures
        r == if name_rank(names@.len() as int, names@[a as int]@) < name_rank(names@.len() as int, names@[b as int]@) {
            (a, b)
        } else {
            (b, a)
        },
{
    if rank_of(names, a) < rank_of(names, b) { (a, b) } else { (b, a) }
}

} // verus!
