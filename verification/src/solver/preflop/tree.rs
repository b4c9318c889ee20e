//! Preflop game tree: how a line ends.
use vstd::prelude::*;

verus! {

/// How a preflop line ends.
#[derive(Debug, Clone, Copy, PartialEq, Eq, Structural)]
pub enum Term {
    /// everybody else folded
    Fold,
    /// at most one player can still bet: straight to showdown
    Showdown,
    /// at least two players still have chips: the flop is seen
    Flop,
}

} // verus!
