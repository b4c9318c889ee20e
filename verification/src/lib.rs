//! Verified core of a Spin & Go hand-history tracker: cards, hand evaluation,
//! canonical flops, date arithmetic and the text helpers used by the parsers.

pub mod analysis;
pub mod commands;
pub mod eval;
pub mod eval_five;
pub mod eval_best;
pub mod import;
pub mod model;
pub mod parser;
pub mod solver;
pub mod stats;
pub mod store;
pub mod text;
