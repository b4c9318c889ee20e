//! Preflop solver support.
pub mod classes;
pub mod oracle;
pub mod run;
pub mod tree;
pub mod tri;
