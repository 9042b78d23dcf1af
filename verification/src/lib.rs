//! Snapshot of a directory: a tree diagram of its entries followed by the
//! text of every file that the exclusion rules let through.

pub mod rules;
pub mod tree;
pub mod content;
pub mod laws;
