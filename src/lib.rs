//! Sortition sum trees: a registry of k-ary sum trees that map identifiers to
//! stakes and draw an identifier with probability proportional to its stake.

pub mod laws;
pub mod layout;
pub mod slots;
pub mod stakes;
pub mod sums;
pub mod tree;
pub mod registry;

pub use registry::{SortitionError, SortitionSumTrees};
pub use tree::SortitionSumTree;
