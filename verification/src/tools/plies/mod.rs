pub mod basic;
pub mod permutations;

pub use basic::BasicIterator;
pub use permutations::PermutationsIterator;
