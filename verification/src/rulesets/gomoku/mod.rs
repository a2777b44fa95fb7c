pub mod ply_iterators;
pub mod ruleset;

pub use ply_iterators::sequential::SequentialPlyIterator;
pub use ruleset::RuleSet;
