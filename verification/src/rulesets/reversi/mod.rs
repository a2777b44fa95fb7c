pub mod candidates;
pub mod instances;
pub mod permutation_iterators;
pub mod plies;
pub mod ply_iterators;
pub mod ruleset;
pub mod state;
pub mod symmetry;
pub mod symmetry_iterators;
pub mod variants;

pub use instances::{Classic, Micro, Mini};
pub use permutation_iterators::PermutationIterator;
pub use plies::Ply;
pub use ply_iterators::PlyIterator;
pub use ruleset::Reversi;
pub use state::State;
pub use symmetry::{Permutation, Symmetry};
pub use symmetry_iterators::SymmetryIterator;
pub use variants::BaseVariant;
