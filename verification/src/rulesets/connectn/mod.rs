pub mod permutation;
pub mod permutation_iterators;
pub mod plies;
pub mod ply_iterators;
pub mod ruleset;
pub mod state;
pub mod symmetry_iterators;
pub mod variants;

pub use permutation::{Permutation, Symmetry};
pub use permutation_iterators::PermutationIterator;
pub use plies::{GomokuPly, Ply, TicTacToePly};
pub use ply_iterators::PlyIterator;
pub use ruleset::{Gomoku, RuleSet, TicTacToe};
pub use state::{GomokuState, State, TicTacToeState};
pub use symmetry_iterators::SymmetryIterator;
pub use variants::BaseVariant;

