pub mod game;
pub mod plies;
pub mod ply_iterators;
pub mod ruleset;
pub mod state;

pub use plies::Ply;
pub use ply_iterators::sequential::SequentialPlyIterator;
pub use ruleset::TicTacToe;
pub use state::State;
