pub mod connectn;
pub mod display;
pub mod empty_state;
pub mod gomoku;
pub mod interface;
pub mod ninarow;
pub mod reversi;
pub mod tictactoe;

pub use empty_state::EmptyState;
pub use interface::{
    Permutable, PermutationIteratorTrait, PlayError, Player, PlayerStatus, PlyIteratorTrait,
    PlyTrait, RuleSetTrait, StateTrait, Status,
};
