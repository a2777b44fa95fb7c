pub mod ruleset;

pub use ruleset::{Gomoku, RuleSet, TicTacToe};
