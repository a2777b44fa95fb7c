use crate::rulesets::interface::{Player, StateTrait};
use vstd::prelude::*;

verus! {

/// A state that holds nothing but the player to move.
#[derive(Clone, Copy, Debug, Hash, PartialEq, Eq, PartialOrd, Ord, Structural)]
pub struct EmptyState {
    pub current_player: Player,
}

impl EmptyState {
    /// The state with player 0 to move.
    pub fn new() -> (r: EmptyState)
        ensures
            r.current_player == 0,
    {
        EmptyState { current_player: 0 }
    }
}

impl StateTrait for EmptyState {
    fn current_player(&self) -> (r: Player)
        ensures
            r == self.current_player,
    {
        self.current_player
    }
}

} // verus!
