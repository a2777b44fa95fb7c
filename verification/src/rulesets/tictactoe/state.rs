use crate::rulesets::interface::{PlayError, Player, StateTrait};
use crate::rulesets::tictactoe::plies::Ply;
use crate::utils::bitarray::base::indices_to_bits;
use crate::utils::bitarray::BitArray9;
use vstd::prelude::*;

verus! {

/// The stones of both players on the 3 x 3 grid, and the player to move.
#[derive(Clone, Copy, Debug, Hash)]
pub struct State {
    pub grids: [BitArray9; 2],
    pub current_player: u8,
}

impl State {
    /// The cells of player `player`.
    pub open spec fn stones(&self, player: int) -> Seq<bool> {
        self.grids[player]@
    }

    /// No stone lies on cell `index`.
    pub open spec fn cell_empty(&self, index: int) -> bool {
        !self.stones(0)[index] && !self.stones(1)[index]
    }

    /// The stones and player to move after a stone of the player to move is placed on
    /// cell `index`.
    pub open spec fn played(&self, index: int) -> (Seq<bool>, Seq<bool>, u8) {
        if self.current_player == 0 {
            (self.stones(0).update(index, true), self.stones(1), 1u8)
        } else {
            (self.stones(0), self.stones(1).update(index, true), 0u8)
        }
    }

    /// The empty grid with player 0 to move.
    pub fn new() -> (r: State)
        ensures
            r.stones(0) == Seq::new(9, |i: int| false),
            r.stones(1) == Seq::new(9, |i: int| false),
            r.current_player == 0,
    {
        State { grids: [BitArray9::zero(), BitArray9::zero()], current_player: 0 }
    }

    /// The grid with stones of player 0 on `player1_indices` and of player 1 on
    /// `player2_indices`.
    pub fn from_indices(
        player1_indices: &[usize],
        player2_indices: &[usize],
        current_player: u8,
    ) -> (r: State)
        requires
            forall|k: int| 0 <= k < player1_indices@.len() ==> #[trigger] player1_indices@[k] < 9,
            forall|k: int| 0 <= k < player2_indices@.len() ==> #[trigger] player2_indices@[k] < 9,
        ensures
            r.stones(0) == indices_to_bits(9, player1_indices@),
            r.stones(1) == indices_to_bits(9, player2_indices@),
            r.current_player == current_player,
    {
        State {
            grids: [BitArray9::from_indices(player1_indices), BitArray9::from_indices(player2_indices)],
            current_player,
        }
    }

    /// Whether no stone lies on cell `index`.
    pub fn is_empty(&self, index: usize) -> (r: bool)
        requires
            index < 9,
        ensures
            r == self.cell_empty(index as int),
    {
        !self.grids[0].isset(index) && !self.grids[1].isset(index)
    }

    /// Places a stone of the player to move on the cell of `ply` and passes the turn; an
    /// error when the cell is occupied, and then nothing changes.
    pub fn play(&mut self, ply: &Ply) -> (r: Result<(), PlayError>)
        requires
            ply.index < 9,
            old(self).current_player < 2,
        ensures
            old(self).cell_empty(ply.index as int) <==> r is Ok,
            r is Ok ==> (final(self).stones(0), final(self).stones(1), final(self).current_player)
                == old(self).played(ply.index as int),
            r matches Err(e) ==> *final(self) == *old(self) && e.message == "Cell is occupied"
                && e.field == "index",
    {
        let index = ply.index as usize;
        if self.grids[0].isset(index) || self.grids[1].isset(index) {
            return Err(PlayError { message: "Cell is occupied", field: "index" });
        }
        if self.current_player == 0 {
            let mut grid = self.grids[0];
            grid.set(index);
            self.grids = [grid, self.grids[1]];
            self.current_player = 1;
        } else {
            let mut grid = self.grids[1];
            grid.set(index);
            self.grids = [self.grids[0], grid];
            self.current_player = 0;
        }
        Ok(())
    }
}

impl PartialEq for State {
    fn eq(&self, other: &Self) -> (r: bool) {
        self.grids[0] == other.grids[0] && self.grids[1] == other.grids[1] && self.current_player
            == other.current_player
    }
}

impl vstd::std_specs::cmp::PartialEqSpecImpl for State {
    open spec fn obeys_eq_spec() -> bool {
        true
    }

    open spec fn eq_spec(&self, other: &Self) -> bool {
        &&& self.stones(0) == other.stones(0)
        &&& self.stones(1) == other.stones(1)
        &&& self.current_player == other.current_player
    }
}

impl Eq for State {

}

impl StateTrait for State {
    fn current_player(&self) -> (r: Player)
        ensures
            r == self.current_player,
    {
        self.current_player
    }
}

} // verus!
