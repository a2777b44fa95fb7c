use crate::rulesets::connectn::plies::Ply;
use crate::rulesets::connectn::variants::BaseVariant;
use crate::rulesets::interface::{PlayError, Player, StateTrait};
use crate::utils::bitarray::base::{indices_to_bits, permuted_bits};
use crate::utils::bitarray::{BitArray, BitArraySettings};
use vstd::prelude::*;

verus! {

/// The stones of both players on the grid, and the player to move.
#[derive(Clone, Copy, Debug, Hash)]
pub struct State<Variant: BaseVariant> {
    pub grids: [BitArray<Variant::ArraySettings>; 2],
    pub current_player: u8,
}

/// Number of cells of a variant.
pub open spec fn cell_count<Variant: BaseVariant>() -> nat {
    Variant::ArraySettings::spec_size()
}

/// A position after a stone is placed on cell `index`: the stone goes to the player to
/// move, and the other player moves next.
pub open spec fn play_at(position: (Seq<bool>, Seq<bool>, u8), index: int) -> (Seq<bool>, Seq<bool>, u8) {
    if position.2 == 0 {
        (position.0.update(index, true), position.1, 1u8)
    } else {
        (position.0, position.1.update(index, true), 0u8)
    }
}

impl<Variant: BaseVariant> State<Variant> {
    /// The cells of player `player`.
    pub open spec fn stones(&self, player: int) -> Seq<bool> {
        self.grids[player]@
    }

    /// No stone lies on cell `index`.
    pub open spec fn cell_empty(&self, index: int) -> bool {
        !self.stones(0)[index] && !self.stones(1)[index]
    }

    /// The player to move is 0 or 1.
    pub open spec fn player_ok(&self) -> bool {
        self.current_player < 2
    }

    /// The state after `ply` was played on an empty cell: the stone is added to the
    /// player to move, and the other player moves next.
    pub open spec fn played(&self, index: int) -> (Seq<bool>, Seq<bool>, u8) {
        play_at((self.stones(0), self.stones(1), self.current_player), index)
    }

    /// The empty grid with player 0 to move.
    pub fn new() -> (r: State<Variant>)
        ensures
            r.stones(0) == Seq::new(cell_count::<Variant>(), |i: int| false),
            r.stones(1) == Seq::new(cell_count::<Variant>(), |i: int| false),
            r.current_player == 0,
    {
        State {
            grids: [
                BitArray::<Variant::ArraySettings>::zero(),
                BitArray::<Variant::ArraySettings>::zero(),
            ],
            current_player: 0,
        }
    }

    /// The grid with stones of player 0 on `player1_indices` and of player 1 on
    /// `player2_indices`.
    pub fn from_indices(
        player1_indices: &[usize],
        player2_indices: &[usize],
        current_player: u8,
    ) -> (r: State<Variant>)
        requires
            forall|k: int|
                0 <= k < player1_indices@.len() ==> #[trigger] player1_indices@[k] < cell_count::<
                    Variant,
                >(),
            forall|k: int|
                0 <= k < player2_indices@.len() ==> #[trigger] player2_indices@[k] < cell_count::<
                    Variant,
                >(),
        ensures
            r.stones(0) == indices_to_bits(cell_count::<Variant>(), player1_indices@),
            r.stones(1) == indices_to_bits(cell_count::<Variant>(), player2_indices@),
            r.current_player == current_player,
    {
        State {
            grids: [
                BitArray::<Variant::ArraySettings>::from_indices(player1_indices),
                BitArray::<Variant::ArraySettings>::from_indices(player2_indices),
            ],
            current_player,
        }
    }

    /// Whether no stone lies on cell `index`.
    pub fn is_empty(&self, index: usize) -> (r: bool)
        requires
            index < cell_count::<Variant>(),
        ensures
            r == self.cell_empty(index as int),
    {
        !self.grids[0].isset(index) && !self.grids[1].isset(index)
    }

    /// Places a stone of the player to move on the cell of `ply` and passes the turn; an
    /// error when the cell is occupied, and then nothing changes.
    pub fn play(&mut self, ply: &Ply<Variant>) -> (r: Result<(), PlayError>)
        requires
            (ply.index as int) < cell_count::<Variant>(),
            old(self).player_ok(),
        ensures
            old(self).cell_empty(ply.index as int) <==> r is Ok,
            r is Ok ==> (final(self).stones(0), final(self).stones(1), final(self).current_player)
                == old(self).played(ply.index as int),
            r matches Err(e) ==> *final(self) == *old(self) && e.message == "Cell is occupied"
                && e.field == "index",
    {
        let index = ply.index as usize;
        if self.grids[0].isset(index) || self.grids[1].isset(index) {
            return Err(PlayError { message: "Cell is occupied", field: "index" });
        }
        if self.current_player == 0 {
            let mut grid = self.grids[0];
            grid.set(index);
            self.grids = [grid, self.grids[1]];
            self.current_player = 1;
        } else {
            let mut grid = self.grids[1];
            grid.set(index);
            self.grids = [self.grids[0], grid];
            self.current_player = 0;
        }
        Ok(())
    }

    /// The state whose grids are those of this one with the cells permuted by
    /// `grid_permutation` (the stone on cell `k` moves to cell `grid_permutation[k]`), and
    /// with the players exchanged when `switch_players` holds.
    pub fn swap(&self, grid_permutation: &[usize], switch_players: bool) -> (r: Self)
        requires
            forall|k: int|
                0 <= k < grid_permutation@.len() ==> #[trigger] grid_permutation@[k]
                    < cell_count::<Variant>(),
            switch_players ==> self.player_ok(),
        ensures
            !switch_players ==> r.stones(0) == permuted_bits(self.stones(0), grid_permutation@)
                && r.stones(1) == permuted_bits(self.stones(1), grid_permutation@)
                && r.current_player == self.current_player,
            switch_players ==> r.stones(0) == permuted_bits(self.stones(1), grid_permutation@)
                && r.stones(1) == permuted_bits(self.stones(0), grid_permutation@)
                && r.current_player == 1 - self.current_player,
    {
        let permuted_grid1 = self.grids[0].swap(grid_permutation);
        let permuted_grid2 = self.grids[1].swap(grid_permutation);
        if switch_players {
            State { grids: [permuted_grid2, permuted_grid1], current_player: 1 - self.current_player }
        } else {
            State { grids: [permuted_grid1, permuted_grid2], current_player: self.current_player }
        }
    }
}

impl<Variant: BaseVariant> PartialEq for State<Variant> {
    fn eq(&self, other: &Self) -> (r: bool) {
        self.grids[0] == other.grids[0] && self.grids[1] == other.grids[1] && self.current_player
            == other.current_player
    }
}

impl<Variant: BaseVariant> vstd::std_specs::cmp::PartialEqSpecImpl for State<Variant> {
    open spec fn obeys_eq_spec() -> bool {
        true
    }

    open spec fn eq_spec(&self, other: &Self) -> bool {
        &&& self.stones(0) == other.stones(0)
        &&& self.stones(1) == other.stones(1)
        &&& self.current_player == other.current_player
    }
}

impl<Variant: BaseVariant> Eq for State<Variant> {

}

impl<Variant: BaseVariant> StateTrait for State<Variant> {
    fn current_player(&self) -> (r: Player)
        ensures
            r == self.current_player,
    {
        self.current_player
    }
}

/// The state of a game of tic-tac-toe.
pub type TicTacToeState = State<crate::rulesets::connectn::variants::TicTacToe>;

/// The state of a game of gomoku.
pub type GomokuState = State<crate::rulesets::connectn::variants::Gomoku>;

} // verus!
