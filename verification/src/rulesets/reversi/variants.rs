use crate::utils::bitarray::BitArraySettings;
use vstd::prelude::*;

verus! {

/// A game of reversi on a square grid.
pub trait BaseVariant: Copy {
    /// The bit arrays that hold one bit per cell.
    type ArraySettings: BitArraySettings;

    /// Number of cells along each side of the grid.
    spec fn spec_grid_size() -> nat;

    /// The cells of the stones of a player at the start.
    spec fn spec_player_positions(player: int) -> Seq<usize>;

    /// The grid has between 2 and 15 cells per side, its bit arrays one bit per cell, and
    /// the starting stones lie within it.
    proof fn lemma_variant()
        ensures
            2 <= Self::spec_grid_size() <= 15,
            Self::ArraySettings::spec_size() == Self::spec_grid_size() * Self::spec_grid_size(),
            forall|player: int, k: int|
                0 <= player < 2 && 0 <= k < Self::spec_player_positions(player).len()
                    ==> #[trigger] Self::spec_player_positions(player)[k]
                    < Self::ArraySettings::spec_size(),
    ;

    fn grid_size() -> (r: usize)
        ensures
            r == Self::spec_grid_size(),
    ;

    /// The cells of the stones of `player` at the start.
    fn player_positions(player: usize) -> (r: Vec<usize>)
        requires
            player < 2,
        ensures
            r@ == Self::spec_player_positions(player as int),
    ;
}

} // verus!
