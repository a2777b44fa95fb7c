use vstd::prelude::*;

verus! {

/// A symmetry of a connect game: a permutation of the grid, from the table of the rule
/// set, possibly with the players exchanged.
#[derive(Clone, Copy, Debug, Hash, PartialEq, Eq, Structural)]
pub struct Permutation {
    pub grid_permutation_index: u8,
    pub switched_players: bool,
}

/// The symmetries of a connect game are its permutations.
pub type Symmetry = Permutation;

} // verus!
