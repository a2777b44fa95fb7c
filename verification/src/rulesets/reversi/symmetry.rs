use vstd::prelude::*;

verus! {

/// A symmetry of a reversi grid, from the table of the rule set, possibly with the
/// players switched.
#[derive(Clone, Copy, Debug, Hash, PartialEq, Eq, Structural)]
pub struct Symmetry {
    pub grid_symmetry_index: u8,
    pub switched_players: bool,
}

/// A permutation of a reversi game: a grid permutation from the table of the rule set,
/// possibly with the players switched.
#[derive(Clone, Copy, Debug, Hash, PartialEq, Eq, Structural)]
pub struct Permutation {
    pub grid_permutation_index: u8,
    pub switched_players: bool,
}

} // verus!
