use crate::rulesets::reversi::variants::BaseVariant;
use crate::utils::bitarray::{BitArray16Settings, BitArray36Settings, BitArray64Settings};
use vstd::prelude::*;

verus! {

/// Reversi on an 8 x 8 grid.
#[derive(Clone, Copy, Debug, PartialEq, Eq, Hash, PartialOrd, Ord, Structural)]
pub struct Classic {}

impl BaseVariant for Classic {
    type ArraySettings = BitArray64Settings;

    open spec fn spec_grid_size() -> nat {
        8
    }

    open spec fn spec_player_positions(player: int) -> Seq<usize> {
        if player == 0 {
            seq![27usize, 36usize]
        } else {
            seq![28usize, 35usize]
        }
    }

    proof fn lemma_variant() {
    }

    fn grid_size() -> (r: usize) {
        8
    }

    fn player_positions(player: usize) -> (r: Vec<usize>) {
        if player == 0 {
            vec![27, 36]
        } else {
            vec![28, 35]
        }
    }
}

/// Reversi on a 6 x 6 grid.
#[derive(Clone, Copy, Debug, PartialEq, Eq, Hash, PartialOrd, Ord, Structural)]
pub struct Mini {}

impl BaseVariant for Mini {
    type ArraySettings = BitArray36Settings;

    open spec fn spec_grid_size() -> nat {
        6
    }

    open spec fn spec_player_positions(player: int) -> Seq<usize> {
        if player == 0 {
            seq![14usize, 21usize]
        } else {
            seq![15usize, 20usize]
        }
    }

    proof fn lemma_variant() {
    }

    fn grid_size() -> (r: usize) {
        6
    }

    fn player_positions(player: usize) -> (r: Vec<usize>) {
        if player == 0 {
            vec![14, 21]
        } else {
            vec![15, 20]
        }
    }
}

/// Reversi on a 4 x 4 grid.
#[derive(Clone, Copy, Debug, PartialEq, Eq, Hash, PartialOrd, Ord, Structural)]
pub struct Micro {}

impl BaseVariant for Micro {
    type ArraySettings = BitArray16Settings;

    open spec fn spec_grid_size() -> nat {
        4
    }

    open spec fn spec_player_positions(player: int) -> Seq<usize> {
        if player == 0 {
            seq![5usize, 10usize]
        } else {
            seq![6usize, 9usize]
        }
    }

    proof fn lemma_variant() {
    }

    fn grid_size() -> (r: usize) {
        4
    }

    fn player_positions(player: usize) -> (r: Vec<usize>) {
        if player == 0 {
            vec![5, 10]
        } else {
            vec![6, 9]
        }
    }
}

} // verus!
