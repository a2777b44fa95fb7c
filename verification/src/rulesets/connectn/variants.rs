use crate::utils::bitarray::{BitArray225Settings, BitArray9Settings, BitArraySettings};
use vstd::prelude::*;

verus! {

/// A game of connecting runs of cells on a square grid.
pub trait BaseVariant: Copy {
    /// The bit arrays that hold one bit per cell.
    type ArraySettings: BitArraySettings;

    /// Number of cells along each side of the grid.
    spec fn spec_grid_size() -> nat;

    /// Number of cells in a row that wins.
    spec fn spec_run_count() -> nat;

    /// The grid has between 2 and 15 cells per side, a winning run fits along a side, and the
    /// bit arrays have one bit per cell.
    proof fn lemma_variant()
        ensures
            2 <= Self::spec_grid_size() <= 15,
            1 <= Self::spec_run_count() <= Self::spec_grid_size(),
            Self::ArraySettings::spec_size() == Self::spec_grid_size() * Self::spec_grid_size(),
    ;

    fn grid_size() -> (r: usize)
        ensures
            r == Self::spec_grid_size(),
    ;

    fn run_count() -> (r: usize)
        ensures
            r == Self::spec_run_count(),
    ;
}

/// Five in a row on a 15 x 15 grid.
#[derive(Clone, Copy, Debug, PartialEq, Eq, Hash, PartialOrd, Ord, Structural)]
pub struct Gomoku {}

impl BaseVariant for Gomoku {
    type ArraySettings = BitArray225Settings;

    open spec fn spec_grid_size() -> nat {
        15
    }

    open spec fn spec_run_count() -> nat {
        5
    }

    proof fn lemma_variant() {
    }

    fn grid_size() -> (r: usize) {
        15
    }

    fn run_count() -> (r: usize) {
        5
    }
}

/// Three in a row on a 3 x 3 grid.
#[derive(Clone, Copy, Debug, PartialEq, Eq, Hash, PartialOrd, Ord, Structural)]
pub struct TicTacToe {}

impl BaseVariant for TicTacToe {
    type ArraySettings = BitArray9Settings;

    open spec fn spec_grid_size() -> nat {
        3
    }

    open spec fn spec_run_count() -> nat {
        3
    }

    proof fn lemma_variant() {
    }

    fn grid_size() -> (r: usize) {
        3
    }

    fn run_count() -> (r: usize) {
        3
    }
}

} // verus!
