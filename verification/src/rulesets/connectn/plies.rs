use crate::rulesets::connectn::variants::BaseVariant;
use crate::rulesets::interface::PlyTrait;
use core::marker::PhantomData;
use vstd::prelude::*;

verus! {

/// Placing a stone on the cell with the given index.
#[derive(Copy, Debug, Hash, PartialOrd, Ord)]
pub struct Ply<Variant: BaseVariant> {
    pub index: u8,
    pub variant: PhantomData<Variant>,
}

impl<Variant: BaseVariant> Ply<Variant> {
    /// The ply on cell `index`.
    pub fn new(index: u8) -> (r: Ply<Variant>)
        ensures
            r.index == index,
    {
        Ply { index, variant: PhantomData }
    }
}

impl<Variant: BaseVariant> Clone for Ply<Variant> {
    fn clone(&self) -> (r: Self)
        ensures
            r == *self,
    {
        *self
    }
}

impl<Variant: BaseVariant> PartialEq for Ply<Variant> {
    fn eq(&self, other: &Self) -> (r: bool) {
        self.index == other.index
    }
}

impl<Variant: BaseVariant> vstd::std_specs::cmp::PartialEqSpecImpl for Ply<Variant> {
    open spec fn obeys_eq_spec() -> bool {
        true
    }

    open spec fn eq_spec(&self, other: &Self) -> bool {
        self.index == other.index
    }
}

impl<Variant: BaseVariant> Eq for Ply<Variant> {

}

impl<Variant: BaseVariant> PlyTrait for Ply<Variant> {

}

/// A ply of tic-tac-toe.
pub type TicTacToePly = Ply<crate::rulesets::connectn::variants::TicTacToe>;

/// A ply of gomoku.
pub type GomokuPly = Ply<crate::rulesets::connectn::variants::Gomoku>;

} // verus!
