use crate::rulesets::interface::PlyTrait;
use crate::rulesets::reversi::variants::BaseVariant;
use core::marker::PhantomData;
use vstd::prelude::*;

verus! {

/// A move of reversi: placing a stone on a cell, or passing.
#[derive(Copy, Debug, Hash, PartialOrd, Ord)]
pub enum Ply<Variant: BaseVariant> {
    Place(usize),
    Pass,
    Unused(PhantomData<Variant>),
}

impl<Variant: BaseVariant> Clone for Ply<Variant> {
    fn clone(&self) -> (r: Self)
        ensures
            r == *self,
    {
        *self
    }
}

/// Two plies are the same move.
pub open spec fn same_ply<Variant: BaseVariant>(a: Ply<Variant>, b: Ply<Variant>) -> bool {
    match (a, b) {
        (Ply::Place(i), Ply::Place(j)) => i == j,
        (Ply::Pass, Ply::Pass) => true,
        (Ply::Unused(_), Ply::Unused(_)) => true,
        _ => false,
    }
}

impl<Variant: BaseVariant> PartialEq for Ply<Variant> {
    fn eq(&self, other: &Self) -> (r: bool) {
        match (self, other) {
            (Ply::Place(i), Ply::Place(j)) => *i == *j,
            (Ply::Pass, Ply::Pass) => true,
            (Ply::Unused(_), Ply::Unused(_)) => true,
            _ => false,
        }
    }
}

impl<Variant: BaseVariant> vstd::std_specs::cmp::PartialEqSpecImpl for Ply<Variant> {
    open spec fn obeys_eq_spec() -> bool {
        true
    }

    open spec fn eq_spec(&self, other: &Self) -> bool {
        same_ply(*self, *other)
    }
}

impl<Variant: BaseVariant> Eq for Ply<Variant> {

}

impl<Variant: BaseVariant> PlyTrait for Ply<Variant> {

}

} // verus!
