use crate::rulesets::interface::PlyTrait;
use vstd::prelude::*;

verus! {

/// Placing a stone on the cell with the given index of the 3 x 3 grid.
#[derive(Clone, Copy, Debug, PartialEq, Eq, Hash, PartialOrd, Ord, Structural)]
pub struct Ply {
    pub index: u8,
}

impl PlyTrait for Ply {

}

} // verus!
