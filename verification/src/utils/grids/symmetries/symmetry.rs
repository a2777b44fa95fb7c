use vstd::prelude::*;

verus! {

/// A symmetry of a grid: axis `i` of the image is axis `permutation[i]` of the source,
/// read forwards when `destination[i]` holds and backwards otherwise.
#[derive(Clone, Debug, Eq, Hash, PartialEq)]
pub struct Symmetry {
    pub destination: Vec<bool>,
    pub permutation: Vec<isize>,
}

} // verus!
