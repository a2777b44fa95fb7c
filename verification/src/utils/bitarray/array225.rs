use super::base::BitArray;
use super::instances::BitArray225Settings;
use vstd::prelude::*;

verus! {

/// A bit array of 225 bits.
pub type BitArray225 = BitArray<BitArray225Settings>;

} // verus!
