use super::base::BitArray;
use super::instances::BitArray9Settings;
use vstd::prelude::*;

verus! {

/// A bit array of 9 bits.
pub type BitArray9 = BitArray<BitArray9Settings>;

} // verus!
