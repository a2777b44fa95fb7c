use super::base::BitArraySettings;
use vstd::prelude::*;

verus! {

/// Settings of a bit array of 225 bits (a 15 x 15 grid).
#[derive(Clone, Copy, Debug, PartialEq, Eq, Hash)]
pub struct BitArray225Settings {}

impl BitArraySettings for BitArray225Settings {
    open spec fn spec_size() -> nat {
        225
    }

    proof fn lemma_size_fits() {
    }

    fn size() -> (r: usize) {
        225
    }
}

/// Settings of a bit array of 9 bits (a 3 x 3 grid).
#[derive(Clone, Copy, Debug, PartialEq, Eq, Hash)]
pub struct BitArray9Settings {}

impl BitArraySettings for BitArray9Settings {
    open spec fn spec_size() -> nat {
        9
    }

    proof fn lemma_size_fits() {
    }

    fn size() -> (r: usize) {
        9
    }
}

/// Settings of a bit array of 64 bits (an 8 x 8 grid).
#[derive(Clone, Copy, Debug, PartialEq, Eq, Hash)]
pub struct BitArray64Settings {}

impl BitArraySettings for BitArray64Settings {
    open spec fn spec_size() -> nat {
        64
    }

    proof fn lemma_size_fits() {
    }

    fn size() -> (r: usize) {
        64
    }
}

/// Settings of a bit array of 36 bits (a 6 x 6 grid).
#[derive(Clone, Copy, Debug, PartialEq, Eq, Hash)]
pub struct BitArray36Settings {}

impl BitArraySettings for BitArray36Settings {
    open spec fn spec_size() -> nat {
        36
    }

    proof fn lemma_size_fits() {
    }

    fn size() -> (r: usize) {
        36
    }
}

/// Settings of a bit array of 16 bits (a 4 x 4 grid).
#[derive(Clone, Copy, Debug, PartialEq, Eq, Hash)]
pub struct BitArray16Settings {}

impl BitArraySettings for BitArray16Settings {
    open spec fn spec_size() -> nat {
        16
    }

    proof fn lemma_size_fits() {
    }

    fn size() -> (r: usize) {
        16
    }
}

} // verus!
