use crate::utils::grids::strides::compute_strides;
use crate::utils::grids::strips::indices::{linear_index, strip_arguments_fit};
use crate::utils::grids::strips::length::{length, strip_length};
use crate::utils::vectors::dot_product::dot_product;
use vstd::prelude::*;

verus! {

/// The linear indices of the cells of a strip, as signed integers.
#[derive(Debug)]
pub struct StripIndices {
    step: isize,
    current: isize,
    remaining_count: isize,
}

impl StripIndices {
    /// Step between two consecutive indices.
    pub closed spec fn step(&self) -> int {
        self.step as int
    }

    /// The index that the next call of `next` yields.
    pub closed spec fn position(&self) -> int {
        self.current as int
    }

    /// Number of indices left to yield.
    pub closed spec fn remaining(&self) -> int {
        self.remaining_count as int
    }

    /// The strip of the grid with the given dimensions that starts at `origin` and moves
    /// along `direction`.
    pub fn new(dimensions: &[isize], direction: &[isize], origin: &[isize]) -> (r: StripIndices)
        requires
            strip_arguments_fit(dimensions@, direction@, origin@),
        ensures
            r.position() == linear_index(dimensions@, origin@),
            r.step() == linear_index(dimensions@, direction@),
            strip_length(dimensions@, direction@, origin@) == Some(r.remaining()),
    {
        let strides = compute_strides(dimensions);
        let step = dot_product(&strides, direction);
        let start = dot_product(&strides, origin);
        let strip_length = length(dimensions, direction, origin);
        StripIndices { current: start, step, remaining_count: strip_length }
    }

    /// Yields the next index of the strip, if any is left.
    pub fn next(&mut self) -> (r: Option<isize>)
        requires
            old(self).remaining() != 0 ==> isize::MIN <= old(self).position() + old(self).step()
                <= isize::MAX && old(self).remaining() > isize::MIN,
        ensures
            final(self).step() == old(self).step(),
            old(self).remaining() == 0 ==> r is None && final(self).position() == old(self).position()
                && final(self).remaining() == 0,
            old(self).remaining() != 0 ==> r == Some(old(self).position() as isize)
                && final(self).position() == old(self).position() + old(self).step()
                && final(self).remaining() == old(self).remaining() - 1,
    {
        if self.remaining_count == 0 {
            return None;
        }
        let result = self.current;
        self.current = self.current + self.step;
        self.remaining_count = self.remaining_count - 1;
        Some(result)
    }
}

} // verus!
