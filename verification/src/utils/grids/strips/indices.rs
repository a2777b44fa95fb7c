use crate::utils::grids::strides::{compute_strides, products_fit, strides_of};
use crate::utils::grids::strips::length::{axis_lengths_fit, length, strip_length};
use crate::utils::vectors::dot_product::{common_len, dot, dot_fits, dot_product};
use vstd::prelude::*;

verus! {

/// The requirements of `Indices::new` on its arguments.
pub open spec fn strip_arguments_fit(
    dimensions: Seq<isize>,
    direction: Seq<isize>,
    origin: Seq<isize>,
) -> bool {
    &&& products_fit(dimensions)
    &&& dot_fits(strides_of(dimensions), direction)
    &&& dot_fits(strides_of(dimensions), origin)
    &&& strip_length(dimensions, direction, origin) is Some
    &&& axis_lengths_fit(dimensions, direction, origin)
}

/// Linear index of a position: its dot product with the strides of the grid.
pub open spec fn linear_index(dimensions: Seq<isize>, position: Seq<isize>) -> int {
    dot(strides_of(dimensions), position, common_len(strides_of(dimensions), position))
}

/// The linear indices of the cells of a strip: `start`, `start + step`, ... (`length` of them).
#[derive(Clone, Copy, Debug)]
pub struct Indices {
    pub start: isize,
    pub step: isize,
    pub length: isize,
    pub current: isize,
    pub remaining_count: isize,
}

impl Indices {
    /// The strip of the grid with the given dimensions that starts at `origin` and moves
    /// along `direction`.
    pub fn new(dimensions: &[isize], direction: &[isize], origin: &[isize]) -> (r: Indices)
        requires
            strip_arguments_fit(dimensions@, direction@, origin@),
        ensures
            r.start == linear_index(dimensions@, origin@),
            r.step == linear_index(dimensions@, direction@),
            strip_length(dimensions@, direction@, origin@) == Some(r.length as int),
            r.current == r.start,
            r.remaining_count == r.length,
    {
        let strides = compute_strides(dimensions);
        let step = dot_product(&strides, direction);
        let start = dot_product(&strides, origin);
        let strip_length = length(dimensions, direction, origin);
        Indices { start, step, length: strip_length, current: start, remaining_count: strip_length }
    }

    /// The strip with no cell.
    pub fn empty() -> (r: Indices)
        ensures
            r.start == 0,
            r.step == 0,
            r.length == 0,
            r.current == 0,
            r.remaining_count == 0,
    {
        Indices { step: 0, current: 0, remaining_count: 0, start: 0, length: 0 }
    }

    /// Restarts the iteration at the first cell of the strip.
    pub fn reset(&mut self)
        ensures
            final(self).start == old(self).start,
            final(self).step == old(self).step,
            final(self).length == old(self).length,
            final(self).current == old(self).start,
            final(self).remaining_count == old(self).length,
    {
        self.current = self.start;
        self.remaining_count = self.length;
    }

    /// Yields the next index of the strip, if any is left.
    pub fn next(&mut self) -> (r: Option<usize>)
        requires
            old(self).remaining_count != 0 ==> isize::MIN <= old(self).current + old(self).step
                <= isize::MAX && old(self).remaining_count > isize::MIN,
        ensures
            final(self).start == old(self).start,
            final(self).step == old(self).step,
            final(self).length == old(self).length,
            old(self).remaining_count == 0 ==> r is None && final(self).current == old(self).current
                && final(self).remaining_count == 0,
            old(self).remaining_count != 0 ==> r == Some(old(self).current as usize)
                && final(self).current == old(self).current + old(self).step
                && final(self).remaining_count == old(self).remaining_count - 1,
    {
        if self.remaining_count == 0 {
            return None;
        }
        let result = self.current as usize;
        self.current = self.current + self.step;
        self.remaining_count = self.remaining_count - 1;
        Some(result)
    }
}

} // verus!
