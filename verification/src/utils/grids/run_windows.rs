use crate::utils::grids::cell_runs::{grid_runs, strip_cells, strip_windows, windows_of};
use crate::utils::grids::cell_runs::lemma_grid_strips_inside;
use crate::utils::grids::strides::{grid_fits, prefix_product};
use crate::utils::grids::strips::indices::linear_index;
use crate::utils::grids::strips::iterator::{grid_strips, lemma_strip_cell_inside};
use crate::utils::grids::strips::length::{axis_length, common_axes, lemma_min_axis_length, strip_length};
use vstd::prelude::*;

verus! {

/// The cells `t` to `t + size - 1` of the strip of `dimensions` that starts at `position`
/// and moves along `direction`.
pub open spec fn window_along(
    dimensions: Seq<isize>,
    direction: Seq<isize>,
    position: Seq<isize>,
    t: int,
    size: int,
) -> Seq<usize> {
    Seq::new(
        size as nat,
        |j: int| (linear_index(dimensions, position) + (t + j) * linear_index(dimensions, direction)) as usize,
    )
}

proof fn lemma_window_in_windows_of(
    dimensions: Seq<isize>,
    strips: Seq<(Seq<isize>, Seq<isize>)>,
    size: int,
    k: int,
    t: int,
)
    requires
        0 <= k < strips.len(),
        0 <= t,
        0 <= size,
        t + size <= strip_length(dimensions, strips[k].0, strips[k].1)->0,
    ensures
        windows_of(dimensions, strips, size).contains(
            window_along(dimensions, strips[k].0, strips[k].1, t, size),
        ),
    decreases strips.len(),
{
    let window = window_along(dimensions, strips[k].0, strips[k].1, t, size);
    let before = windows_of(dimensions, strips.drop_last(), size);
    let cells = strip_cells(dimensions, strips.last().0, strips.last().1);
    let last = strip_windows(cells, size);
    assert(windows_of(dimensions, strips, size) == before + last);
    if k == strips.len() - 1 {
        assert(strips.last() == strips[k]);
        assert(last[t] =~= window);
        assert((before + last)[before.len() + t] == last[t]);
    } else {
        assert(strips.drop_last()[k] == strips[k]);
        lemma_window_in_windows_of(dimensions, strips.drop_last(), size, k, t);
        let i = choose|i: int| 0 <= i < before.len() && before[i] == window;
        assert((before + last)[i] == before[i]);
    }
}

/// Every run of `size` consecutive cells along a strip of the grid, from any cell `t` of
/// the strip with `t + size` at most the strip's length, is one of the grid's runs.
pub proof fn lemma_every_window_is_a_run(dimensions: Seq<isize>, size: int, k: int, t: int)
    requires
        0 <= k < grid_strips(dimensions).len(),
        0 <= t,
        0 <= size,
        t + size <= strip_length(
            dimensions,
            grid_strips(dimensions)[k].0,
            grid_strips(dimensions)[k].1,
        )->0,
    ensures
        grid_runs(dimensions, size).contains(
            window_along(dimensions, grid_strips(dimensions)[k].0, grid_strips(dimensions)[k].1, t, size),
        ),
{
    lemma_window_in_windows_of(dimensions, grid_strips(dimensions), size, k, t);
}

proof fn lemma_windows_of_are_windows(
    dimensions: Seq<isize>,
    strips: Seq<(Seq<isize>, Seq<isize>)>,
    size: int,
    i: int,
)
    requires
        0 <= size,
        0 <= i < windows_of(dimensions, strips, size).len(),
    ensures
        exists|k: int, t: int|
            0 <= k < strips.len() && 0 <= t && t + size <= strip_cells(dimensions, strips[k].0, strips[k].1).len()
                && windows_of(dimensions, strips, size)[i] == #[trigger] window_along(
                dimensions,
                strips[k].0,
                strips[k].1,
                t,
                size,
            ),
    decreases strips.len(),
{
    let before = windows_of(dimensions, strips.drop_last(), size);
    let cells = strip_cells(dimensions, strips.last().0, strips.last().1);
    let last = strip_windows(cells, size);
    assert(windows_of(dimensions, strips, size) == before + last);
    if i < before.len() {
        lemma_windows_of_are_windows(dimensions, strips.drop_last(), size, i);
        let (k, t) = choose|k: int, t: int|
            0 <= k < strips.drop_last().len() && 0 <= t && t + size <= strip_cells(
                dimensions,
                strips.drop_last()[k].0,
                strips.drop_last()[k].1,
            ).len() && before[i] == #[trigger] window_along(
                dimensions,
                strips.drop_last()[k].0,
                strips.drop_last()[k].1,
                t,
                size,
            );
        assert(strips.drop_last()[k] == strips[k]);
        assert((before + last)[i] == before[i]);
        assert(windows_of(dimensions, strips, size)[i] == window_along(
            dimensions,
            strips[k].0,
            strips[k].1,
            t,
            size,
        ));
    } else {
        let k = strips.len() - 1;
        let t = i - before.len();
        assert(strips.last() == strips[k]);
        assert((before + last)[i] == last[t]);
        assert(cells.len() >= size);
        assert(t + size <= cells.len());
        assert(last[t] =~= window_along(dimensions, strips[k].0, strips[k].1, t, size));
        assert(windows_of(dimensions, strips, size)[i] == window_along(
            dimensions,
            strips[k].0,
            strips[k].1,
            t,
            size,
        ));
    }
}

/// Every run of the grid is `size` consecutive cells of one of its strips: cells `t` to
/// `t + size - 1` of strip `k`, with `t + size` at most the number of cells of the strip.
pub proof fn lemma_every_run_is_a_window(dimensions: Seq<isize>, size: int, i: int)
    requires
        0 <= size,
        0 <= i < grid_runs(dimensions, size).len(),
    ensures
        exists|k: int, t: int|
            0 <= k < grid_strips(dimensions).len() && 0 <= t && t + size <= strip_cells(
                dimensions,
                grid_strips(dimensions)[k].0,
                grid_strips(dimensions)[k].1,
            ).len() && grid_runs(dimensions, size)[i] == #[trigger] window_along(
                dimensions,
                grid_strips(dimensions)[k].0,
                grid_strips(dimensions)[k].1,
                t,
                size,
            ),
{
    lemma_windows_of_are_windows(dimensions, grid_strips(dimensions), size, i);
}

/// In a grid whose dimensions are at least 2, each strip has at least one cell, and as many
/// cells as its length.
pub proof fn lemma_strip_cells_len(dimensions: Seq<isize>, k: int)
    requires
        dimensions.len() >= 1,
        forall|i: int| 0 <= i < dimensions.len() ==> #[trigger] dimensions[i] >= 2,
        0 <= k < grid_strips(dimensions).len(),
    ensures
        strip_length(dimensions, grid_strips(dimensions)[k].0, grid_strips(dimensions)[k].1) is Some,
        strip_length(dimensions, grid_strips(dimensions)[k].0, grid_strips(dimensions)[k].1)->0 >= 1,
        strip_cells(dimensions, grid_strips(dimensions)[k].0, grid_strips(dimensions)[k].1).len()
            == strip_length(dimensions, grid_strips(dimensions)[k].0, grid_strips(dimensions)[k].1)->0,
{
    lemma_grid_strips_inside(dimensions);
    let direction = grid_strips(dimensions)[k].0;
    let position = grid_strips(dimensions)[k].1;
    let n = dimensions.len() as int;
    assert(common_axes(dimensions, direction, position) == n);
    lemma_min_axis_length(dimensions, direction, position, n);
    let w = choose|w: int| 0 <= w < direction.len() && #[trigger] direction[w] != 0;
    assert(direction[w] != 0);
    let m = strip_length(dimensions, direction, position)->0;
    let i = choose|i: int|
        0 <= i < n && direction[i] != 0 && m == #[trigger] axis_length(
            dimensions[i],
            direction[i],
            position[i],
        );
    assert(0 <= position[i] < dimensions[i]);
}

/// In a grid whose dimensions are at least 2, the cells of a run along one of its strips
/// lie within the grid.
pub proof fn lemma_window_inside(dimensions: Seq<isize>, k: int, t: int, size: int, j: int)
    requires
        dimensions.len() >= 1,
        grid_fits(dimensions),
        forall|i: int| 0 <= i < dimensions.len() ==> #[trigger] dimensions[i] >= 2,
        0 <= k < grid_strips(dimensions).len(),
        0 <= t,
        0 <= j < size,
        t + size <= strip_length(dimensions, grid_strips(dimensions)[k].0, grid_strips(dimensions)[k].1)->0,
    ensures
        0 <= window_along(dimensions, grid_strips(dimensions)[k].0, grid_strips(dimensions)[k].1, t, size)[j]
            < prefix_product(dimensions, dimensions.len() as int),
{
    lemma_grid_strips_inside(dimensions);
    lemma_strip_cells_len(dimensions, k);
    lemma_strip_cell_inside(dimensions, grid_strips(dimensions)[k].0, grid_strips(dimensions)[k].1, t + j);
}

} // verus!
