use crate::utils::grids::directions::{
    components_fit, direction_count, direction_rank, power_of_two,
};
use crate::utils::grids::strides::grid_fits;
use crate::utils::grids::strips::indices::{linear_index, Indices};
use crate::utils::grids::strips::iterator::{
    all_strips, axis_plane, first_direction, grid_bound, grid_strips, inside_grid, is_strip_of,
    lemma_strip_cell_inside, lemma_strip_step, lemma_strips_after_inside, no_starts, strips_after,
    signed_dimensions,
    strip_direction, strip_fits, strip_progress_less, strip_step, StripIterator,
};
use crate::utils::grids::strides::prefix_product;
use crate::utils::grids::symmetries::table::index_views;
use crate::utils::grids::strips::length::strip_length;
use crate::utils::grids::strips::starts::{
    plane_count, plane_rank, position_count, position_rank, start_model_wf, StartModel,
};
use vstd::prelude::*;

verus! {

/// The linear indices of the cells of the strip of `dimensions` that starts at `position`
/// and moves along `direction`.
pub open spec fn strip_cells(
    dimensions: Seq<isize>,
    direction: Seq<isize>,
    position: Seq<isize>,
) -> Seq<usize> {
    let start = linear_index(dimensions, position);
    let step = linear_index(dimensions, direction);
    let length = strip_length(dimensions, direction, position)->0;
    Seq::new(length as nat, |k: int| (start + k * step) as usize)
}

/// The state of a run iterator after its next call — direction, start iterator state,
/// current strip and index within it — and the run it yields: the next `size` consecutive
/// cells of the current strip, else the first ones of the next strip long enough.
pub open spec fn next_cell_run(
    size: int,
    dimensions: Seq<isize>,
    positive_plane: Seq<isize>,
    direction: Seq<isize>,
    starts: StartModel,
    cells: Seq<usize>,
    index: int,
) -> (Seq<isize>, StartModel, Seq<usize>, int, Option<Seq<usize>>)
    decreases direction_count(direction.len()) - direction_rank(direction), plane_count(starts.0)
        - plane_rank(starts.2, starts.0), position_count(starts) - position_rank(starts),
    when components_fit(direction) && direction.len() == dimensions.len() && start_model_wf(starts)
        && (starts.0.len() == 0 || starts.0 == dimensions)
{
    let i = index + 1;
    if i + size <= cells.len() {
        (direction, starts, cells, i, Some(cells.subrange(i, i + size)))
    } else {
        let (next_direction, next_starts, found) = strip_step(
            dimensions,
            direction,
            positive_plane,
            starts,
        );
        if found {
            proof {
                lemma_strip_step(dimensions, direction, positive_plane, starts);
                assert(strip_progress_less(direction, starts, next_direction, next_starts));
                if direction_rank(direction) < direction_rank(next_direction) {
                    assert(direction_count(next_direction.len()) - direction_rank(next_direction)
                        < direction_count(direction.len()) - direction_rank(direction));
                } else if next_direction == direction && next_starts.0 == starts.0 && plane_rank(
                    starts.2,
                    starts.0,
                ) < plane_rank(next_starts.2, next_starts.0) {
                    assert(plane_count(next_starts.0) - plane_rank(next_starts.2, next_starts.0)
                        < plane_count(starts.0) - plane_rank(starts.2, starts.0));
                } else {
                    assert(position_count(next_starts) == position_count(starts)) by {
                        assert(crate::utils::grids::strips::starts::position_sizes(next_starts)
                            =~= crate::utils::grids::strips::starts::position_sizes(starts));
                    }
                }
            }
            next_cell_run(
                size,
                dimensions,
                positive_plane,
                next_direction,
                next_starts,
                strip_cells(dimensions, next_direction, next_starts.4),
                -1,
            )
        } else {
            (next_direction, next_starts, cells, i, None)
        }
    }
}

fn copy_window(cells: &Vec<usize>, start: usize, size: usize) -> (r: Vec<usize>)
    requires
        start + size <= cells@.len(),
    ensures
        r@ == cells@.subrange(start as int, start + size),
{
    let mut run: Vec<usize> = Vec::new();
    let mut k: usize = 0;
    let length = cells.len();
    while k < size
        invariant
            k <= size,
            length == cells@.len(),
            start + size <= cells@.len(),
            run@ == cells@.subrange(start as int, start + k),
        decreases size - k,
    {
        run.push(cells[start + k]);
        k = k + 1;
        assert(run@ =~= cells@.subrange(start as int, start + k));
    }
    run
}

fn strip_to_cells(strip: Indices, Ghost(bound): Ghost<int>) -> (r: Vec<usize>)
    requires
        strip_fits(strip, bound),
    ensures
        r@ == Seq::new(strip.length as nat, |k: int| (strip.start + k * strip.step) as usize),
{
    let mut iterator = strip;
    let mut cells: Vec<usize> = Vec::new();
    let mut k: usize = 0;
    loop
        invariant
            strip_fits(strip, bound),
            0 <= k <= strip.length,
            iterator.start == strip.start,
            iterator.step == strip.step,
            iterator.current == strip.start + k * strip.step,
            iterator.remaining_count == strip.length - k,
            cells@ == Seq::new(k as nat, |m: int| (strip.start + m * strip.step) as usize),
        decreases strip.length - k,
    {
        proof {
            if k < strip.length {
                assert(-bound <= strip.start + (k + 1) * strip.step <= bound);
                assert(strip.start + (k + 1) * strip.step == strip.start + k * strip.step
                    + strip.step) by (nonlinear_arith);
            }
        }
        match iterator.next() {
            Some(cell) => {
                cells.push(cell);
                k = k + 1;
                assert(cells@ =~= Seq::new(k as nat, |m: int| (strip.start + m * strip.step) as usize));
            },
            None => {
                return cells;
            },
        }
    }
}

/// Enumerates the runs of `size` consecutive cells along the strips of a grid.
pub struct CellRuns {
    pub size: usize,
    pub strips: StripIterator,
    pub current_strip: Vec<usize>,
    pub current_index: isize,
}

impl CellRuns {
    /// The strip iterator is consistent, and the index is at least -1.
    pub open spec fn wf(&self) -> bool {
        &&& self.strips.wf()
        &&& self.size <= isize::MAX
        &&& self.current_strip@.len() < isize::MAX
        &&& -1 <= self.current_index
    }

    /// Starts before the first run of `size` cells of a grid with the given dimensions.
    pub fn new(dimensions: Vec<usize>, size: usize) -> (r: CellRuns)
        requires
            dimensions@.len() >= 1,
            power_of_two(dimensions@.len() as int) - 1 <= isize::MAX,
            forall|k: int| 0 <= k < dimensions@.len() ==> #[trigger] dimensions@[k] <= isize::MAX,
            grid_fits(Seq::new(dimensions@.len(), |k: int| dimensions@[k] as isize)),
            size <= isize::MAX,
        ensures
            r.wf(),
            r.size == size,
            r.strips.dimensions@ == Seq::new(dimensions@.len(), |k: int| dimensions@[k] as isize),
            r.strips.directions.current_value@ == Seq::new(
                dimensions@.len(),
                |k: int|
                    if k == 0 {
                        -2isize
                    } else {
                        -1isize
                    },
            ),
            r.strips.strip_starts.dimensions@.len() == 0,
            r.current_strip@.len() == 0,
            r.current_index == 0,
    {
        let strips = StripIterator::new(dimensions);
        CellRuns { size, strips, current_strip: Vec::new(), current_index: 0 }
    }

    /// Yields the next run of `size` consecutive cells; `None` when none is left.
    pub fn next(&mut self) -> (r: Option<Vec<usize>>)
        requires
            old(self).wf(),
            old(self).current_index < isize::MAX,
        ensures
            final(self).wf(),
            final(self).size == old(self).size,
            final(self).strips.dimensions@ == old(self).strips.dimensions@,
            final(self).strips.directions.positive_plane@
                == old(self).strips.directions.positive_plane@,
            ({
                let (direction, starts, cells, index, run) = next_cell_run(
                    old(self).size as int,
                    old(self).strips.dimensions@,
                    old(self).strips.directions.positive_plane@,
                    old(self).strips.directions.current_value@,
                    old(self).strips.strip_starts.model(),
                    old(self).current_strip@,
                    old(self).current_index as int,
                );
                &&& final(self).strips.directions.current_value@ == direction
                &&& final(self).strips.strip_starts.model() == starts
                &&& final(self).current_strip@ == cells
                &&& final(self).current_index == index
                &&& match (r, run) {
                    (Some(v), Some(s)) => v@ == s,
                    (None, None) => true,
                    _ => false,
                }
            }),
    {
        loop
            invariant
                self.wf(),
                self.size == old(self).size,
                self.strips.dimensions@ == old(self).strips.dimensions@,
                self.strips.directions.positive_plane@
                    == old(self).strips.directions.positive_plane@,
                self.current_index < isize::MAX,
                next_cell_run(
                    self.size as int,
                    self.strips.dimensions@,
                    self.strips.directions.positive_plane@,
                    self.strips.directions.current_value@,
                    self.strips.strip_starts.model(),
                    self.current_strip@,
                    self.current_index as int,
                ) == next_cell_run(
                    old(self).size as int,
                    old(self).strips.dimensions@,
                    old(self).strips.directions.positive_plane@,
                    old(self).strips.directions.current_value@,
                    old(self).strips.strip_starts.model(),
                    old(self).current_strip@,
                    old(self).current_index as int,
                ),
            decreases direction_count(self.strips.directions.current_value@.len())
                - direction_rank(self.strips.directions.current_value@),
                plane_count(self.strips.strip_starts.model().0) - plane_rank(
                    self.strips.strip_starts.model().2,
                    self.strips.strip_starts.model().0,
                ),
                position_count(self.strips.strip_starts.model()) - position_rank(
                    self.strips.strip_starts.model(),
                ),
        {
            let ghost dims = self.strips.dimensions@;
            let ghost plane = self.strips.directions.positive_plane@;
            let ghost direction = self.strips.directions.current_value@;
            let ghost starts = self.strips.strip_starts.model();
            proof {
                lemma_strip_step(dims, direction, plane, starts);
            }
            self.current_index = self.current_index + 1;
            let index = self.current_index as usize;
            let length = self.current_strip.len();
            if index <= length && self.size <= length - index {
                return Some(copy_window(&self.current_strip, index, self.size));
            }
            match self.strips.next() {
                Some(strip) => {
                    self.current_strip = strip_to_cells(strip, Ghost(grid_bound(dims)));
                    self.current_index = -1;
                    proof {
                        assert(self.current_strip@ =~= strip_cells(
                            dims,
                            self.strips.directions.current_value@,
                            self.strips.strip_starts.current_position@,
                        ));
                    }
                },
                None => {
                    return None;
                },
            }
        }
    }
}

/// The runs of `size` consecutive cells of a strip, in order.
pub open spec fn strip_windows(cells: Seq<usize>, size: int) -> Seq<Seq<usize>> {
    if cells.len() < size {
        seq![]
    } else {
        Seq::new((cells.len() - size + 1) as nat, |i: int| cells.subrange(i, i + size))
    }
}

/// The runs of `size` consecutive cells of the given strips, strip by strip.
pub open spec fn windows_of(
    dimensions: Seq<isize>,
    strips: Seq<(Seq<isize>, Seq<isize>)>,
    size: int,
) -> Seq<Seq<usize>>
    decreases strips.len(),
{
    if strips.len() == 0 {
        seq![]
    } else {
        windows_of(dimensions, strips.drop_last(), size) + strip_windows(
            strip_cells(dimensions, strips.last().0, strips.last().1),
            size,
        )
    }
}

/// The runs of `size` consecutive cells of a grid, in the order in which `CellRuns` yields
/// them: strip by strip, and within a strip from its first cell on.
pub open spec fn grid_runs(dimensions: Seq<isize>, size: int) -> Seq<Seq<usize>> {
    windows_of(dimensions, grid_strips(dimensions), size)
}

/// The strips of a grid whose dimensions are at least 2 move along strip directions from
/// positions within the grid.
pub proof fn lemma_grid_strips_inside(dims: Seq<isize>)
    requires
        dims.len() >= 1,
        forall|k: int| 0 <= k < dims.len() ==> #[trigger] dims[k] >= 2,
    ensures
        forall|k: int|
            0 <= k < grid_strips(dims).len() ==> inside_grid(dims, #[trigger] grid_strips(dims)[k].1)
                && strip_direction(grid_strips(dims)[k].0) && grid_strips(dims)[k].0.len()
                == dims.len(),
{
    let n = dims.len();
    assert(crate::utils::grids::strips::iterator::strip_state_wf(dims, first_direction(n), no_starts()));
    lemma_strips_after_inside(dims, axis_plane(n), first_direction(n), no_starts());
    let all = strips_after(dims, axis_plane(n), first_direction(n), no_starts());
    assert(grid_strips(dims) == all);
    assert forall|k: int| 0 <= k < all.len() implies inside_grid(dims, #[trigger] all[k].1)
        && strip_direction(all[k].0) && all[k].0.len() == dims.len() by {
        assert(inside_grid(dims, all[k].1));
    }
    assert forall|k: int| 0 <= k < grid_strips(dims).len() implies inside_grid(
        dims,
        #[trigger] grid_strips(dims)[k].1,
    ) && strip_direction(grid_strips(dims)[k].0) && grid_strips(dims)[k].0.len() == dims.len() by {
        assert(grid_strips(dims)[k] == all[k]);
        assert(inside_grid(dims, all[k].1) && strip_direction(all[k].0));
    }
}

/// Collects the runs of `size` consecutive cells of a grid, strip by strip.
pub fn all_runs(dimensions: Vec<usize>, size: usize) -> (r: Vec<Vec<usize>>)
    requires
        dimensions@.len() >= 1,
        power_of_two(dimensions@.len() as int) - 1 <= isize::MAX,
        forall|k: int| 0 <= k < dimensions@.len() ==> #[trigger] dimensions@[k] <= isize::MAX,
        grid_fits(signed_dimensions(dimensions@)),
    ensures
        index_views(r@) == grid_runs(signed_dimensions(dimensions@), size as int),
        (forall|k: int| 0 <= k < dimensions@.len() ==> #[trigger] dimensions@[k] >= 2) ==> (forall|
            i: int,
            j: int,
        |
            0 <= i < r@.len() && 0 <= j < r@[i]@.len() ==> #[trigger] r@[i]@[j] < prefix_product(
                signed_dimensions(dimensions@),
                dimensions@.len() as int,
            )),
{
    let ghost dims = signed_dimensions(dimensions@);
    let ghost n = dims.len();
    let ghost cells_count = prefix_product(dims, n as int);
    let ghost inside = forall|k: int| 0 <= k < dimensions@.len() ==> #[trigger] dimensions@[k] >= 2;
    let ghost all = grid_strips(dims);
    proof {
        if inside {
            assert forall|k: int| 0 <= k < n implies #[trigger] dims[k] >= 2 by {
                assert(dimensions@[k] >= 2);
            }
            lemma_grid_strips_inside(dims);
        }
    }
    let strips = all_strips(dimensions);
    let mut runs: Vec<Vec<usize>> = Vec::new();
    let mut i: usize = 0;
    proof {
        assert(all.subrange(0, 0) =~= seq![]);
        assert(index_views(runs@) =~= windows_of(dims, all.subrange(0, 0), size as int));
    }
    while i < strips.len()
        invariant
            i <= strips@.len(),
            strips@.len() == all.len(),
            all == grid_strips(dims),
            n == dims.len(),
            cells_count == prefix_product(dims, n as int),
            grid_fits(dims),
            forall|k: int|
                0 <= k < strips@.len() ==> #[trigger] is_strip_of(strips@[k], dims, all[k].0, all[k].1)
                    && strip_fits(strips@[k], grid_bound(dims)),
            inside ==> forall|k: int|
                0 <= k < all.len() ==> inside_grid(dims, #[trigger] all[k].1) && strip_direction(
                    all[k].0,
                ) && all[k].0.len() == dims.len(),
            index_views(runs@) == windows_of(dims, all.subrange(0, i as int), size as int),
            inside ==> forall|a: int, b: int|
                0 <= a < runs@.len() && 0 <= b < runs@[a]@.len() ==> #[trigger] runs@[a]@[b]
                    < cells_count,
        decreases strips.len() - i,
    {
        let strip = strips[i];
        let ghost s = all[i as int];
        assert(is_strip_of(strips@[i as int], dims, all[i as int].0, all[i as int].1) && strip_fits(
            strips@[i as int],
            grid_bound(dims),
        ));
        let cells = strip_to_cells(strip, Ghost(grid_bound(dims)));
        proof {
            assert(strip.length == strip_length(dims, s.0, s.1)->0);
            assert(cells@ =~= strip_cells(dims, s.0, s.1));
            if inside {
                assert forall|t: int| 0 <= t < cells@.len() implies #[trigger] cells@[t]
                    < cells_count by {
                    lemma_strip_cell_inside(dims, s.0, s.1, t);
                }
            }
        }
        let ghost before = index_views(runs@);
        let length = cells.len();
        if size <= length {
            let mut w: usize = 0;
            while w <= length - size
                invariant
                    size <= length,
                    length == cells@.len(),
                    length < isize::MAX,
                    w <= length - size + 1,
                    index_views(runs@) == before + strip_windows(cells@, size as int).subrange(
                        0,
                        w as int,
                    ),
                    inside ==> forall|t: int| 0 <= t < cells@.len() ==> #[trigger] cells@[t] < cells_count,
                    inside ==> forall|a: int, b: int|
                        0 <= a < runs@.len() && 0 <= b < runs@[a]@.len() ==> #[trigger] runs@[a]@[b]
                            < cells_count,
                decreases length - size + 1 - w,
            {
                let window = copy_window(&cells, w, size);
                let ghost old_runs = runs@;
                runs.push(window);
                proof {
                    assert(index_views(runs@) =~= index_views(old_runs).push(window@));
                    assert(strip_windows(cells@, size as int).subrange(0, w + 1) =~= strip_windows(
                        cells@,
                        size as int,
                    ).subrange(0, w as int).push(window@));
                    if inside {
                        assert forall|a: int, b: int|
                            0 <= a < runs@.len() && 0 <= b < runs@[a]@.len() implies #[trigger] runs@[a]@[b]
                                < cells_count by {
                            if a == runs@.len() - 1 {
                                assert(runs@[a]@[b] == cells@[w + b]);
                            } else {
                                assert(runs@[a] == old_runs[a]);
                            }
                        }
                    }
                }
                w = w + 1;
            }
            proof {
                assert(strip_windows(cells@, size as int).subrange(0, w as int) =~= strip_windows(
                    cells@,
                    size as int,
                ));
            }
        } else {
            proof {
                assert(strip_windows(cells@, size as int) =~= seq![]);
                assert(index_views(runs@) =~= before + strip_windows(cells@, size as int));
            }
        }
        proof {
            let sub = all.subrange(0, i + 1);
            assert(sub.drop_last() =~= all.subrange(0, i as int));
            assert(sub.last() == s);
        }
        i = i + 1;
    }
    proof {
        assert(all.subrange(0, all.len() as int) =~= all);
    }
    runs
}

} // verus!
