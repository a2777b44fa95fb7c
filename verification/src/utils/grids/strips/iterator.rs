use crate::utils::grids::directions::{cross, power_of_two, components_fit, direction_count, direction_rank, lemma_cross_nonzero, lemma_direction_rank_bound, lemma_next_forward, next_forward_direction, DirectionIterator};
use crate::utils::grids::strides::{lemma_linear_index_in_grid, shifted_dot, grid_fits, lemma_dot_fits_in_grid, lemma_grid_products_fit, lemma_prefix_product_monotonic, lemma_shifted_dot_bound, lemma_shifted_dot_linear, prefix_product, strides_of};
use crate::utils::grids::strips::indices::{linear_index, strip_arguments_fit, Indices};
use crate::utils::grids::strips::length::{axis_length, axis_lengths_fit, common_axes, lemma_min_axis_length, strip_length};
use crate::utils::grids::strips::starts::{fresh_start, lemma_start_model_bounds, lemma_start_step, lemma_start_step_box, plane_count, plane_rank, position_count, position_rank, start_in_box, start_model_wf, start_step, lemma_start_step_grid, start_in_grid, StartIterator, StartModel};
use crate::utils::vectors::dot_product::{common_len, dot};
use vstd::prelude::*;

verus! {

/// The state that a strip iterator moves to — its direction and the state of its start
/// iterator — and whether it found a strip: the next start for the current direction, else
/// the first start for the next forward direction.
pub open spec fn strip_step(
    dimensions: Seq<isize>,
    direction: Seq<isize>,
    positive_plane: Seq<isize>,
    starts: StartModel,
) -> (Seq<isize>, StartModel, bool)
    decreases direction_count(direction.len()) - direction_rank(direction),
    when components_fit(direction)
{
    let (next_starts, found) = start_step(starts);
    if found {
        (direction, next_starts, true)
    } else {
        let (next_direction, ok) = next_forward_direction(direction, positive_plane);
        if ok {
            proof {
                lemma_next_forward(direction, positive_plane);
            }
            strip_step(
                dimensions,
                next_direction,
                positive_plane,
                fresh_start(dimensions, next_direction),
            )
        } else {
            (next_direction, next_starts, false)
        }
    }
}

/// Bound on the absolute value of the linear index of a point at most one cell outside a
/// grid.
pub open spec fn grid_bound(dimensions: Seq<isize>) -> int {
    dimensions.len() * prefix_product(dimensions, dimensions.len() as int)
}

/// A strip that has not been iterated yet and whose indices, the one past its end
/// included, are within `bound` in absolute value.
pub open spec fn strip_fits(strip: Indices, bound: int) -> bool {
    &&& 0 <= strip.length < isize::MAX
    &&& strip.current == strip.start
    &&& strip.remaining_count == strip.length
    &&& bound <= isize::MAX
    &&& forall|t: int|
        0 <= t <= strip.length ==> -bound <= #[trigger] (strip.start + t * strip.step) <= bound
}

/// The strip of `dimensions` that starts at `position` and moves along `direction`.
pub open spec fn is_strip_of(
    strip: Indices,
    dimensions: Seq<isize>,
    direction: Seq<isize>,
    position: Seq<isize>,
) -> bool {
    &&& strip.start == linear_index(dimensions, position)
    &&& strip.step == linear_index(dimensions, direction)
    &&& strip_length(dimensions, direction, position) == Some(strip.length as int)
    &&& strip.current == strip.start
    &&& strip.remaining_count == strip.length
}

proof fn lemma_strip_arguments(dims: Seq<isize>, direction: Seq<isize>, position: Seq<isize>)
    requires
        dims.len() >= 1,
        grid_fits(dims),
        direction.len() == dims.len(),
        position.len() == dims.len(),
        forall|k: int| 0 <= k < dims.len() ==> -1 <= #[trigger] direction[k] <= 1,
        exists|k: int| 0 <= k < dims.len() && #[trigger] direction[k] != 0,
        forall|k: int| 0 <= k < dims.len() ==> -1 <= #[trigger] position[k] <= dims[k],
    ensures
        strip_arguments_fit(dims, direction, position),
        strip_length(dims, direction, position) matches Some(m) && 0 <= m < isize::MAX && (forall|t: int|
            0 <= t <= m ==> -grid_bound(dims) <= #[trigger] (linear_index(dims, position) + t
                * linear_index(dims, direction)) <= grid_bound(dims)),
        grid_bound(dims) <= isize::MAX,
{
    let n = dims.len() as int;
    lemma_grid_products_fit(dims);
    lemma_dot_fits_in_grid(dims, direction);
    lemma_dot_fits_in_grid(dims, position);
    lemma_min_axis_length(dims, direction, position, n);
    assert(common_axes(dims, direction, position) == n);
    let total = prefix_product(dims, n);
    assert forall|k: int| 0 <= k < n implies #[trigger] dims[k] <= total by {
        lemma_prefix_product_monotonic(dims, k, k + 1);
        lemma_prefix_product_monotonic(dims, k + 1, n);
        let p = prefix_product(dims, k);
        let d = dims[k];
        assert(d <= p * d) by (nonlinear_arith)
            requires
                p >= 1,
                d >= 1,
        ;
    }
    assert(2 * total <= (n + 1) * total) by (nonlinear_arith)
        requires
            n >= 1,
            total >= 1,
    ;
    assert(n * total <= (n + 1) * total) by (nonlinear_arith)
        requires
            n >= 1,
            total >= 1,
    ;
    assert(axis_lengths_fit(dims, direction, position));
    let m = strip_length(dims, direction, position)->0;
    assert(m >= 0);
    assert(m < isize::MAX);
    assert forall|t: int| 0 <= t <= m implies -grid_bound(dims) <= #[trigger] (linear_index(
        dims,
        position,
    ) + t * linear_index(dims, direction)) <= grid_bound(dims) by {
        let strides = strides_of(dims);
        assert(common_len(strides, position) == n);
        assert(common_len(strides, direction) == n);
        lemma_shifted_dot_linear(strides, position, direction, t, n);
        assert forall|i: int| 0 <= i < n implies -1 <= #[trigger] (position[i] + t * direction[i])
            <= dims[i] by {
            if direction[i] > 0 {
                assert(m <= axis_length(dims[i], direction[i], position[i]));
                assert(t * direction[i] == t);
            } else if direction[i] < 0 {
                assert(m <= axis_length(dims[i], direction[i], position[i]));
                assert(direction[i] == -1);
                assert(t * direction[i] == -t);
            } else {
                assert(t * direction[i] == 0);
            }
        }
        lemma_shifted_dot_bound(dims, position, direction, t, n);
    }
}

/// The first direction of a direction iterator over `n` axes.
pub open spec fn first_direction(n: nat) -> Seq<isize> {
    Seq::new(
        n,
        |k: int|
            if k == 0 {
                -2isize
            } else {
                -1isize
            },
    )
}

/// The weights that tell forward directions from backward ones over `n` axes.
pub open spec fn axis_plane(n: nat) -> Seq<isize> {
    Seq::new(n, |k: int| power_of_two(k) as isize)
}

/// The state of a start iterator that has no grid yet.
pub open spec fn no_starts() -> StartModel {
    fresh_start(seq![], seq![])
}

/// The state of a strip iterator is consistent: the arguments under which it steps.
pub open spec fn strip_state_wf(
    dimensions: Seq<isize>,
    direction: Seq<isize>,
    starts: StartModel,
) -> bool {
    &&& components_fit(direction)
    &&& direction.len() == dimensions.len()
    &&& start_model_wf(starts)
    &&& (starts.0.len() == 0 || starts.0 == dimensions)
}

/// The strips that a strip iterator yields from the given state on, each given by its
/// direction and its starting position.
pub open spec fn strips_after(
    dimensions: Seq<isize>,
    positive_plane: Seq<isize>,
    direction: Seq<isize>,
    starts: StartModel,
) -> Seq<(Seq<isize>, Seq<isize>)>
    decreases direction_count(direction.len()) - direction_rank(direction), plane_count(starts.0)
        - plane_rank(starts.2, starts.0), position_count(starts) - position_rank(starts),
    when strip_state_wf(dimensions, direction, starts)
{
    let (next_direction, next_starts, found) = strip_step(
        dimensions,
        direction,
        positive_plane,
        starts,
    );
    if found {
        proof {
            lemma_strip_step(dimensions, direction, positive_plane, starts);
            lemma_strip_progress_measure(direction, starts, next_direction, next_starts);
        }
        seq![(next_direction, next_starts.4)] + strips_after(
            dimensions,
            positive_plane,
            next_direction,
            next_starts,
        )
    } else {
        seq![]
    }
}

/// Progress of a strip iterator decreases its measure lexicographically.
pub proof fn lemma_strip_progress_measure(
    direction: Seq<isize>,
    starts: StartModel,
    next_direction: Seq<isize>,
    next_starts: StartModel,
)
    requires
        strip_progress_less(direction, starts, next_direction, next_starts),
        direction_rank(next_direction) < direction_count(next_direction.len()),
        plane_rank(next_starts.2, next_starts.0) < plane_count(next_starts.0),
        position_rank(next_starts) < position_count(next_starts),
        next_direction.len() == direction.len(),
    ensures
        decreases_to!(direction_count(direction.len()) - direction_rank(direction), plane_count(starts.0)
            - plane_rank(starts.2, starts.0), position_count(starts) - position_rank(starts)
            => direction_count(next_direction.len()) - direction_rank(next_direction), plane_count(next_starts.0)
            - plane_rank(next_starts.2, next_starts.0), position_count(next_starts) - position_rank(next_starts)),
{
    if direction_rank(direction) < direction_rank(next_direction) {
    } else if next_direction == direction && next_starts.0 == starts.0 && plane_rank(
        starts.2,
        starts.0,
    ) < plane_rank(next_starts.2, next_starts.0) {
    } else {
        assert(position_count(next_starts) == position_count(starts)) by {
            assert(crate::utils::grids::strips::starts::position_sizes(next_starts)
                =~= crate::utils::grids::strips::starts::position_sizes(starts));
        }
    }
}

/// A direction along which strips move: each component is -1, 0 or 1, and one is not 0.
pub open spec fn strip_direction(direction: Seq<isize>) -> bool {
    &&& forall|k: int| 0 <= k < direction.len() ==> -1 <= #[trigger] direction[k] <= 1
    &&& exists|k: int| 0 <= k < direction.len() && #[trigger] direction[k] != 0
}

/// A position within the grid.
pub open spec fn inside_grid(dimensions: Seq<isize>, position: Seq<isize>) -> bool {
    &&& position.len() == dimensions.len()
    &&& forall|k: int| 0 <= k < dimensions.len() ==> 0 <= #[trigger] position[k] < dimensions[k]
}

/// A strip iterator that has a start iterator moves along a strip direction from positions
/// within the grid.
pub open spec fn strip_start_ok(
    dimensions: Seq<isize>,
    direction: Seq<isize>,
    starts: StartModel,
) -> bool {
    starts.0.len() == 0 || (start_in_grid(starts) && strip_direction(direction))
}

/// In a grid whose dimensions are at least 2, the strip iterator finds its strips along
/// strip directions from positions within the grid.
pub proof fn lemma_strip_step_inside(
    dimensions: Seq<isize>,
    direction: Seq<isize>,
    positive_plane: Seq<isize>,
    starts: StartModel,
)
    requires
        strip_state_wf(dimensions, direction, starts),
        strip_start_ok(dimensions, direction, starts),
        forall|k: int| 0 <= k < dimensions.len() ==> #[trigger] dimensions[k] >= 2,
        positive_plane.len() == dimensions.len(),
    ensures
        ({
            let (d, s, found) = strip_step(dimensions, direction, positive_plane, starts);
            found ==> s.0 == dimensions && start_in_grid(s) && strip_direction(d)
        }),
    decreases direction_count(direction.len()) - direction_rank(direction),
{
    lemma_start_step(starts);
    let (next_starts, found) = start_step(starts);
    if found {
        if starts.0.len() == 0 {
            let (dims0, dir0, plane0, starting0, position0) = starts;
            assert(crate::utils::grids::strips::starts::position_carry(dims0, dir0, plane0, position0, 0) == 0);
            assert(crate::utils::grids::strips::starts::plane_carry(plane0, dims0, 0) == 0);
            assert(false);
        }
        lemma_start_step_grid(starts);
    } else {
        lemma_next_forward(direction, positive_plane);
        let (next_direction, ok) = next_forward_direction(direction, positive_plane);
        if ok {
            let fresh = fresh_start(dimensions, next_direction);
            lemma_cross_nonzero(next_direction, positive_plane, next_direction.len() as int);
            assert(strip_direction(next_direction));
            assert(start_model_wf(fresh)) by {
                lemma_strip_step(dimensions, direction, positive_plane, starts);
            }
            lemma_strip_step_inside(dimensions, next_direction, positive_plane, fresh);
        }
    }
}

/// The strips that a strip iterator yields in a grid whose dimensions are at least 2 move
/// along strip directions from positions within the grid.
pub proof fn lemma_strips_after_inside(
    dimensions: Seq<isize>,
    positive_plane: Seq<isize>,
    direction: Seq<isize>,
    starts: StartModel,
)
    requires
        strip_state_wf(dimensions, direction, starts),
        strip_start_ok(dimensions, direction, starts),
        forall|k: int| 0 <= k < dimensions.len() ==> #[trigger] dimensions[k] >= 2,
        positive_plane.len() == dimensions.len(),
    ensures
        forall|k: int|
            0 <= k < strips_after(dimensions, positive_plane, direction, starts).len()
                ==> inside_grid(
                dimensions,
                #[trigger] strips_after(dimensions, positive_plane, direction, starts)[k].1,
            ) && strip_direction(strips_after(dimensions, positive_plane, direction, starts)[k].0)
                && strips_after(dimensions, positive_plane, direction, starts)[k].0.len()
                == dimensions.len(),
    decreases direction_count(direction.len()) - direction_rank(direction), plane_count(starts.0)
        - plane_rank(starts.2, starts.0), position_count(starts) - position_rank(starts),
{
    let (d, s, found) = strip_step(dimensions, direction, positive_plane, starts);
    if found {
        lemma_strip_step(dimensions, direction, positive_plane, starts);
        lemma_strip_step_inside(dimensions, direction, positive_plane, starts);
        lemma_strip_progress_measure(direction, starts, d, s);
        lemma_strips_after_inside(dimensions, positive_plane, d, s);
        let rest = strips_after(dimensions, positive_plane, d, s);
        let all = strips_after(dimensions, positive_plane, direction, starts);
        assert(all == seq![(d, s.4)] + rest);
        assert forall|k: int| 0 <= k < all.len() implies inside_grid(dimensions, #[trigger] all[k].1)
            && strip_direction(all[k].0) && all[k].0.len() == dimensions.len() by {
            if k > 0 {
                assert(all[k] == rest[k - 1]);
            }
        }
    }
}

/// A strip iterator that starts along a forward direction, or has no start yet, finds its
/// next strip along a forward direction: one whose cross product with the positive plane
/// is positive.
proof fn lemma_strip_step_forward(
    dimensions: Seq<isize>,
    direction: Seq<isize>,
    positive_plane: Seq<isize>,
    starts: StartModel,
)
    requires
        strip_state_wf(dimensions, direction, starts),
        starts.0.len() == 0 || cross(direction, positive_plane) > 0,
    ensures
        ({
            let (d, s, found) = strip_step(dimensions, direction, positive_plane, starts);
            found ==> cross(d, positive_plane) > 0
        }),
    decreases direction_count(direction.len()) - direction_rank(direction),
{
    lemma_start_step(starts);
    let (next_starts, found) = start_step(starts);
    if found {
        if starts.0.len() == 0 {
            let (dims0, dir0, plane0, starting0, position0) = starts;
            assert(crate::utils::grids::strips::starts::position_carry(dims0, dir0, plane0, position0, 0) == 0);
            assert(crate::utils::grids::strips::starts::plane_carry(plane0, dims0, 0) == 0);
            assert(false);
        }
    } else {
        lemma_next_forward(direction, positive_plane);
        let (next_direction, ok) = next_forward_direction(direction, positive_plane);
        if ok {
            let fresh = fresh_start(dimensions, next_direction);
            assert(start_model_wf(fresh)) by {
                lemma_strip_step(dimensions, direction, positive_plane, starts);
            }
            lemma_strip_step_forward(dimensions, next_direction, positive_plane, fresh);
        }
    }
}

/// The strips that a strip iterator yields from a forward direction, or before its first
/// start, move along forward directions.
proof fn lemma_strips_after_forward(
    dimensions: Seq<isize>,
    positive_plane: Seq<isize>,
    direction: Seq<isize>,
    starts: StartModel,
)
    requires
        strip_state_wf(dimensions, direction, starts),
        starts.0.len() == 0 || cross(direction, positive_plane) > 0,
    ensures
        forall|k: int|
            0 <= k < strips_after(dimensions, positive_plane, direction, starts).len() ==> cross(
                #[trigger] strips_after(dimensions, positive_plane, direction, starts)[k].0,
                positive_plane,
            ) > 0,
    decreases direction_count(direction.len()) - direction_rank(direction), plane_count(starts.0)
        - plane_rank(starts.2, starts.0), position_count(starts) - position_rank(starts),
{
    let (d, s, found) = strip_step(dimensions, direction, positive_plane, starts);
    if found {
        lemma_strip_step(dimensions, direction, positive_plane, starts);
        lemma_strip_step_forward(dimensions, direction, positive_plane, starts);
        lemma_strip_progress_measure(direction, starts, d, s);
        lemma_strips_after_forward(dimensions, positive_plane, d, s);
        let rest = strips_after(dimensions, positive_plane, d, s);
        let all = strips_after(dimensions, positive_plane, direction, starts);
        assert(all == seq![(d, s.4)] + rest);
        assert forall|k: int| 0 <= k < all.len() implies cross(#[trigger] all[k].0, positive_plane) > 0 by {
            if k > 0 {
                assert(all[k] == rest[k - 1]);
            }
        }
    }
}

/// The strips of a grid move along forward directions: their cross product with the axis
/// plane is positive.
pub proof fn lemma_grid_strips_forward(dimensions: Seq<isize>)
    ensures
        forall|k: int|
            0 <= k < grid_strips(dimensions).len() ==> cross(
                #[trigger] grid_strips(dimensions)[k].0,
                axis_plane(dimensions.len()),
            ) > 0,
{
    let n = dimensions.len();
    assert(strip_state_wf(dimensions, first_direction(n), no_starts()));
    lemma_strips_after_forward(dimensions, axis_plane(n), first_direction(n), no_starts());
}

proof fn lemma_shifted_is_dot(strides: Seq<isize>, p: Seq<isize>, d: Seq<isize>, t: int, q: Seq<isize>, m: int)
    requires
        0 <= m <= q.len(),
        forall|i: int| 0 <= i < m ==> #[trigger] q[i] == p[i] + t * d[i],
    ensures
        shifted_dot(strides, p, d, t, m) == dot(strides, q, m),
    decreases m,
{
    if m > 0 {
        lemma_shifted_is_dot(strides, p, d, t, q, m - 1);
    }
}

/// The cells of a strip that starts within the grid lie within the grid: their linear
/// indices are between 0 and the number of cells.
pub proof fn lemma_strip_cell_inside(dimensions: Seq<isize>, direction: Seq<isize>, position: Seq<isize>, t: int)
    requires
        grid_fits(dimensions),
        inside_grid(dimensions, position),
        strip_direction(direction),
        direction.len() == dimensions.len(),
        strip_length(dimensions, direction, position) matches Some(m) && 0 <= t < m,
    ensures
        0 <= linear_index(dimensions, position) + t * linear_index(dimensions, direction)
            < prefix_product(dimensions, dimensions.len() as int),
{
    let n = dimensions.len() as int;
    let m = strip_length(dimensions, direction, position)->0;
    lemma_min_axis_length(dimensions, direction, position, n);
    assert(common_axes(dimensions, direction, position) == n);
    assert forall|i: int| 0 <= i < n implies 0 <= #[trigger] position[i] + t * direction[i]
        <= dimensions[i] - 1 by {
        if direction[i] > 0 {
            assert(m <= axis_length(dimensions[i], direction[i], position[i]));
            assert(direction[i] == 1);
            assert(t * direction[i] == t);
        } else if direction[i] < 0 {
            assert(m <= axis_length(dimensions[i], direction[i], position[i]));
            assert(direction[i] == -1);
            assert(t * direction[i] == -t);
        } else {
            assert(t * direction[i] == 0);
        }
    }
    let q = Seq::new(n as nat, |i: int| (position[i] + t * direction[i]) as isize);
    assert forall|i: int| 0 <= i < n implies #[trigger] q[i] == position[i] + t * direction[i]
        && 0 <= q[i] <= dimensions[i] - 1 by {
        assert(0 <= position[i] + t * direction[i] <= dimensions[i] - 1);
    }
    let strides = strides_of(dimensions);
    lemma_shifted_dot_linear(strides, position, direction, t, n);
    lemma_shifted_is_dot(strides, position, direction, t, q, n);
    lemma_grid_products_fit(dimensions);
    lemma_linear_index_in_grid(dimensions, q, n);
    assert(common_len(strides, position) == n);
    assert(common_len(strides, direction) == n);
}

/// The strips of a grid, each given by its direction and its starting position.
pub open spec fn grid_strips(dimensions: Seq<isize>) -> Seq<(Seq<isize>, Seq<isize>)> {
    strips_after(
        dimensions,
        axis_plane(dimensions.len()),
        first_direction(dimensions.len()),
        no_starts(),
    )
}

/// Enumerates the strips of a grid: for each forward direction, the maximal runs of cells
/// along it.
pub struct StripIterator {
    pub dimensions: Vec<isize>,
    pub directions: DirectionIterator,
    pub strip_starts: StartIterator,
    pub strips: Indices,
}

impl StripIterator {
    /// The iterators are consistent with the grid, whose linear indices cannot overflow.
    pub open spec fn wf(&self) -> bool {
        let dims = self.dimensions@;
        let n = dims.len();
        let direction = self.directions.current_value@;
        &&& n >= 1
        &&& grid_fits(dims)
        &&& self.directions.wf()
        &&& direction.len() == n
        &&& self.strip_starts.wf()
        &&& start_model_wf(self.strip_starts.model())
        &&& (self.strip_starts.dimensions@.len() == 0 || (self.strip_starts.dimensions@ == dims
            && start_in_box(self.strip_starts.model()) && (forall|k: int|
            0 <= k < n ==> -1 <= #[trigger] direction[k] <= 1) && (exists|k: int|
            0 <= k < n && #[trigger] direction[k] != 0)))
        &&& strip_fits(self.strips, grid_bound(dims))
    }

    /// Starts before the first strip of a grid with the given dimensions.
    pub fn new(dimensions: Vec<usize>) -> (r: StripIterator)
        requires
            dimensions@.len() >= 1,
            crate::utils::grids::directions::power_of_two(dimensions@.len() as int) - 1
                <= isize::MAX,
            forall|k: int| 0 <= k < dimensions@.len() ==> #[trigger] dimensions@[k] <= isize::MAX,
            grid_fits(Seq::new(dimensions@.len(), |k: int| dimensions@[k] as isize)),
        ensures
            r.wf(),
            r.dimensions@ == Seq::new(dimensions@.len(), |k: int| dimensions@[k] as isize),
            r.directions.current_value@ == Seq::new(
                dimensions@.len(),
                |k: int|
                    if k == 0 {
                        -2isize
                    } else {
                        -1isize
                    },
            ),
            r.strip_starts.dimensions@.len() == 0,
            r.strips.length == 0,
            r.directions.positive_plane@ == axis_plane(dimensions@.len()),
            r.strip_starts.model() == no_starts(),
    {
        let directions = DirectionIterator::new(dimensions.len());
        let mut converted: Vec<isize> = Vec::new();
        let mut i: usize = 0;
        while i < dimensions.len()
            invariant
                i <= dimensions@.len(),
                forall|k: int| 0 <= k < dimensions@.len() ==> #[trigger] dimensions@[k] <= isize::MAX,
                converted@ == Seq::new(i as nat, |k: int| dimensions@[k] as isize),
            decreases dimensions.len() - i,
        {
            converted.push(dimensions[i] as isize);
            i = i + 1;
            assert(converted@ =~= Seq::new(i as nat, |k: int| dimensions@[k] as isize));
        }
        let r = StripIterator {
            dimensions: converted,
            directions,
            strip_starts: StartIterator::empty(),
            strips: Indices::empty(),
        };
        proof {
            let dims = r.dimensions@;
            let n = dims.len() as int;
            lemma_grid_products_fit(dims);
            let total = prefix_product(dims, n);
            assert(n * total <= (n + 1) * total) by (nonlinear_arith)
                requires
                    n >= 1,
                    total >= 1,
            ;
            assert(start_model_wf(r.strip_starts.model()));
        }
        r
    }

    /// Moves to the next strip; `None` when none is left.
    pub fn iterate(&mut self) -> (r: Option<()>)
        requires
            old(self).wf(),
        ensures
            final(self).wf(),
            final(self).dimensions@ == old(self).dimensions@,
            final(self).directions.positive_plane@ == old(self).directions.positive_plane@,
            (final(self).directions.current_value@, final(self).strip_starts.model(), r is Some)
                == strip_step(
                old(self).dimensions@,
                old(self).directions.current_value@,
                old(self).directions.positive_plane@,
                old(self).strip_starts.model(),
            ),
            r is Some ==> is_strip_of(
                final(self).strips,
                final(self).dimensions@,
                final(self).directions.current_value@,
                final(self).strip_starts.current_position@,
            ),
            r is None ==> final(self).strips == old(self).strips,
    {
        loop
            invariant
                self.wf(),
                self.dimensions@ == old(self).dimensions@,
                self.directions.positive_plane@ == old(self).directions.positive_plane@,
                self.strips == old(self).strips,
                strip_step(
                    self.dimensions@,
                    self.directions.current_value@,
                    self.directions.positive_plane@,
                    self.strip_starts.model(),
                ) == strip_step(
                    old(self).dimensions@,
                    old(self).directions.current_value@,
                    old(self).directions.positive_plane@,
                    old(self).strip_starts.model(),
                ),
            decreases direction_count(self.directions.current_value@.len()) - direction_rank(
                self.directions.current_value@,
            ),
        {
            let ghost starts_before = self.strip_starts.model();
            let ghost dims = self.dimensions@;
            proof {
                lemma_start_step(starts_before);
                if starts_before.0.len() > 0 {
                    lemma_start_step_box(starts_before);
                }
            }
            if let Some(()) = self.strip_starts.iterate() {
                proof {
                    if starts_before.0.len() == 0 {
                        assert(!start_step(starts_before).1);
                    }
                    assert(start_in_box(self.strip_starts.model()));
                    assert(self.strip_starts.dimensions@ == dims);
                    lemma_strip_arguments(
                        dims,
                        self.directions.current_value@,
                        self.strip_starts.current_position@,
                    );
                }
                self.strips = Indices::new(
                    &self.dimensions,
                    &self.directions.current_value,
                    &self.strip_starts.current_position,
                );
                return Some(());
            }
            let ghost direction_before = self.directions.current_value@;
            proof {
                lemma_next_forward(direction_before, self.directions.positive_plane@);
            }
            if let Some(()) = self.directions.iterate_forward() {
                self.strip_starts = StartIterator::new(
                    self.dimensions.clone(),
                    self.directions.current_value.clone(),
                );
                proof {
                    let d = self.directions.current_value@;
                    lemma_cross_nonzero(d, self.directions.positive_plane@, d.len() as int);
                    assert(start_model_wf(self.strip_starts.model()));
                    assert(start_in_box(self.strip_starts.model()));
                }
                continue ;
            }
            proof {
                let d = self.directions.current_value@;
                assert(d[0] != 0);
            }
            return None;
        }
    }

    /// Moves to the next strip and yields it; `None` when none is left.
    pub fn next(&mut self) -> (r: Option<Indices>)
        requires
            old(self).wf(),
        ensures
            final(self).wf(),
            final(self).dimensions@ == old(self).dimensions@,
            final(self).directions.positive_plane@ == old(self).directions.positive_plane@,
            (final(self).directions.current_value@, final(self).strip_starts.model(), r is Some)
                == strip_step(
                old(self).dimensions@,
                old(self).directions.current_value@,
                old(self).directions.positive_plane@,
                old(self).strip_starts.model(),
            ),
            r matches Some(strip) ==> strip == final(self).strips && is_strip_of(
                strip,
                final(self).dimensions@,
                final(self).directions.current_value@,
                final(self).strip_starts.current_position@,
            ),
    {
        match self.iterate() {
            Some(()) => Some(self.strips),
            None => None,
        }
    }
}

/// Measure of the progress of a strip iterator: directions left, planes left, positions
/// left (compared lexicographically).
pub open spec fn strip_progress_less(
    direction: Seq<isize>,
    starts: StartModel,
    next_direction: Seq<isize>,
    next_starts: StartModel,
) -> bool {
    ||| direction_rank(direction) < direction_rank(next_direction)
    ||| (next_direction == direction && next_starts.0 == starts.0 && plane_rank(
        starts.2,
        starts.0,
    ) < plane_rank(next_starts.2, next_starts.0))
    ||| (next_direction == direction && next_starts.0 == starts.0 && next_starts.2 == starts.2
        && next_starts.1 == starts.1 && next_starts.3 == starts.3 && next_starts.4.len()
        == starts.4.len() && position_rank(
        starts,
    ) < position_rank(next_starts))
}

/// When a strip iterator finds a strip, it has made progress, and its state stays
/// consistent either way.
pub proof fn lemma_strip_step(
    dimensions: Seq<isize>,
    direction: Seq<isize>,
    positive_plane: Seq<isize>,
    starts: StartModel,
)
    requires
        components_fit(direction),
        direction.len() == dimensions.len(),
        start_model_wf(starts),
        starts.0.len() == 0 || starts.0 == dimensions,
    ensures
        ({
            let (d, s, found) = strip_step(dimensions, direction, positive_plane, starts);
            &&& components_fit(d)
            &&& d.len() == direction.len()
            &&& start_model_wf(s)
            &&& (s.0.len() == 0 || s.0 == dimensions)
            &&& direction_rank(d) < direction_count(d.len())
            &&& plane_rank(s.2, s.0) < plane_count(s.0)
            &&& position_rank(s) < position_count(s)
            &&& found ==> strip_progress_less(direction, starts, d, s)
        }),
    decreases direction_count(direction.len()) - direction_rank(direction),
{
    lemma_start_step(starts);
    lemma_direction_rank_bound(direction);
    let (next_starts, found) = start_step(starts);
    if !found {
        lemma_next_forward(direction, positive_plane);
        let (next_direction, ok) = next_forward_direction(direction, positive_plane);
        lemma_direction_rank_bound(next_direction);
        if ok {
            let fresh = fresh_start(dimensions, next_direction);
            assert(start_model_wf(fresh));
            lemma_start_model_bounds(fresh);
            lemma_strip_step(dimensions, next_direction, positive_plane, fresh);
            let (d, s, f) = strip_step(dimensions, next_direction, positive_plane, fresh);
            if f {
                assert(direction_rank(direction) < direction_rank(next_direction));
            }
        }
    }
}

/// The dimensions as signed integers.
pub open spec fn signed_dimensions(dimensions: Seq<usize>) -> Seq<isize> {
    Seq::new(dimensions.len(), |k: int| dimensions[k] as isize)
}

/// Collects the strips of a grid, in the order in which a strip iterator yields them.
pub fn all_strips(dimensions: Vec<usize>) -> (r: Vec<Indices>)
    requires
        dimensions@.len() >= 1,
        crate::utils::grids::directions::power_of_two(dimensions@.len() as int) - 1 <= isize::MAX,
        forall|k: int| 0 <= k < dimensions@.len() ==> #[trigger] dimensions@[k] <= isize::MAX,
        grid_fits(signed_dimensions(dimensions@)),
    ensures
        ({
            let dims = signed_dimensions(dimensions@);
            &&& r@.len() == grid_strips(dims).len()
            &&& forall|k: int|
                0 <= k < r@.len() ==> #[trigger] is_strip_of(
                    r@[k],
                    dims,
                    grid_strips(dims)[k].0,
                    grid_strips(dims)[k].1,
                ) && strip_fits(r@[k], grid_bound(dims))
        }),
{
    let ghost dims = signed_dimensions(dimensions@);
    let ghost n = dims.len();
    let ghost all = grid_strips(dims);
    let mut iterator = StripIterator::new(dimensions);
    let mut result: Vec<Indices> = Vec::new();
    proof {
        assert(iterator.directions.current_value@ =~= first_direction(n));
        assert(result@.len() + strips_after(
            dims,
            axis_plane(n),
            iterator.directions.current_value@,
            iterator.strip_starts.model(),
        ).len() == all.len());
        assert(all.subrange(0, 0) =~= seq![]);
        assert(all.subrange(0, all.len() as int) =~= all);
    }
    loop
        invariant_except_break
            strips_after(
                dims,
                axis_plane(n),
                iterator.directions.current_value@,
                iterator.strip_starts.model(),
            ) == all.subrange(result@.len() as int, all.len() as int),
            result@.len() <= all.len(),
        invariant
            iterator.wf(),
            iterator.dimensions@ == dims,
            n == dims.len(),
            iterator.directions.positive_plane@ == axis_plane(n),
            all == grid_strips(dims),
            forall|k: int|
                0 <= k < result@.len() ==> #[trigger] is_strip_of(
                    result@[k],
                    dims,
                    all[k].0,
                    all[k].1,
                ) && strip_fits(result@[k], grid_bound(dims)),
        ensures
            result@.len() == all.len(),
        decreases direction_count(iterator.directions.current_value@.len()) - direction_rank(
            iterator.directions.current_value@,
        ), plane_count(iterator.strip_starts.model().0) - plane_rank(
            iterator.strip_starts.model().2,
            iterator.strip_starts.model().0,
        ), position_count(iterator.strip_starts.model()) - position_rank(
            iterator.strip_starts.model(),
        ),
    {
        let ghost direction = iterator.directions.current_value@;
        let ghost starts = iterator.strip_starts.model();
        let ghost plane = iterator.directions.positive_plane@;
        proof {
            lemma_strip_step(dims, direction, plane, starts);
        }
        match iterator.next() {
            Some(strip) => {
                proof {
                    let d = iterator.directions.current_value@;
                    let s = iterator.strip_starts.model();
                    lemma_strip_progress_measure(direction, starts, d, s);
                    assert(strips_after(dims, plane, direction, starts) == seq![(d, s.4)]
                        + strips_after(dims, plane, d, s));
                    let i = result@.len() as int;
                    assert(all[i] == (d, s.4)) by {
                        assert(all.subrange(i, all.len() as int)[0] == all[i]);
                    }
                    let a = strips_after(dims, plane, direction, starts);
                    let b = strips_after(dims, plane, d, s);
                    assert(a.len() == b.len() + 1);
                    assert forall|k: int| 0 <= k < b.len() implies b[k] == all.subrange(
                        i + 1,
                        all.len() as int,
                    )[k] by {
                        assert(b[k] == a[k + 1]);
                        assert(a[k + 1] == all.subrange(i, all.len() as int)[k + 1]);
                    }
                    assert(b =~= all.subrange(i + 1, all.len() as int));
                }
                result.push(strip);
            },
            None => {
                proof {
                    assert(strips_after(dims, plane, direction, starts) =~= seq![]);
                }
                break ;
            },
        }
    }
    result
}

} // verus!
