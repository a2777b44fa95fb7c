use crate::utils::grids::counting::{
    lemma_radix_full, lemma_radix_next, lemma_radix_value_bounds, radix_carry, radix_digits_fit,
    radix_next, radix_value, radix_weight,
};
use crate::utils::grids::strides::{
    lemma_prefix_is_range, lemma_range_product_low, prefix_product, range_product,
};
use vstd::prelude::*;

verus! {

/// The last axis before `n` whose coordinate can still grow within its dimension, or -1.
pub open spec fn growable_axis(current: Seq<isize>, dimensions: Seq<isize>, n: int) -> int
    decreases n,
{
    if n <= 0 {
        -1
    } else if current[n - 1] + 1 < dimensions[n - 1] {
        n - 1
    } else {
        growable_axis(current, dimensions, n - 1)
    }
}

/// The position that follows `current` in row-major order (last axis fastest); it wraps
/// to all zeros after the last position.
pub open spec fn next_position(current: Seq<isize>, dimensions: Seq<isize>) -> Seq<isize> {
    let j = growable_axis(current, dimensions, current.len() as int);
    Seq::new(
        current.len(),
        |k: int|
            if k > j {
                0isize
            } else if k == j {
                (current[k] + 1) as isize
            } else {
                current[k]
            },
    )
}

proof fn lemma_growable_axis(current: Seq<isize>, dimensions: Seq<isize>, n: int, j: int)
    requires
        -1 <= j < n,
        j >= 0 ==> current[j] + 1 < dimensions[j],
        forall|k: int| j < k < n ==> !(current[k] + 1 < #[trigger] dimensions[k]),
    ensures
        growable_axis(current, dimensions, n) == j,
    decreases n,
{
    if n > 0 && n - 1 != j {
        lemma_growable_axis(current, dimensions, n - 1, j);
    }
}

/// Enumerates the positions of a grid in row-major order (last axis fastest).
pub struct Positions {
    pub dimensions: Vec<isize>,
    pub current_position: Vec<isize>,
}

impl Positions {
    /// The position has one coordinate per dimension and no coordinate can overflow.
    pub open spec fn wf(&self) -> bool {
        &&& self.current_position@.len() == self.dimensions@.len()
        &&& forall|k: int|
            0 <= k < self.current_position@.len() ==> #[trigger] self.current_position@[k]
                < isize::MAX
    }

    /// Starts just before the first position (all zeros) of a grid with the given dimensions.
    pub fn new(dimensions: Vec<isize>) -> (r: Positions)
        ensures
            r.wf(),
            r.dimensions@ == dimensions@,
            r.current_position@ == Seq::new(
                dimensions@.len(),
                |k: int|
                    if k == dimensions@.len() - 1 {
                        -1isize
                    } else {
                        0isize
                    },
            ),
    {
        let n = dimensions.len();
        let mut current_position: Vec<isize> = Vec::new();
        let mut i: usize = 0;
        while i < n
            invariant
                i <= n,
                current_position@ == Seq::new(
                    i as nat,
                    |k: int|
                        if k == n - 1 {
                            -1isize
                        } else {
                            0isize
                        },
                ),
            decreases n - i,
        {
            if i + 1 == n {
                current_position.push(-1);
            } else {
                current_position.push(0);
            }
            i = i + 1;
            assert(current_position@ =~= Seq::new(
                i as nat,
                |k: int|
                    if k == n - 1 {
                        -1isize
                    } else {
                        0isize
                    },
            ));
        }
        Positions { dimensions, current_position }
    }

    /// Moves to the next position; `None` when the last one has been passed (the
    /// position then wraps to all zeros).
    pub fn iterate(&mut self) -> (r: Option<()>)
        requires
            old(self).wf(),
        ensures
            final(self).wf(),
            final(self).dimensions@ == old(self).dimensions@,
            final(self).current_position@ == next_position(
                old(self).current_position@,
                old(self).dimensions@,
            ),
            r is Some <==> growable_axis(
                old(self).current_position@,
                old(self).dimensions@,
                old(self).current_position@.len() as int,
            ) >= 0,
    {
        let ghost old_position = self.current_position@;
        let ghost dims = self.dimensions@;
        let n = self.current_position.len();
        let mut i: usize = n;
        while i > 0
            invariant
                i <= n,
                n == old_position.len(),
                old_position == old(self).current_position@,
                dims == old(self).dimensions@,
                dims == self.dimensions@,
                dims.len() == n,
                self.current_position@.len() == n,
                forall|k: int| 0 <= k < i ==> self.current_position@[k] == old_position[k],
                forall|k: int| i <= k < n ==> self.current_position@[k] == 0,
                forall|k: int| i <= k < n ==> !(old_position[k] + 1 < #[trigger] dims[k]),
                forall|k: int| 0 <= k < n ==> #[trigger] old_position[k] < isize::MAX,
            decreases i,
        {
            let index = i - 1;
            assert(self.current_position@[index as int] == old_position[index as int]);
            let value = self.current_position[index] + 1;
            if value < self.dimensions[index] {
                self.current_position.set(index, value);
                proof {
                    lemma_growable_axis(old_position, dims, n as int, index as int);
                    assert(self.current_position@ =~= next_position(old_position, dims));
                }
                return Some(());
            }
            self.current_position.set(index, 0);
            i = index;
        }
        proof {
            lemma_growable_axis(old_position, dims, n as int, -1);
            assert(self.current_position@ =~= next_position(old_position, dims));
        }
        None
    }

    /// Moves to the next position and yields it; `None` when the last one has been passed.
    pub fn next(&mut self) -> (r: Option<Vec<isize>>)
        requires
            old(self).wf(),
        ensures
            final(self).wf(),
            final(self).dimensions@ == old(self).dimensions@,
            final(self).current_position@ == next_position(
                old(self).current_position@,
                old(self).dimensions@,
            ),
            growable_axis(
                old(self).current_position@,
                old(self).dimensions@,
                old(self).current_position@.len() as int,
            ) >= 0 ==> (r matches Some(p) && p@ == final(self).current_position@),
            growable_axis(
                old(self).current_position@,
                old(self).dimensions@,
                old(self).current_position@.len() as int,
            ) < 0 ==> r is None,
    {
        match self.iterate() {
            Some(()) => Some(self.current_position.clone()),
            None => None,
        }
    }
}

/// Coordinates as counting digits, the last axis as the lowest digit.
pub open spec fn position_digits(current: Seq<isize>) -> Seq<int> {
    Seq::new(current.len(), |k: int| current[current.len() - 1 - k] as int)
}

/// Dimensions as counting sizes, the last axis as the lowest digit.
pub open spec fn position_sizes(dimensions: Seq<isize>) -> Seq<int> {
    Seq::new(dimensions.len(), |k: int| dimensions[dimensions.len() - 1 - k] as int)
}

/// Rank of a position in row-major order.
pub open spec fn position_rank(current: Seq<isize>, dimensions: Seq<isize>) -> int {
    radix_value(position_digits(current), position_sizes(dimensions), current.len() as int)
}

/// Number of positions of a grid.
pub open spec fn position_count(dimensions: Seq<isize>) -> int {
    radix_weight(position_sizes(dimensions), dimensions.len() as int)
}

/// The dimensions are at least 1 and the position is within the grid, except that its last
/// coordinate may be -1 (before the first position).
pub open spec fn position_in_grid(current: Seq<isize>, dimensions: Seq<isize>) -> bool {
    &&& current.len() == dimensions.len()
    &&& forall|k: int| 0 <= k < dimensions.len() ==> #[trigger] dimensions[k] >= 1
    &&& forall|k: int| 0 <= k < current.len() ==> #[trigger] current[k] <= dimensions[k] - 1
    &&& forall|k: int| 0 <= k < current.len() - 1 ==> #[trigger] current[k] >= 0
    &&& current.len() > 0 ==> current[current.len() - 1] >= -1
}

proof fn lemma_position_carry(current: Seq<isize>, dimensions: Seq<isize>, m: int)
    requires
        0 <= m <= current.len(),
        current.len() == dimensions.len(),
    ensures
        growable_axis(current, dimensions, m) == current.len() - 1 - radix_carry(
            position_digits(current),
            position_sizes(dimensions),
            current.len() - m,
        ),
    decreases m,
{
    if m > 0 {
        lemma_position_carry(current, dimensions, m - 1);
    }
}

/// Stepping a position within the grid adds one to its rank, and the next position stays
/// within the grid when one is left.
pub proof fn lemma_next_position(current: Seq<isize>, dimensions: Seq<isize>)
    requires
        position_in_grid(current, dimensions),
        growable_axis(current, dimensions, current.len() as int) >= 0,
    ensures
        position_rank(next_position(current, dimensions), dimensions) == position_rank(
            current,
            dimensions,
        ) + 1,
        position_in_grid(next_position(current, dimensions), dimensions),
        forall|k: int|
            0 <= k < current.len() ==> 0 <= #[trigger] next_position(current, dimensions)[k],
        position_rank(next_position(current, dimensions), dimensions) < position_count(dimensions),
{
    let n = current.len() as int;
    let digits = position_digits(current);
    let sizes = position_sizes(dimensions);
    lemma_position_carry(current, dimensions, n);
    assert(radix_digits_fit(digits, sizes));
    lemma_radix_next(digits, sizes);
    lemma_growable_bounds(current, dimensions, n);
    assert(position_digits(next_position(current, dimensions)) =~= radix_next(digits, sizes));
    lemma_radix_value_bounds(radix_next(digits, sizes), sizes);
}

proof fn lemma_growable_bounds(current: Seq<isize>, dimensions: Seq<isize>, n: int)
    requires
        0 <= n <= current.len(),
    ensures
        -1 <= growable_axis(current, dimensions, n) < n,
        growable_axis(current, dimensions, n) >= 0 ==> current[growable_axis(current, dimensions, n)]
            + 1 < dimensions[growable_axis(current, dimensions, n)],
        forall|k: int|
            growable_axis(current, dimensions, n) < k < n ==> !(current[k] + 1
                < #[trigger] dimensions[k]),
    decreases n,
{
    if n > 0 && !(current[n - 1] + 1 < dimensions[n - 1]) {
        lemma_growable_bounds(current, dimensions, n - 1);
    }
}

/// The rank of a position within the grid is below the number of positions.
pub proof fn lemma_position_rank_bound(current: Seq<isize>, dimensions: Seq<isize>)
    requires
        position_in_grid(current, dimensions),
    ensures
        -1 <= position_rank(current, dimensions) < position_count(dimensions),
{
    assert(radix_digits_fit(position_digits(current), position_sizes(dimensions)));
    lemma_radix_value_bounds(position_digits(current), position_sizes(dimensions));
}

/// The positions that follow `current` in row-major order, up to the last one.
pub open spec fn positions_after(current: Seq<isize>, dimensions: Seq<isize>) -> Seq<Seq<isize>>
    decreases position_count(dimensions) - position_rank(current, dimensions),
    when position_in_grid(current, dimensions)
{
    if growable_axis(current, dimensions, current.len() as int) >= 0 {
        let next = next_position(current, dimensions);
        proof {
            lemma_next_position(current, dimensions);
        }
        seq![next] + positions_after(next, dimensions)
    } else {
        seq![]
    }
}

/// The position before the first one: all zeros but the last coordinate, which is -1.
pub open spec fn position_before_first(dimensions: Seq<isize>) -> Seq<isize> {
    Seq::new(
        dimensions.len(),
        |k: int|
            if k == dimensions.len() - 1 {
                -1isize
            } else {
                0isize
            },
    )
}

/// The positions after `current` are as many as the ranks above it; the `k`-th has rank
/// one more than `k` above the rank of `current`, and all lie within the grid.
pub proof fn lemma_positions_after(current: Seq<isize>, dimensions: Seq<isize>)
    requires
        position_in_grid(current, dimensions),
    ensures
        positions_after(current, dimensions).len() == position_count(dimensions) - position_rank(
            current,
            dimensions,
        ) - 1,
        forall|k: int|
            0 <= k < positions_after(current, dimensions).len() ==> position_rank(
                #[trigger] positions_after(current, dimensions)[k],
                dimensions,
            ) == position_rank(current, dimensions) + k + 1,
        forall|k: int|
            0 <= k < positions_after(current, dimensions).len() ==> position_in_grid(
                #[trigger] positions_after(current, dimensions)[k],
                dimensions,
            ),
        forall|k: int, i: int|
            0 <= k < positions_after(current, dimensions).len() && 0 <= i < dimensions.len() ==> 0
                <= #[trigger] positions_after(current, dimensions)[k][i],
    decreases position_count(dimensions) - position_rank(current, dimensions),
{
    let n = current.len() as int;
    if growable_axis(current, dimensions, n) >= 0 {
        lemma_next_position(current, dimensions);
        let next = next_position(current, dimensions);
        lemma_positions_after(next, dimensions);
        let rest = positions_after(next, dimensions);
        assert(positions_after(current, dimensions) == seq![next] + rest);
        assert forall|k: int, i: int|
            0 <= k < positions_after(current, dimensions).len() && 0 <= i
                < dimensions.len() implies 0 <= #[trigger] positions_after(current, dimensions)[k][i] by {
            if k > 0 {
                assert(positions_after(current, dimensions)[k] == rest[k - 1]);
            }
        }
    } else {
        lemma_position_carry(current, dimensions, n);
        assert(radix_digits_fit(position_digits(current), position_sizes(dimensions)));
        lemma_radix_full(position_digits(current), position_sizes(dimensions));
    }
}

/// The number of positions of a grid is the product of its dimensions.
pub proof fn lemma_position_count(dimensions: Seq<isize>)
    ensures
        position_count(dimensions) == prefix_product(dimensions, dimensions.len() as int),
{
    let n = dimensions.len() as int;
    lemma_weight_is_range(dimensions, n);
    lemma_prefix_is_range(dimensions, n);
}

proof fn lemma_weight_is_range(dimensions: Seq<isize>, k: int)
    requires
        0 <= k <= dimensions.len(),
    ensures
        radix_weight(position_sizes(dimensions), k) == range_product(
            dimensions,
            dimensions.len() - k,
            dimensions.len() as int,
        ),
    decreases k,
{
    let n = dimensions.len() as int;
    if k > 0 {
        lemma_weight_is_range(dimensions, k - 1);
        lemma_range_product_low(dimensions, n - k, n);
        let a = range_product(dimensions, n - k + 1, n);
        let b = dimensions[n - k] as int;
        assert(a * b == b * a) by (nonlinear_arith);
    }
}

} // verus!
