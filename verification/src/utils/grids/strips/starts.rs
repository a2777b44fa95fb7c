use crate::utils::grids::counting::{
    lemma_radix_next, lemma_radix_value_bounds, radix_carry, radix_digits_fit, radix_next,
    radix_value, radix_weight,
};
use vstd::prelude::*;

verus! {

/// Whether the plane coordinate of axis `k` grows when the planes are stepped: it is below
/// 1 and is not a 0 on an axis of size at most 1 (such axes are passed over).
pub open spec fn plane_growable(plane: Seq<isize>, dimensions: Seq<isize>, k: int) -> bool {
    plane[k] < 1 && !(plane[k] == 0 && dimensions[k] <= 1)
}

/// The first axis at or after `i` whose plane coordinate grows, or the number of axes.
pub open spec fn plane_carry(plane: Seq<isize>, dimensions: Seq<isize>, i: int) -> int
    decreases plane.len() - i,
{
    if i >= plane.len() {
        plane.len() as int
    } else if plane_growable(plane, dimensions, i) {
        i
    } else {
        plane_carry(plane, dimensions, i + 1)
    }
}

/// The planes that follow `plane`: the carry axis grows by one; each axis before it goes
/// back to 0, except that an axis of size at most 1 that was at 0 moves to 1.
pub open spec fn next_plane(plane: Seq<isize>, dimensions: Seq<isize>) -> Seq<isize> {
    let j = plane_carry(plane, dimensions, 0);
    Seq::new(
        plane.len(),
        |k: int|
            if k < j {
                if plane[k] == 0 && dimensions[k] <= 1 {
                    1isize
                } else {
                    0isize
                }
            } else if k == j {
                (plane[k] + 1) as isize
            } else {
                plane[k]
            },
    )
}

/// Whether a plane contains a direction: every axis along which the direction moves is
/// a nonzero plane coordinate.
pub open spec fn plane_contains(plane: Seq<isize>, direction: Seq<isize>) -> bool {
    forall|k: int| 0 <= k < plane.len() && k < direction.len() ==> #[trigger] direction[k] == 0 || plane[k] != 0
}

/// Plane coordinates as counting digits: axes of size at most 1 count as a single value.
pub open spec fn plane_digits(plane: Seq<isize>, dimensions: Seq<isize>) -> Seq<int> {
    Seq::new(
        plane.len(),
        |k: int|
            if plane[k] == -1 {
                -1
            } else if dimensions[k] > 1 {
                plane[k] as int
            } else {
                0
            },
    )
}

/// Number of values of each plane digit.
pub open spec fn plane_sizes(dimensions: Seq<isize>) -> Seq<int> {
    Seq::new(
        dimensions.len(),
        |k: int|
            if dimensions[k] > 1 {
                2
            } else {
                1
            },
    )
}

/// Plane coordinates are in -1..=1, -1 only on the first axis.
pub open spec fn planes_fit(plane: Seq<isize>) -> bool {
    forall|k: int| 0 <= k < plane.len() ==> -1 <= #[trigger] plane[k] <= 1 && (k > 0 ==> plane[k] >= 0)
}

/// Rank of a plane in the counting order.
pub open spec fn plane_rank(plane: Seq<isize>, dimensions: Seq<isize>) -> int {
    radix_value(plane_digits(plane, dimensions), plane_sizes(dimensions), plane.len() as int)
}

/// Number of planes.
pub open spec fn plane_count(dimensions: Seq<isize>) -> int {
    radix_weight(plane_sizes(dimensions), dimensions.len() as int)
}

proof fn lemma_plane_carry(plane: Seq<isize>, dimensions: Seq<isize>, i: int)
    requires
        0 <= i <= plane.len(),
        plane.len() == dimensions.len(),
        planes_fit(plane),
    ensures
        radix_carry(plane_digits(plane, dimensions), plane_sizes(dimensions), i) == plane_carry(
            plane,
            dimensions,
            i,
        ),
        i <= plane_carry(plane, dimensions, i) <= plane.len(),
        forall|k: int|
            i <= k < plane_carry(plane, dimensions, i) ==> !plane_growable(plane, dimensions, k),
        plane_carry(plane, dimensions, i) < plane.len() ==> plane_growable(
            plane,
            dimensions,
            plane_carry(plane, dimensions, i),
        ),
    decreases plane.len() - i,
{
    if i < plane.len() {
        lemma_plane_carry(plane, dimensions, i + 1);
    }
}

/// Stepping the planes adds one to their rank.
pub proof fn lemma_next_plane(plane: Seq<isize>, dimensions: Seq<isize>)
    requires
        plane.len() == dimensions.len(),
        planes_fit(plane),
        plane_carry(plane, dimensions, 0) < plane.len(),
    ensures
        plane_rank(next_plane(plane, dimensions), dimensions) == plane_rank(plane, dimensions) + 1,
        planes_fit(next_plane(plane, dimensions)),
        forall|k: int| 0 <= k < plane.len() ==> #[trigger] next_plane(plane, dimensions)[k] >= 0,
        plane_rank(next_plane(plane, dimensions), dimensions) < plane_count(dimensions),
{
    let digits = plane_digits(plane, dimensions);
    let sizes = plane_sizes(dimensions);
    lemma_plane_carry(plane, dimensions, 0);
    assert(radix_digits_fit(digits, sizes));
    lemma_radix_next(digits, sizes);
    assert(plane_digits(next_plane(plane, dimensions), dimensions) =~= radix_next(digits, sizes));
    lemma_radix_value_bounds(radix_next(digits, sizes), sizes);
}

/// The first planes after `plane` (in counting order) that do not contain `direction`, and
/// `true`; or the wrapped planes and `false` when none is left.
pub open spec fn next_relevant_plane(
    plane: Seq<isize>,
    dimensions: Seq<isize>,
    direction: Seq<isize>,
) -> (Seq<isize>, bool)
    decreases plane_count(dimensions) - plane_rank(plane, dimensions),
    when plane.len() == dimensions.len() && planes_fit(plane)
{
    let next = next_plane(plane, dimensions);
    if plane_carry(plane, dimensions, 0) >= plane.len() {
        (next, false)
    } else if !plane_contains(next, direction) {
        (next, true)
    } else {
        proof {
            lemma_next_plane(plane, dimensions);
        }
        next_relevant_plane(next, dimensions, direction)
    }
}

/// The first cell of each axis for a plane: the plane coordinate, counted from the far
/// end of the axis when the direction moves backwards along it.
pub open spec fn starting_position_for(
    dimensions: Seq<isize>,
    direction: Seq<isize>,
    plane: Seq<isize>,
) -> Seq<isize> {
    Seq::new(
        dimensions.len(),
        |k: int|
            if direction[k] < 0 {
                (dimensions[k] - 1 - plane[k]) as isize
            } else {
                plane[k]
            },
    )
}

/// Whether the coordinate of axis `k` moves when positions are stepped: the axis is in
/// the plane and the coordinate can move one cell along the direction within the grid.
pub open spec fn position_growable(
    dimensions: Seq<isize>,
    direction: Seq<isize>,
    plane: Seq<isize>,
    position: Seq<isize>,
    k: int,
) -> bool {
    plane[k] > 0 && if direction[k] < 0 {
        position[k] - 1 >= 0
    } else {
        position[k] + 1 < dimensions[k]
    }
}

/// The first axis at or after `i` whose coordinate moves, or the number of axes.
pub open spec fn position_carry(
    dimensions: Seq<isize>,
    direction: Seq<isize>,
    plane: Seq<isize>,
    position: Seq<isize>,
    i: int,
) -> int
    decreases position.len() - i,
{
    if i >= position.len() {
        position.len() as int
    } else if position_growable(dimensions, direction, plane, position, i) {
        i
    } else {
        position_carry(dimensions, direction, plane, position, i + 1)
    }
}

/// The positions that follow `position` within a plane: the carry axis moves one cell
/// along the direction; each axis of the plane before it goes back to its first cell.
pub open spec fn next_start_position(
    dimensions: Seq<isize>,
    direction: Seq<isize>,
    plane: Seq<isize>,
    starting: Seq<isize>,
    position: Seq<isize>,
) -> Seq<isize> {
    let j = position_carry(dimensions, direction, plane, position, 0);
    Seq::new(
        position.len(),
        |k: int|
            if k < j {
                if plane[k] > 0 {
                    starting[k]
                } else {
                    position[k]
                }
            } else if k == j {
                if direction[k] < 0 {
                    (position[k] - 1) as isize
                } else {
                    (position[k] + 1) as isize
                }
            } else {
                position[k]
            },
    )
}

/// Enumerates the first cells of the strips of a grid that move along one direction.
pub struct StartIterator {
    pub dimensions: Vec<isize>,
    pub direction: Vec<isize>,
    pub current_plane: Vec<isize>,
    pub starting_position: Vec<isize>,
    pub current_position: Vec<isize>,
}

/// The state of a start iterator: dimensions, direction, plane, starting position and
/// current position.
pub type StartModel = (Seq<isize>, Seq<isize>, Seq<isize>, Seq<isize>, Seq<isize>);

/// The state that a start iterator moves to, and whether it found a strip start: the next
/// position within the current plane, else the first position of the next plane that does
/// not contain the direction.
pub open spec fn start_step(state: StartModel) -> (StartModel, bool) {
    let (dims, dir, plane, starting, position) = state;
    let moved = position_carry(dims, dir, plane, position, 0) < position.len();
    let (next, found) = next_relevant_plane(plane, dims, dir);
    if moved {
        ((dims, dir, plane, starting, next_start_position(dims, dir, plane, starting, position)), true)
    } else if found {
        let first = starting_position_for(dims, dir, next);
        ((dims, dir, next, first, first), true)
    } else {
        ((dims, dir, next, starting, next_start_position(dims, dir, plane, starting, position)), false)
    }
}

/// The state of a new start iterator.
pub open spec fn fresh_start(dimensions: Seq<isize>, direction: Seq<isize>) -> StartModel {
    (
        dimensions,
        direction,
        Seq::new(
            dimensions.len(),
            |k: int|
                if k == 0 {
                    -1isize
                } else {
                    0isize
                },
        ),
        Seq::new(dimensions.len(), |k: int| 0isize),
        Seq::new(dimensions.len(), |k: int| 0isize),
    )
}

impl StartIterator {
    /// The state of the iterator.
    pub open spec fn model(&self) -> StartModel {
        (
            self.dimensions@,
            self.direction@,
            self.current_plane@,
            self.starting_position@,
            self.current_position@,
        )
    }

    /// All vectors have one entry per axis and no coordinate can overflow.
    pub open spec fn wf(&self) -> bool {
        let n = self.dimensions@.len();
        &&& self.direction@.len() == n
        &&& self.current_plane@.len() == n
        &&& self.starting_position@.len() == n
        &&& self.current_position@.len() == n
        &&& planes_fit(self.current_plane@)
        &&& forall|k: int| 0 <= k < n ==> #[trigger] self.dimensions@[k] >= isize::MIN + 3
        &&& forall|k: int|
            0 <= k < n ==> isize::MIN < #[trigger] self.current_position@[k] < isize::MAX
        &&& forall|k: int|
            0 <= k < n ==> isize::MIN < #[trigger] self.starting_position@[k] < isize::MAX
    }

    /// Starts before the first strip start of a grid with the given dimensions, for the
    /// given direction.
    pub fn new(dimensions: Vec<isize>, direction: Vec<isize>) -> (r: StartIterator)
        requires
            direction@.len() == dimensions@.len(),
            forall|k: int| 0 <= k < dimensions@.len() ==> #[trigger] dimensions@[k] >= isize::MIN + 3,
        ensures
            r.wf(),
            r.model() == fresh_start(dimensions@, direction@),
            r.current_plane@ == Seq::new(
                dimensions@.len(),
                |k: int|
                    if k == 0 {
                        -1isize
                    } else {
                        0isize
                    },
            ),
            r.starting_position@ == Seq::new(dimensions@.len(), |k: int| 0isize),
            r.current_position@ == Seq::new(dimensions@.len(), |k: int| 0isize),
    {
        let n = dimensions.len();
        let mut current_plane: Vec<isize> = Vec::new();
        let mut starting_position: Vec<isize> = Vec::new();
        let mut current_position: Vec<isize> = Vec::new();
        let mut i: usize = 0;
        while i < n
            invariant
                i <= n,
                current_plane@ == Seq::new(
                    i as nat,
                    |k: int|
                        if k == 0 {
                            -1isize
                        } else {
                            0isize
                        },
                ),
                starting_position@ == Seq::new(i as nat, |k: int| 0isize),
                current_position@ == Seq::new(i as nat, |k: int| 0isize),
            decreases n - i,
        {
            current_plane.push(if i == 0 {
                -1
            } else {
                0
            });
            starting_position.push(0);
            current_position.push(0);
            i = i + 1;
            assert(current_plane@ =~= Seq::new(
                i as nat,
                |k: int|
                    if k == 0 {
                        -1isize
                    } else {
                        0isize
                    },
            ));
            assert(starting_position@ =~= Seq::new(i as nat, |k: int| 0isize));
            assert(current_position@ =~= Seq::new(i as nat, |k: int| 0isize));
        }
        StartIterator { dimensions, direction, current_plane, starting_position, current_position }
    }

    /// The iterator over no position (a grid without axes).
    pub fn empty() -> (r: StartIterator)
        ensures
            r.wf(),
            r.dimensions@.len() == 0,
            r.direction@.len() == 0,
            r.model() == fresh_start(seq![], seq![]),
    {
        let r = StartIterator::new(Vec::new(), Vec::new());
        assert(r.dimensions@ =~= seq![]);
        assert(r.direction@ =~= seq![]);
        r
    }

    fn iterate_planes(&mut self) -> (r: Option<()>)
        requires
            old(self).wf(),
        ensures
            final(self).wf(),
            final(self).dimensions == old(self).dimensions,
            final(self).direction == old(self).direction,
            final(self).starting_position == old(self).starting_position,
            final(self).current_position == old(self).current_position,
            final(self).current_plane@ == next_plane(
                old(self).current_plane@,
                old(self).dimensions@,
            ),
            r is Some <==> plane_carry(old(self).current_plane@, old(self).dimensions@, 0) < old(
                self,
            ).current_plane@.len(),
    {
        let ghost start = self.current_plane@;
        let ghost dims = self.dimensions@;
        let n = self.current_plane.len();
        let mut index: usize = 0;
        while index < n
            invariant
                index <= n,
                n == start.len(),
                old(self).wf(),
                start == old(self).current_plane@,
                dims == old(self).dimensions@,
                self.dimensions == old(self).dimensions,
                self.direction == old(self).direction,
                self.starting_position == old(self).starting_position,
                self.current_position == old(self).current_position,
                self.current_plane@.len() == n,
                forall|k: int| index <= k < n ==> self.current_plane@[k] == start[k],
                forall|k: int|
                    0 <= k < index ==> self.current_plane@[k] == if start[k] == 0 && dims[k] <= 1 {
                        1isize
                    } else {
                        0isize
                    },
                forall|k: int| 0 <= k < index ==> !plane_growable(start, dims, k),
            decreases n - index,
        {
            assert(self.current_plane@[index as int] == start[index as int]);
            let value = self.current_plane[index] + 1;
            if value == 1 && self.dimensions[index] <= 1 {
                self.current_plane.set(index, value);
                index = index + 1;
                continue ;
            }
            if value < 2 {
                self.current_plane.set(index, value);
                proof {
                    lemma_plane_carry(start, dims, 0);
                    lemma_plane_carry_at(start, dims, index as int);
                    assert(self.current_plane@ =~= next_plane(start, dims));
                    lemma_next_plane(start, dims);
                }
                return Some(());
            }
            self.current_plane.set(index, 0);
            index = index + 1;
        }
        proof {
            lemma_plane_carry(start, dims, 0);
            lemma_plane_carry_at(start, dims, n as int);
            assert(self.current_plane@ =~= next_plane(start, dims));
        }
        None
    }

    fn iterate_relevant_planes(&mut self) -> (r: Option<()>)
        requires
            old(self).wf(),
        ensures
            final(self).wf(),
            final(self).dimensions == old(self).dimensions,
            final(self).direction == old(self).direction,
            final(self).starting_position == old(self).starting_position,
            final(self).current_position == old(self).current_position,
            (final(self).current_plane@, r is Some) == next_relevant_plane(
                old(self).current_plane@,
                old(self).dimensions@,
                old(self).direction@,
            ),
            r is Some ==> forall|k: int|
                0 <= k < final(self).current_plane@.len() ==> #[trigger] final(self).current_plane@[k]
                    >= 0,
    {
        loop
            invariant
                self.wf(),
                self.dimensions == old(self).dimensions,
                self.direction == old(self).direction,
                self.starting_position == old(self).starting_position,
                self.current_position == old(self).current_position,
                next_relevant_plane(self.current_plane@, self.dimensions@, self.direction@)
                    == next_relevant_plane(
                    old(self).current_plane@,
                    old(self).dimensions@,
                    old(self).direction@,
                ),
            decreases plane_count(self.dimensions@) - plane_rank(
                self.current_plane@,
                self.dimensions@,
            ),
        {
            let ghost before = self.current_plane@;
            match self.iterate_planes() {
                None => {
                    return None;
                },
                Some(()) => {
                    proof {
                        lemma_next_plane(before, self.dimensions@);
                    }
                    let mut contains = true;
                    let mut k: usize = 0;
                    while k < self.current_plane.len()
                        invariant
                            self.wf(),
                            k <= self.current_plane@.len(),
                            contains == forall|m: int|
                                0 <= m < k ==> #[trigger] self.direction@[m] == 0
                                    || self.current_plane@[m] != 0,
                        decreases self.current_plane@.len() - k,
                    {
                        if !(self.direction[k] == 0 || self.current_plane[k] != 0) {
                            contains = false;
                        }
                        k = k + 1;
                    }
                    if !contains {
                        return Some(());
                    }
                },
            }
        }
    }

    fn set_starting_position(&mut self)
        requires
            old(self).wf(),
            forall|k: int|
                0 <= k < old(self).current_plane@.len() ==> #[trigger] old(self).current_plane@[k]
                    >= 0,
        ensures
            final(self).wf(),
            final(self).dimensions == old(self).dimensions,
            final(self).direction == old(self).direction,
            final(self).current_plane == old(self).current_plane,
            final(self).starting_position@ == starting_position_for(
                old(self).dimensions@,
                old(self).direction@,
                old(self).current_plane@,
            ),
            final(self).current_position@ == final(self).starting_position@,
    {
        let n = self.dimensions.len();
        let mut starting: Vec<isize> = Vec::new();
        let mut i: usize = 0;
        while i < n
            invariant
                i <= n,
                n == self.dimensions@.len(),
                self.wf(),
                forall|k: int|
                    0 <= k < self.current_plane@.len() ==> #[trigger] self.current_plane@[k] >= 0,
                self.dimensions == old(self).dimensions,
                self.direction == old(self).direction,
                self.current_plane == old(self).current_plane,
                starting@ == starting_position_for(
                    self.dimensions@,
                    self.direction@,
                    self.current_plane@,
                ).subrange(0, i as int),
            decreases n - i,
        {
            let value = if self.direction[i] < 0 {
                self.dimensions[i] - 1 - self.current_plane[i]
            } else {
                self.current_plane[i]
            };
            starting.push(value);
            i = i + 1;
            assert(starting@ =~= starting_position_for(
                self.dimensions@,
                self.direction@,
                self.current_plane@,
            ).subrange(0, i as int));
        }
        assert(starting@ =~= starting_position_for(
            self.dimensions@,
            self.direction@,
            self.current_plane@,
        ));
        self.current_position = starting.clone();
        self.starting_position = starting;
    }

    fn iterate_positions(&mut self) -> (r: Option<()>)
        requires
            old(self).wf(),
        ensures
            final(self).wf(),
            final(self).dimensions == old(self).dimensions,
            final(self).direction == old(self).direction,
            final(self).current_plane == old(self).current_plane,
            final(self).starting_position == old(self).starting_position,
            final(self).current_position@ == next_start_position(
                old(self).dimensions@,
                old(self).direction@,
                old(self).current_plane@,
                old(self).starting_position@,
                old(self).current_position@,
            ),
            r is Some <==> position_carry(
                old(self).dimensions@,
                old(self).direction@,
                old(self).current_plane@,
                old(self).current_position@,
                0,
            ) < old(self).current_position@.len(),
    {
        let ghost start = self.current_position@;
        let ghost dims = self.dimensions@;
        let ghost dir = self.direction@;
        let ghost plane = self.current_plane@;
        let n = self.current_position.len();
        let mut index: usize = 0;
        while index < n
            invariant
                index <= n,
                n == start.len(),
                old(self).wf(),
                start == old(self).current_position@,
                dims == old(self).dimensions@,
                dir == old(self).direction@,
                plane == old(self).current_plane@,
                self.dimensions == old(self).dimensions,
                self.direction == old(self).direction,
                self.current_plane == old(self).current_plane,
                self.starting_position == old(self).starting_position,
                self.current_position@.len() == n,
                forall|k: int| index <= k < n ==> self.current_position@[k] == start[k],
                forall|k: int|
                    0 <= k < index ==> self.current_position@[k] == if plane[k] > 0 {
                        self.starting_position@[k]
                    } else {
                        start[k]
                    },
                forall|k: int| 0 <= k < index ==> !position_growable(dims, dir, plane, start, k),
            decreases n - index,
        {
            if self.current_plane[index] <= 0 {
                index = index + 1;
                continue ;
            }
            assert(self.current_position@[index as int] == start[index as int]);
            if self.direction[index] < 0 {
                let value = self.current_position[index] - 1;
                if value >= 0 {
                    self.current_position.set(index, value);
                    proof {
                        lemma_position_carry_at(dims, dir, plane, start, index as int);
                        assert(self.current_position@ =~= next_start_position(
                            dims,
                            dir,
                            plane,
                            self.starting_position@,
                            start,
                        ));
                    }
                    return Some(());
                }
            } else {
                let value = self.current_position[index] + 1;
                if value < self.dimensions[index] {
                    self.current_position.set(index, value);
                    proof {
                        lemma_position_carry_at(dims, dir, plane, start, index as int);
                        assert(self.current_position@ =~= next_start_position(
                            dims,
                            dir,
                            plane,
                            self.starting_position@,
                            start,
                        ));
                    }
                    return Some(());
                }
            }
            let reset = self.starting_position[index];
            self.current_position.set(index, reset);
            index = index + 1;
        }
        proof {
            lemma_position_carry_at(dims, dir, plane, start, n as int);
            assert(self.current_position@ =~= next_start_position(
                dims,
                dir,
                plane,
                self.starting_position@,
                start,
            ));
        }
        None
    }

    /// Moves to the next strip start: the next position within the current plane, or the
    /// first position of the next plane that does not contain the direction; `None` when
    /// none is left.
    pub fn iterate(&mut self) -> (r: Option<()>)
        requires
            old(self).wf(),
        ensures
            final(self).wf(),
            final(self).dimensions == old(self).dimensions,
            final(self).direction == old(self).direction,
            (final(self).model(), r is Some) == start_step(old(self).model()),
    {
        if let Some(()) = self.iterate_positions() {
            return Some(());
        }
        if let Some(()) = self.iterate_relevant_planes() {
            self.set_starting_position();
            return Some(());
        }
        None
    }

    /// Moves to the next strip start and yields it; `None` when none is left.
    pub fn next(&mut self) -> (r: Option<Vec<isize>>)
        requires
            old(self).wf(),
        ensures
            final(self).wf(),
            final(self).dimensions == old(self).dimensions,
            final(self).direction == old(self).direction,
            (final(self).model(), r is Some) == start_step(old(self).model()),
            r matches Some(p) ==> p@ == final(self).current_position@,
    {
        match self.iterate() {
            Some(()) => Some(self.current_position.clone()),
            None => None,
        }
    }
}

proof fn lemma_plane_carry_at(plane: Seq<isize>, dimensions: Seq<isize>, j: int)
    requires
        0 <= j <= plane.len(),
        j < plane.len() ==> plane_growable(plane, dimensions, j),
        forall|k: int| 0 <= k < j ==> !plane_growable(plane, dimensions, k),
    ensures
        plane_carry(plane, dimensions, 0) == j,
{
    lemma_plane_carry_from(plane, dimensions, 0, j);
}

proof fn lemma_plane_carry_from(plane: Seq<isize>, dimensions: Seq<isize>, i: int, j: int)
    requires
        0 <= i <= j <= plane.len(),
        j < plane.len() ==> plane_growable(plane, dimensions, j),
        forall|k: int| i <= k < j ==> !plane_growable(plane, dimensions, k),
    ensures
        plane_carry(plane, dimensions, i) == j,
    decreases j - i,
{
    if i < j {
        lemma_plane_carry_from(plane, dimensions, i + 1, j);
    }
}

proof fn lemma_position_carry_at(
    dimensions: Seq<isize>,
    direction: Seq<isize>,
    plane: Seq<isize>,
    position: Seq<isize>,
    j: int,
)
    requires
        0 <= j <= position.len(),
        j < position.len() ==> position_growable(dimensions, direction, plane, position, j),
        forall|k: int| 0 <= k < j ==> !position_growable(dimensions, direction, plane, position, k),
    ensures
        position_carry(dimensions, direction, plane, position, 0) == j,
{
    lemma_position_carry_from(dimensions, direction, plane, position, 0, j);
}

proof fn lemma_position_carry_from(
    dimensions: Seq<isize>,
    direction: Seq<isize>,
    plane: Seq<isize>,
    position: Seq<isize>,
    i: int,
    j: int,
)
    requires
        0 <= i <= j <= position.len(),
        j < position.len() ==> position_growable(dimensions, direction, plane, position, j),
        forall|k: int| i <= k < j ==> !position_growable(dimensions, direction, plane, position, k),
    ensures
        position_carry(dimensions, direction, plane, position, i) == j,
    decreases j - i,
{
    if i < j {
        lemma_position_carry_from(dimensions, direction, plane, position, i + 1, j);
    }
}

/// Counting digit of the coordinate of axis `k` within the current plane: the number of
/// cells it has moved from its first cell.
pub open spec fn position_digit(
    dims: Seq<isize>,
    dir: Seq<isize>,
    plane: Seq<isize>,
    starting: Seq<isize>,
    position: Seq<isize>,
    k: int,
) -> int {
    if plane[k] <= 0 {
        0
    } else if dir[k] < 0 {
        if starting[k] >= 0 {
            starting[k] - position[k]
        } else {
            0
        }
    } else {
        if starting[k] < dims[k] {
            position[k] - starting[k]
        } else {
            0
        }
    }
}

/// Number of values of the counting digit of axis `k`.
pub open spec fn position_size(
    dims: Seq<isize>,
    dir: Seq<isize>,
    plane: Seq<isize>,
    starting: Seq<isize>,
    k: int,
) -> int {
    if plane[k] <= 0 {
        1
    } else if dir[k] < 0 {
        if starting[k] >= 0 {
            starting[k] + 1
        } else {
            1
        }
    } else {
        if starting[k] < dims[k] {
            dims[k] - starting[k]
        } else {
            1
        }
    }
}

/// Counting digits of the current position.
pub open spec fn position_digits(state: StartModel) -> Seq<int> {
    let (dims, dir, plane, starting, position) = state;
    Seq::new(position.len(), |k: int| position_digit(dims, dir, plane, starting, position, k))
}

/// Counting sizes of the current position.
pub open spec fn position_sizes(state: StartModel) -> Seq<int> {
    let (dims, dir, plane, starting, position) = state;
    Seq::new(position.len(), |k: int| position_size(dims, dir, plane, starting, k))
}

/// Rank of the current position within the current plane.
pub open spec fn position_rank(state: StartModel) -> int {
    radix_value(position_digits(state), position_sizes(state), state.4.len() as int)
}

/// Number of positions within the current plane.
pub open spec fn position_count(state: StartModel) -> int {
    radix_weight(position_sizes(state), state.4.len() as int)
}

/// The state of a start iterator is consistent: all vectors have one entry per axis, the
/// planes are in range and each coordinate of the plane lies between its first cell and
/// the edge of the grid.
pub open spec fn start_model_wf(state: StartModel) -> bool {
    let (dims, dir, plane, starting, position) = state;
    let n = dims.len();
    &&& dir.len() == n
    &&& plane.len() == n
    &&& starting.len() == n
    &&& position.len() == n
    &&& planes_fit(plane)
    &&& forall|k: int| 0 <= k < n && #[trigger] plane[k] <= 0 ==> position[k] == starting[k]
    &&& forall|k: int|
        0 <= k < n && plane[k] > 0 ==> if #[trigger] dir[k] < 0 {
            if starting[k] >= 0 {
                0 <= position[k] <= starting[k]
            } else {
                position[k] == starting[k]
            }
        } else {
            if starting[k] < dims[k] {
                starting[k] <= position[k] <= dims[k] - 1
            } else {
                position[k] == starting[k]
            }
        }
}

proof fn lemma_position_carry_bounds(
    dimensions: Seq<isize>,
    direction: Seq<isize>,
    plane: Seq<isize>,
    position: Seq<isize>,
    i: int,
)
    requires
        0 <= i <= position.len(),
    ensures
        i <= position_carry(dimensions, direction, plane, position, i) <= position.len(),
        position_carry(dimensions, direction, plane, position, i) < position.len()
            ==> position_growable(
            dimensions,
            direction,
            plane,
            position,
            position_carry(dimensions, direction, plane, position, i),
        ),
        forall|k: int|
            i <= k < position_carry(dimensions, direction, plane, position, i)
                ==> !position_growable(dimensions, direction, plane, position, k),
    decreases position.len() - i,
{
    if i < position.len() && !position_growable(dimensions, direction, plane, position, i) {
        lemma_position_carry_bounds(dimensions, direction, plane, position, i + 1);
    }
}

proof fn lemma_position_carry_digits(state: StartModel, i: int)
    requires
        start_model_wf(state),
        0 <= i <= state.4.len(),
    ensures
        radix_carry(position_digits(state), position_sizes(state), i) == position_carry(
            state.0,
            state.1,
            state.2,
            state.4,
            i,
        ),
    decreases state.4.len() - i,
{
    if i < state.4.len() {
        lemma_position_carry_digits(state, i + 1);
    }
}

proof fn lemma_relevant_plane(plane: Seq<isize>, dimensions: Seq<isize>, direction: Seq<isize>)
    requires
        plane.len() == dimensions.len(),
        planes_fit(plane),
    ensures
        planes_fit(next_relevant_plane(plane, dimensions, direction).0),
        next_relevant_plane(plane, dimensions, direction).0.len() == plane.len(),
        next_relevant_plane(plane, dimensions, direction).1 ==> plane_rank(plane, dimensions)
            < plane_rank(next_relevant_plane(plane, dimensions, direction).0, dimensions),
        next_relevant_plane(plane, dimensions, direction).1 ==> forall|k: int|
            0 <= k < plane.len() ==> #[trigger] next_relevant_plane(plane, dimensions, direction).0[k]
                >= 0,
    decreases plane_count(dimensions) - plane_rank(plane, dimensions),
{
    lemma_plane_carry(plane, dimensions, 0);
    if plane_carry(plane, dimensions, 0) >= plane.len() {
        assert(planes_fit(next_plane(plane, dimensions)));
    } else {
        lemma_next_plane(plane, dimensions);
        let next = next_plane(plane, dimensions);
        if plane_contains(next, direction) {
            lemma_relevant_plane(next, dimensions, direction);
        }
    }
}

/// A step of a start iterator keeps its state consistent; when it finds a strip start it
/// either moves to a later plane or stays in its plane and moves to a later position.
pub proof fn lemma_start_step(state: StartModel)
    requires
        start_model_wf(state),
    ensures
        start_model_wf(start_step(state).0),
        start_step(state).0.0 == state.0,
        start_step(state).0.1 == state.1,
        start_step(state).1 ==> (plane_rank(state.2, state.0) < plane_rank(
            start_step(state).0.2,
            state.0,
        ) || (start_step(state).0.2 == state.2 && start_step(state).0.3 == state.3
            && position_rank(state) < position_rank(start_step(state).0))),
        plane_rank(start_step(state).0.2, state.0) < plane_count(state.0),
        position_rank(start_step(state).0) < position_count(start_step(state).0),
{
    let (dims, dir, plane, starting, position) = state;
    let n = dims.len();
    lemma_relevant_plane(plane, dims, dir);
    lemma_position_carry_digits(state, 0);
    let digits = position_digits(state);
    let sizes = position_sizes(state);
    assert(radix_digits_fit(digits, sizes));
    let moved = position_carry(dims, dir, plane, position, 0) < position.len();
    let next_position = next_start_position(dims, dir, plane, starting, position);
    let moved_state = (dims, dir, plane, starting, next_position);
    let (next, found) = next_relevant_plane(plane, dims, dir);
    lemma_radix_value_bounds(digits, sizes);
    if moved {
        lemma_radix_next(digits, sizes);
        let j = position_carry(dims, dir, plane, position, 0);
        lemma_position_carry_bounds(dims, dir, plane, position, 0);
        assert forall|k: int| 0 <= k < n && plane[k] > 0 implies (if #[trigger] dir[k] < 0 {
            if starting[k] >= 0 {
                0 <= next_position[k] <= starting[k]
            } else {
                next_position[k] == starting[k]
            }
        } else {
            if starting[k] < dims[k] {
                starting[k] <= next_position[k] <= dims[k] - 1
            } else {
                next_position[k] == starting[k]
            }
        }) by {
            if k == j {
                assert(position_growable(dims, dir, plane, position, j));
            }
        }
        assert(start_model_wf(moved_state));
        assert(position_digits(moved_state) =~= radix_next(digits, sizes));
        assert(position_sizes(moved_state) =~= sizes);
        lemma_radix_value_bounds(radix_next(digits, sizes), sizes);
    } else {
        lemma_plane_bounds(next, dims);
        if found {
            let first = starting_position_for(dims, dir, next);
            let found_state = (dims, dir, next, first, first);
            assert(start_model_wf(found_state));
            assert(radix_digits_fit(position_digits(found_state), position_sizes(found_state)));
            lemma_radix_value_bounds(position_digits(found_state), position_sizes(found_state));
        } else {
            let end_state = (dims, dir, next, starting, next_position);
            assert(next_position =~= starting);
            assert(start_model_wf(end_state));
            assert(radix_digits_fit(position_digits(end_state), position_sizes(end_state)));
            lemma_radix_value_bounds(position_digits(end_state), position_sizes(end_state));
        }
    }
    lemma_plane_bounds(start_step(state).0.2, dims);
}

proof fn lemma_plane_bounds(plane: Seq<isize>, dimensions: Seq<isize>)
    requires
        plane.len() == dimensions.len(),
        planes_fit(plane),
    ensures
        plane_rank(plane, dimensions) < plane_count(dimensions),
{
    assert(radix_digits_fit(plane_digits(plane, dimensions), plane_sizes(dimensions)));
    lemma_radix_value_bounds(plane_digits(plane, dimensions), plane_sizes(dimensions));
}

/// Every coordinate of the starting and current positions is at most one cell outside
/// the grid.
pub open spec fn start_in_box(state: StartModel) -> bool {
    let (dims, dir, plane, starting, position) = state;
    &&& forall|k: int| 0 <= k < dims.len() ==> -1 <= #[trigger] starting[k] <= dims[k]
    &&& forall|k: int| 0 <= k < dims.len() ==> -1 <= #[trigger] position[k] <= dims[k]
}

/// In a grid whose dimensions are at least 1, a step of a start iterator keeps its
/// positions at most one cell outside the grid.
pub proof fn lemma_start_step_box(state: StartModel)
    requires
        start_model_wf(state),
        start_in_box(state),
        forall|k: int| 0 <= k < state.0.len() ==> #[trigger] state.0[k] >= 1,
    ensures
        start_in_box(start_step(state).0),
{
    let (dims, dir, plane, starting, position) = state;
    lemma_relevant_plane(plane, dims, dir);
    lemma_position_carry_bounds(dims, dir, plane, position, 0);
}

/// The ranks of a consistent start iterator state are below their counts.
pub proof fn lemma_start_model_bounds(state: StartModel)
    requires
        start_model_wf(state),
    ensures
        plane_rank(state.2, state.0) < plane_count(state.0),
        position_rank(state) < position_count(state),
{
    lemma_plane_bounds(state.2, state.0);
    assert(radix_digits_fit(position_digits(state), position_sizes(state)));
    lemma_radix_value_bounds(position_digits(state), position_sizes(state));
}

/// The starting and current positions lie within the grid.
pub open spec fn start_in_grid(state: StartModel) -> bool {
    let (dims, dir, plane, starting, position) = state;
    &&& forall|k: int| 0 <= k < dims.len() ==> 0 <= #[trigger] starting[k] < dims[k]
    &&& forall|k: int| 0 <= k < dims.len() ==> 0 <= #[trigger] position[k] < dims[k]
}

/// In a grid whose dimensions are at least 2, a start iterator whose positions lie
/// within the grid finds its next strip start within the grid.
pub proof fn lemma_start_step_grid(state: StartModel)
    requires
        start_model_wf(state),
        start_in_grid(state),
        forall|k: int| 0 <= k < state.0.len() ==> #[trigger] state.0[k] >= 2,
    ensures
        start_step(state).1 ==> start_in_grid(start_step(state).0),
{
    let (dims, dir, plane, starting, position) = state;
    lemma_relevant_plane(plane, dims, dir);
    lemma_position_carry_bounds(dims, dir, plane, position, 0);
    let j = position_carry(dims, dir, plane, position, 0);
    if j < position.len() {
        let next = next_start_position(dims, dir, plane, starting, position);
        assert forall|k: int| 0 <= k < dims.len() implies 0 <= #[trigger] next[k] < dims[k] by {
            if k < j {
                assert(0 <= starting[k] < dims[k]);
                assert(0 <= position[k] < dims[k]);
            } else if k == j {
                assert(position_growable(dims, dir, plane, position, j));
            }
        }
    } else {
        let (next, found) = next_relevant_plane(plane, dims, dir);
        if found {
            let first = starting_position_for(dims, dir, next);
            assert forall|k: int| 0 <= k < dims.len() implies 0 <= #[trigger] first[k] < dims[k] by {
                assert(0 <= next[k] <= 1);
                assert(dims[k] >= 2);
            }
        }
    }
}

} // verus!
