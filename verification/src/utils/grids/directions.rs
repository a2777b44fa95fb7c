use crate::utils::grids::counting::{
    lemma_radix_next, radix_carry, radix_digits_fit, radix_next, radix_value, radix_weight,
};
use crate::utils::vectors::dot_product::{common_len, dot, dot_fits, dot_product};
use vstd::prelude::*;

verus! {

/// `2` to the power `k`.
pub open spec fn power_of_two(k: int) -> int
    decreases k,
{
    if k <= 0 {
        1
    } else {
        2 * power_of_two(k - 1)
    }
}

/// The first axis at or after `i` whose direction component is below 1, or the number of
/// axes.
pub open spec fn lowest_growable_component(current: Seq<isize>, i: int) -> int
    decreases current.len() - i,
{
    if i >= current.len() {
        current.len() as int
    } else if current[i] < 1 {
        i
    } else {
        lowest_growable_component(current, i + 1)
    }
}

/// The direction that follows `current` when directions are counted in base 3 with
/// components -1, 0, 1, the first axis varying fastest; it wraps to all -1 after the last.
pub open spec fn next_direction(current: Seq<isize>) -> Seq<isize> {
    let j = lowest_growable_component(current, 0);
    Seq::new(
        current.len(),
        |k: int|
            if k < j {
                -1isize
            } else if k == j {
                (current[k] + 1) as isize
            } else {
                current[k]
            },
    )
}

/// Components of a direction as base-3 digits.
pub open spec fn direction_digits(current: Seq<isize>) -> Seq<int> {
    Seq::new(current.len(), |k: int| current[k] + 1)
}

/// `n` digit sizes of 3.
pub open spec fn threes(n: nat) -> Seq<int> {
    Seq::new(n, |k: int| 3)
}

/// Rank of a direction in the counting order.
pub open spec fn direction_rank(current: Seq<isize>) -> int {
    radix_value(direction_digits(current), threes(current.len()), current.len() as int)
}

/// Number of directions with `n` components.
pub open spec fn direction_count(n: nat) -> int {
    radix_weight(threes(n), n as int)
}

/// Components are in -1..=1, the first one possibly -2 (before the first direction).
pub open spec fn components_fit(current: Seq<isize>) -> bool {
    &&& forall|k: int| 0 <= k < current.len() ==> -1 <= #[trigger] current[k] <= 1 || (k == 0
        && current[k] == -2)
}

/// Cross product of a direction with the positive plane (`1, 2, 4, ...`).
pub open spec fn cross(current: Seq<isize>, positive_plane: Seq<isize>) -> int {
    dot(current, positive_plane, common_len(current, positive_plane))
}

proof fn lemma_direction_carry(current: Seq<isize>, i: int)
    requires
        0 <= i <= current.len(),
    ensures
        radix_carry(direction_digits(current), threes(current.len()), i)
            == lowest_growable_component(current, i),
    decreases current.len() - i,
{
    if i < current.len() {
        lemma_direction_carry(current, i + 1);
    }
}

/// Stepping to the next direction adds one to its rank.
pub proof fn lemma_next_direction(current: Seq<isize>)
    requires
        components_fit(current),
        lowest_growable_component(current, 0) < current.len(),
    ensures
        direction_rank(next_direction(current)) == direction_rank(current) + 1,
        components_fit(next_direction(current)),
        forall|k: int| 0 <= k < current.len() ==> -1 <= #[trigger] next_direction(current)[k] <= 1,
        direction_rank(next_direction(current)) < direction_count(current.len()),
{
    let n = current.len();
    let digits = direction_digits(current);
    let sizes = threes(n);
    lemma_lowest_bounds(current, 0);
    lemma_direction_carry(current, 0);
    assert(radix_digits_fit(digits, sizes));
    lemma_radix_next(digits, sizes);
    assert(direction_digits(next_direction(current)) =~= radix_next(digits, sizes));
    crate::utils::grids::counting::lemma_radix_value_bounds(radix_next(digits, sizes), sizes);
}

/// The first direction after `current` (in counting order) whose cross product with the
/// positive plane is positive, and `true`; or the wrapped direction and `false` when no
/// such direction is left.
pub open spec fn next_forward_direction(current: Seq<isize>, positive_plane: Seq<isize>) -> (
    Seq<isize>,
    bool,
)
    decreases direction_count(current.len()) - direction_rank(current),
    when components_fit(current)
{
    let next = next_direction(current);
    if lowest_growable_component(current, 0) >= current.len() {
        (next, false)
    } else if cross(next, positive_plane) > 0 {
        (next, true)
    } else {
        proof {
            lemma_next_direction(current);
        }
        next_forward_direction(next, positive_plane)
    }
}

proof fn lemma_cross_bound(current: Seq<isize>, positive_plane: Seq<isize>, k: int)
    requires
        0 <= k <= current.len(),
        current.len() == positive_plane.len(),
        forall|i: int| 0 <= i < current.len() ==> -1 <= #[trigger] current[i] <= 1,
        forall|i: int| 0 <= i < positive_plane.len() ==> #[trigger] positive_plane[i] == power_of_two(i),
    ensures
        -(power_of_two(k) - 1) <= dot(current, positive_plane, k) <= power_of_two(k) - 1,
    decreases k,
{
    if k > 0 {
        lemma_cross_bound(current, positive_plane, k - 1);
        lemma_power_of_two_positive(k - 1);
        let c = current[k - 1];
        let p = positive_plane[k - 1];
        assert(-p <= c * p <= p) by (nonlinear_arith)
            requires
                -1 <= c <= 1,
                p >= 0,
        ;
        lemma_power_of_two_positive(k - 1);
    }
}

proof fn lemma_power_of_two_positive(k: int)
    ensures
        power_of_two(k) >= 1,
    decreases k,
{
    if k > 0 {
        lemma_power_of_two_positive(k - 1);
    }
}

proof fn lemma_power_of_two_monotonic(j: int, k: int)
    requires
        0 <= j <= k,
    ensures
        power_of_two(j) <= power_of_two(k),
    decreases k,
{
    if j < k {
        lemma_power_of_two_monotonic(j, k - 1);
        lemma_power_of_two_positive(k - 1);
    }
}

proof fn lemma_cross_fits(current: Seq<isize>, positive_plane: Seq<isize>)
    requires
        current.len() == positive_plane.len(),
        power_of_two(current.len() as int) - 1 <= isize::MAX,
        forall|i: int| 0 <= i < current.len() ==> -1 <= #[trigger] current[i] <= 1,
        forall|i: int| 0 <= i < positive_plane.len() ==> #[trigger] positive_plane[i] == power_of_two(i),
    ensures
        dot_fits(current, positive_plane),
{
    assert forall|k: int| 0 <= k <= common_len(current, positive_plane) implies isize::MIN
        <= #[trigger] dot(current, positive_plane, k) <= isize::MAX by {
        lemma_cross_bound(current, positive_plane, k);
        lemma_power_of_two_monotonic(k, current.len() as int);
    }
    assert forall|k: int| 0 <= k < common_len(current, positive_plane) implies isize::MIN
        <= #[trigger] (current[k] * positive_plane[k]) <= isize::MAX by {
        let c = current[k];
        let p = positive_plane[k];
        lemma_power_of_two_positive(k);
        lemma_power_of_two_monotonic(k + 1, current.len() as int);
        assert(-p <= c * p <= p) by (nonlinear_arith)
            requires
                -1 <= c <= 1,
                p >= 0,
        ;
    }
}

/// Enumerates the directions of a grid that point "forward": one of each pair of opposite
/// directions.
pub struct DirectionIterator {
    pub current_value: Vec<isize>,
    pub positive_plane: Vec<isize>,
}

impl DirectionIterator {
    /// One component per axis (at least one axis, and few enough that `2^axes - 1` fits in
    /// an `isize`), in range; the positive plane holds the powers of two.
    pub open spec fn wf(&self) -> bool {
        &&& 1 <= self.current_value@.len()
        &&& power_of_two(self.current_value@.len() as int) - 1 <= isize::MAX
        &&& self.positive_plane@.len() == self.current_value@.len()
        &&& forall|i: int|
            0 <= i < self.positive_plane@.len() ==> #[trigger] self.positive_plane@[i]
                == power_of_two(i)
        &&& components_fit(self.current_value@)
    }

    /// Starts just before the first direction (all components -1) of a grid with the
    /// given number of dimensions.
    pub fn new(dimensions: usize) -> (r: DirectionIterator)
        requires
            1 <= dimensions,
            power_of_two(dimensions as int) - 1 <= isize::MAX,
        ensures
            r.wf(),
            r.current_value@ == Seq::new(
                dimensions as nat,
                |k: int|
                    if k == 0 {
                        -2isize
                    } else {
                        -1isize
                    },
            ),
            r.positive_plane@ == Seq::new(dimensions as nat, |k: int| power_of_two(k) as isize),
    {
        let mut current_value: Vec<isize> = Vec::new();
        let mut positive_plane: Vec<isize> = Vec::new();
        let mut power: isize = 1;
        let mut i: usize = 0;
        while i < dimensions
            invariant
                i <= dimensions,
                i < dimensions ==> power == power_of_two(i as int),
                power_of_two(dimensions as int) - 1 <= isize::MAX,
                current_value@ == Seq::new(
                    i as nat,
                    |k: int|
                        if k == 0 {
                            -2isize
                        } else {
                            -1isize
                        },
                ),
                positive_plane@.len() == i,
                forall|k: int| 0 <= k < i ==> #[trigger] positive_plane@[k] == power_of_two(k),
            decreases dimensions - i,
        {
            current_value.push(if i == 0 {
                -2
            } else {
                -1
            });
            positive_plane.push(power);
            if i + 1 < dimensions {
                proof {
                    lemma_power_of_two_monotonic(i + 1, dimensions - 1);
                    lemma_power_of_two_positive(i as int);
                    assert(power_of_two(dimensions as int) == 2 * power_of_two(dimensions - 1));
                    lemma_power_of_two_positive(dimensions - 1);
                    assert(power_of_two(i + 1) == 2 * power_of_two(i as int));
                }
                power = power * 2;
            }
            i = i + 1;
            assert(current_value@ =~= Seq::new(
                i as nat,
                |k: int|
                    if k == 0 {
                        -2isize
                    } else {
                        -1isize
                    },
            ));
        }
        assert(positive_plane@ =~= Seq::new(dimensions as nat, |k: int| power_of_two(k) as isize));
        DirectionIterator { current_value, positive_plane }
    }

    /// Moves to the next direction in counting order; `None` when the last one has been
    /// passed (the direction then wraps to all -1).
    pub fn iterate(&mut self) -> (r: Option<()>)
        requires
            old(self).wf(),
        ensures
            final(self).wf(),
            final(self).positive_plane@ == old(self).positive_plane@,
            final(self).current_value@ == next_direction(old(self).current_value@),
            r is Some <==> lowest_growable_component(old(self).current_value@, 0) < old(
                self,
            ).current_value@.len(),
    {
        let ghost start = self.current_value@;
        let n = self.current_value.len();
        let mut index: usize = 0;
        while index < n
            invariant
                index <= n,
                n == start.len(),
                start == old(self).current_value@,
                old(self).wf(),
                self.positive_plane@ == old(self).positive_plane@,
                self.current_value@.len() == n,
                components_fit(start),
                forall|k: int| index <= k < n ==> self.current_value@[k] == start[k],
                forall|k: int| 0 <= k < index ==> self.current_value@[k] == -1,
                forall|k: int| 0 <= k < index ==> !(#[trigger] start[k] < 1),
            decreases n - index,
        {
            assert(self.current_value@[index as int] == start[index as int]);
            let value = self.current_value[index] + 1;
            if value <= 1 {
                self.current_value.set(index, value);
                proof {
                    lemma_lowest_bounds(start, 0);
                    lemma_lowest_growable(start, 0, index as int);
                    lemma_next_direction(start);
                    assert(self.current_value@ =~= next_direction(start));
                }
                return Some(());
            }
            self.current_value.set(index, -1);
            index = index + 1;
        }
        proof {
            lemma_lowest_growable(start, 0, n as int);
            assert(self.current_value@ =~= next_direction(start));
            assert(components_fit(self.current_value@));
        }
        None
    }

    /// Moves to the next forward direction: the next one whose cross product with the
    /// positive plane is positive; `None` when none is left.
    pub fn iterate_forward(&mut self) -> (r: Option<()>)
        requires
            old(self).wf(),
        ensures
            final(self).wf(),
            final(self).positive_plane@ == old(self).positive_plane@,
            (final(self).current_value@, r is Some) == next_forward_direction(
                old(self).current_value@,
                old(self).positive_plane@,
            ),
    {
        loop
            invariant
                self.wf(),
                self.positive_plane@ == old(self).positive_plane@,
                next_forward_direction(self.current_value@, self.positive_plane@)
                    == next_forward_direction(old(self).current_value@, old(self).positive_plane@),
            decreases direction_count(self.current_value@.len()) - direction_rank(
                self.current_value@,
            ),
        {
            let ghost before = self.current_value@;
            match self.iterate() {
                None => {
                    return None;
                },
                Some(()) => {
                    proof {
                        lemma_next_direction(before);
                        lemma_cross_fits(self.current_value@, self.positive_plane@);
                    }
                    let cross_value = dot_product(&self.current_value, &self.positive_plane);
                    if cross_value > 0 {
                        return Some(());
                    }
                },
            }
        }
    }

    /// Moves to the next forward direction and yields it; `None` when none is left.
    pub fn next(&mut self) -> (r: Option<Vec<isize>>)
        requires
            old(self).wf(),
        ensures
            final(self).wf(),
            final(self).positive_plane@ == old(self).positive_plane@,
            final(self).current_value@ == next_forward_direction(
                old(self).current_value@,
                old(self).positive_plane@,
            ).0,
            next_forward_direction(old(self).current_value@, old(self).positive_plane@).1 ==> (r matches Some(
                v,
            ) && v@ == final(self).current_value@),
            !next_forward_direction(old(self).current_value@, old(self).positive_plane@).1
                ==> r is None,
    {
        match self.iterate_forward() {
            Some(()) => Some(self.current_value.clone()),
            None => None,
        }
    }
}

proof fn lemma_lowest_bounds(current: Seq<isize>, i: int)
    requires
        0 <= i <= current.len(),
    ensures
        i <= lowest_growable_component(current, i) <= current.len(),
        lowest_growable_component(current, i) < current.len() ==> current[lowest_growable_component(
            current,
            i,
        )] < 1,
        forall|k: int|
            i <= k < lowest_growable_component(current, i) ==> !(#[trigger] current[k] < 1),
    decreases current.len() - i,
{
    if i < current.len() && !(current[i] < 1) {
        lemma_lowest_bounds(current, i + 1);
    }
}

proof fn lemma_lowest_growable(current: Seq<isize>, i: int, j: int)
    requires
        0 <= i <= j <= current.len(),
        j < current.len() ==> current[j] < 1,
        forall|k: int| i <= k < j ==> !(#[trigger] current[k] < 1),
    ensures
        lowest_growable_component(current, i) == j,
    decreases j - i,
{
    if i < j {
        lemma_lowest_growable(current, i + 1, j);
    }
}

/// The next forward direction comes later in counting order, has components in -1..=1
/// and a positive cross product; the state stays consistent either way.
pub proof fn lemma_next_forward(current: Seq<isize>, positive_plane: Seq<isize>)
    requires
        components_fit(current),
    ensures
        components_fit(next_forward_direction(current, positive_plane).0),
        next_forward_direction(current, positive_plane).0.len() == current.len(),
        next_forward_direction(current, positive_plane).1 ==> direction_rank(current)
            < direction_rank(next_forward_direction(current, positive_plane).0),
        next_forward_direction(current, positive_plane).1 ==> direction_rank(
            next_forward_direction(current, positive_plane).0,
        ) < direction_count(current.len()),
        next_forward_direction(current, positive_plane).1 ==> cross(
            next_forward_direction(current, positive_plane).0,
            positive_plane,
        ) > 0,
        !next_forward_direction(current, positive_plane).1 ==> forall|k: int|
            0 <= k < current.len() ==> #[trigger] next_forward_direction(current, positive_plane).0[k]
                == -1,
        forall|k: int|
            0 <= k < current.len() ==> -1 <= #[trigger] next_forward_direction(
                current,
                positive_plane,
            ).0[k] <= 1,
    decreases direction_count(current.len()) - direction_rank(current),
{
    lemma_lowest_bounds(current, 0);
    if lowest_growable_component(current, 0) >= current.len() {
    } else {
        lemma_next_direction(current);
        let next = next_direction(current);
        if cross(next, positive_plane) <= 0 {
            lemma_next_forward(next, positive_plane);
        }
    }
}

/// A direction whose cross product with anything is nonzero has a nonzero component.
pub proof fn lemma_cross_nonzero(current: Seq<isize>, positive_plane: Seq<isize>, k: int)
    requires
        0 <= k <= current.len(),
        k <= positive_plane.len(),
        dot(current, positive_plane, k) != 0,
    ensures
        exists|i: int| 0 <= i < k && #[trigger] current[i] != 0,
    decreases k,
{
    if k > 0 {
        if current[k - 1] != 0 {
            assert(current[k - 1] != 0);
        } else {
            assert(current[k - 1] * positive_plane[k - 1] == 0);
            lemma_cross_nonzero(current, positive_plane, k - 1);
            let i = choose|i: int| 0 <= i < k - 1 && #[trigger] current[i] != 0;
            assert(current[i] != 0);
        }
    }
}

/// The rank of a direction is below the number of directions.
pub proof fn lemma_direction_rank_bound(current: Seq<isize>)
    requires
        components_fit(current),
    ensures
        direction_rank(current) < direction_count(current.len()),
{
    assert(radix_digits_fit(direction_digits(current), threes(current.len())));
    crate::utils::grids::counting::lemma_radix_value_bounds(
        direction_digits(current),
        threes(current.len()),
    );
}

} // verus!
