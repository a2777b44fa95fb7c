use crate::utils::grids::counting::{
    lemma_radix_next, lemma_radix_value_bounds, radix_carry, radix_digits_fit, radix_next,
    radix_value, radix_weight,
};
use crate::utils::grids::symmetries::symmetry::Symmetry;
use itertools::Itertools;
use vstd::prelude::*;

verus! {

/// `p` is a permutation of `0..n`.
pub open spec fn is_index_permutation(p: Seq<isize>, n: nat) -> bool {
    &&& p.len() == n
    &&& forall|i: int| 0 <= i < n ==> 0 <= #[trigger] p[i] < n
    &&& forall|i: int, j: int| 0 <= i < n && 0 <= j < n && i != j ==> p[i] != p[j]
}

/// The number of permutations of `n` items.
pub open spec fn factorial(n: nat) -> nat
    decreases n,
{
    if n == 0 {
        1
    } else {
        n * factorial((n - 1) as nat)
    }
}

/// The permutations of `items` whose first entry is one of `items[i..]`, in lexicographic
/// order of positions: each `items[j]` in turn, followed by every permutation of the other
/// items, in the same order.
pub open spec fn ordered_permutations(items: Seq<isize>, i: int) -> Seq<Seq<isize>>
    decreases items.len(), items.len() - i,
{
    if items.len() == 0 {
        seq![seq![]]
    } else if i < 0 || i >= items.len() {
        seq![]
    } else {
        let head = items[i];
        ordered_permutations(items.remove(i), 0).map_values(|p: Seq<isize>| seq![head] + p)
            + ordered_permutations(items, i + 1)
    }
}

/// The permutations of `0..n` in lexicographic order, the order in which
/// `Itertools::permutations` yields them from the sorted input `0..n`.
pub open spec fn itertools_permutations(n: nat) -> Seq<Seq<isize>> {
    ordered_permutations(Seq::new(n, |k: int| k as isize), 0)
}

/// Calls `Itertools::permutations(0..n, n)` and collects what it yields: every
/// `n`-permutation of `0..n`, each once, in lexicographic order (its cycle algorithm yields
/// the permutations of a sorted input in that order, as the example of its documentation
/// shows). The `n!` permutations must fit in a `Vec`; beyond that the call cannot return.
#[verifier::external_body]
fn all_permutations(n: usize) -> (r: Vec<Vec<isize>>)
    requires
        n <= isize::MAX,
        factorial(n as nat) <= usize::MAX,
    ensures
        r@.len() == itertools_permutations(n as nat).len(),
        forall|i: int| 0 <= i < r@.len() ==> #[trigger] r@[i]@ == itertools_permutations(n as nat)[i],
        forall|i: int| 0 <= i < r@.len() ==> is_index_permutation(#[trigger] r@[i]@, n as nat),
        forall|p: Seq<isize>|
            #[trigger] is_index_permutation(p, n as nat) ==> exists|i: int|
                0 <= i < r@.len() && #[trigger] r@[i]@ == p,
        forall|i: int, j: int|
            0 <= i < j < r@.len() ==> #[trigger] r@[i]@ != #[trigger] r@[j]@,
{
    (0..n as isize).permutations(n).collect()
}

/// Every entry of `list` is a permutation of `0..n`, every permutation of `0..n` is an entry,
/// and no two entries are equal.
pub open spec fn permutation_list_facts(list: Seq<Seq<isize>>, n: nat) -> bool {
    &&& forall|i: int| 0 <= i < list.len() ==> is_index_permutation(#[trigger] list[i], n)
    &&& forall|p: Seq<isize>| #[trigger] is_index_permutation(p, n) ==> list.contains(p)
    &&& forall|i: int, j: int| 0 <= i < j < list.len() ==> #[trigger] list[i] != #[trigger] list[j]
}

/// The first axis at or after `i` whose destination is `false`, or the number of axes.
pub open spec fn first_false(destination: Seq<bool>, i: int) -> int
    decreases destination.len() - i,
{
    if i >= destination.len() {
        destination.len() as int
    } else if !destination[i] {
        i
    } else {
        first_false(destination, i + 1)
    }
}

/// The destinations that follow `destination` when counted in binary (`false` as 0, the
/// first axis lowest); all `true` wraps to all `false`.
pub open spec fn next_destination(destination: Seq<bool>) -> Seq<bool> {
    let j = first_false(destination, 0);
    Seq::new(
        destination.len(),
        |k: int|
            if k < j {
                false
            } else if k == j {
                true
            } else {
                destination[k]
            },
    )
}

/// Destinations as binary digits.
pub open spec fn destination_digits(destination: Seq<bool>) -> Seq<int> {
    Seq::new(
        destination.len(),
        |k: int|
            if destination[k] {
                1
            } else {
                0
            },
    )
}

/// `n` digit sizes of 2.
pub open spec fn twos(n: nat) -> Seq<int> {
    Seq::new(n, |k: int| 2)
}

/// Rank of destinations in binary counting order.
pub open spec fn destination_rank(destination: Seq<bool>) -> int {
    radix_value(
        destination_digits(destination),
        twos(destination.len()),
        destination.len() as int,
    )
}

/// Number of destinations of `n` axes.
pub open spec fn destination_count(n: nat) -> int {
    radix_weight(twos(n), n as int)
}

proof fn lemma_first_false(destination: Seq<bool>, i: int)
    requires
        0 <= i <= destination.len(),
    ensures
        radix_carry(destination_digits(destination), twos(destination.len()), i) == first_false(
            destination,
            i,
        ),
    decreases destination.len() - i,
{
    if i < destination.len() {
        lemma_first_false(destination, i + 1);
    }
}

/// Stepping destinations that can still grow adds one to their rank.
pub proof fn lemma_next_destination(destination: Seq<bool>)
    requires
        first_false(destination, 0) < destination.len(),
    ensures
        destination_rank(next_destination(destination)) == destination_rank(destination) + 1,
        destination_rank(next_destination(destination)) < destination_count(destination.len()),
{
    let digits = destination_digits(destination);
    let sizes = twos(destination.len());
    lemma_first_false(destination, 0);
    assert(radix_digits_fit(digits, sizes));
    lemma_radix_next(digits, sizes);
    assert(destination_digits(next_destination(destination)) =~= radix_next(digits, sizes));
    lemma_radix_value_bounds(radix_next(digits, sizes), sizes);
}

/// The rank of destinations is between 0 and their number.
pub proof fn lemma_destination_rank_bounds(destination: Seq<bool>)
    ensures
        0 <= destination_rank(destination) < destination_count(destination.len()),
{
    let digits = destination_digits(destination);
    let sizes = twos(destination.len());
    assert(radix_digits_fit(digits, sizes));
    lemma_radix_value_bounds(digits, sizes);
    lemma_rank_nonnegative(digits, sizes, destination.len() as int);
}

proof fn lemma_rank_nonnegative(digits: Seq<int>, sizes: Seq<int>, k: int)
    requires
        0 <= k <= digits.len(),
        digits.len() == sizes.len(),
        forall|i: int| 0 <= i < digits.len() ==> #[trigger] digits[i] >= 0,
        forall|i: int| 0 <= i < sizes.len() ==> #[trigger] sizes[i] >= 1,
    ensures
        radix_value(digits, sizes, k) >= 0,
    decreases k,
{
    if k > 0 {
        lemma_rank_nonnegative(digits, sizes, k - 1);
        crate::utils::grids::counting::lemma_weight_positive(sizes, k - 1);
        let d = digits[k - 1];
        let w = radix_weight(sizes, k - 1);
        assert(d * w >= 0) by (nonlinear_arith)
            requires
                d >= 0,
                w >= 1,
        ;
    }
}

/// A permutation maps each axis to an axis of the same size.
pub open spec fn keeps_dimensions(dimensions: Seq<isize>, permutation: Seq<isize>) -> bool {
    forall|i: int|
        0 <= i < permutation.len() ==> dimensions[i] == dimensions[#[trigger] permutation[i] as int]
}

/// The first permutation at or after `from` that keeps the dimensions, or the number of
/// permutations.
pub open spec fn first_valid_permutation(
    dimensions: Seq<isize>,
    permutations: Seq<Seq<isize>>,
    from: int,
) -> int
    decreases permutations.len() - from,
{
    if from >= permutations.len() {
        permutations.len() as int
    } else if keeps_dimensions(dimensions, permutations[from]) {
        from
    } else {
        first_valid_permutation(dimensions, permutations, from + 1)
    }
}

/// State of a symmetry iterator: destination, permutation and the number of axis
/// permutations already read.
pub type SymmetryModel = (Seq<bool>, Seq<isize>, int);

/// The views of a list of axis permutations.
pub open spec fn permutation_views(list: Seq<Vec<isize>>) -> Seq<Seq<isize>> {
    Seq::new(list.len(), |i: int| list[i]@)
}

/// The state a symmetry iterator over the axis permutations `permutations` moves to, and
/// whether it found a symmetry: the next destinations for the same permutation, else all
/// `false` destinations for the next permutation that keeps the dimensions.
pub open spec fn symmetry_step_in(
    dimensions: Seq<isize>,
    permutations: Seq<Seq<isize>>,
    state: SymmetryModel,
) -> (SymmetryModel, bool) {
    let (destination, permutation, read) = state;
    if first_false(destination, 0) < destination.len() {
        ((next_destination(destination), permutation, read), true)
    } else {
        let c = first_valid_permutation(dimensions, permutations, read);
        if c < permutations.len() {
            ((Seq::new(destination.len(), |k: int| false), permutations[c], c + 1), true)
        } else {
            ((next_destination(destination), permutation, permutations.len() as int), false)
        }
    }
}

/// The step of a symmetry iterator over the axis permutations in the order in which
/// `Itertools::permutations` yields them.
pub open spec fn symmetry_step(dimensions: Seq<isize>, state: SymmetryModel) -> (
    SymmetryModel,
    bool,
) {
    symmetry_step_in(dimensions, itertools_permutations(dimensions.len()), state)
}

pub proof fn lemma_first_valid_bounds(dimensions: Seq<isize>, permutations: Seq<Seq<isize>>, from: int)
    requires
        0 <= from <= permutations.len(),
    ensures
        from <= first_valid_permutation(dimensions, permutations, from) <= permutations.len(),
        first_valid_permutation(dimensions, permutations, from) < permutations.len()
            ==> keeps_dimensions(
            dimensions,
            permutations[first_valid_permutation(dimensions, permutations, from)],
        ),
        forall|k: int|
            from <= k < first_valid_permutation(dimensions, permutations, from) ==> !keeps_dimensions(
                dimensions,
                #[trigger] permutations[k],
            ),
    decreases permutations.len() - from,
{
    if from < permutations.len() && !keeps_dimensions(dimensions, permutations[from]) {
        lemma_first_valid_bounds(dimensions, permutations, from + 1);
    }
}

/// The symmetries that a symmetry iterator yields from the given state on.
pub open spec fn symmetries_after(dimensions: Seq<isize>, state: SymmetryModel) -> Seq<
    (Seq<bool>, Seq<isize>),
>
    decreases itertools_permutations(dimensions.len()).len() - state.2, destination_count(
        state.0.len(),
    ) - destination_rank(state.0),
    when 0 <= state.2 <= itertools_permutations(dimensions.len()).len()
{
    let (next, found) = symmetry_step(dimensions, state);
    if found {
        proof {
            lemma_symmetry_step(dimensions, state);
        }
        seq![(next.0, next.1)] + symmetries_after(dimensions, next)
    } else {
        seq![]
    }
}

/// A symmetry step that finds a symmetry either reads more permutations or moves to later
/// destinations.
pub proof fn lemma_symmetry_step(dimensions: Seq<isize>, state: SymmetryModel)
    requires
        0 <= state.2 <= itertools_permutations(dimensions.len()).len(),
    ensures
        0 <= symmetry_step(dimensions, state).0.2 <= itertools_permutations(dimensions.len()).len(),
        symmetry_step(dimensions, state).0.0.len() == state.0.len(),
        symmetry_step(dimensions, state).1 ==> (state.2 < symmetry_step(dimensions, state).0.2 || (
        state.2 == symmetry_step(dimensions, state).0.2 && destination_rank(state.0)
            < destination_rank(symmetry_step(dimensions, state).0.0))),
        0 <= destination_count(state.0.len()) - destination_rank(
            symmetry_step(dimensions, state).0.0,
        ),
        0 <= itertools_permutations(dimensions.len()).len() - symmetry_step(dimensions, state).0.2,
{
    let (destination, permutation, read) = state;
    lemma_first_valid_bounds(dimensions, itertools_permutations(dimensions.len()), read);
    lemma_destination_rank_bounds(destination);
    lemma_destination_rank_bounds(symmetry_step(dimensions, state).0.0);
    if first_false(destination, 0) < destination.len() {
        lemma_next_destination(destination);
    }
}

/// Enumerates the symmetries of a grid: every permutation of the axes that keeps the
/// dimensions, with every combination of reflections.
pub struct Symmetries {
    pub dimensions: Vec<isize>,
    pub destination: Vec<bool>,
    pub permutation: Vec<isize>,
    pub permutations: Vec<Vec<isize>>,
    pub permutations_read: usize,
}

impl Symmetries {
    /// The state of the iterator.
    pub open spec fn model(&self) -> SymmetryModel {
        (self.destination@, self.permutation@, self.permutations_read as int)
    }

    /// The axis permutations that the iterator reads, in order.
    pub open spec fn permutation_list(&self) -> Seq<Seq<isize>> {
        permutation_views(self.permutations@)
    }

    /// Every axis permutation is a permutation of the axes, and they are read up to
    /// `permutations_read`.
    pub open spec fn wf(&self) -> bool {
        &&& forall|i: int|
            0 <= i < self.permutations@.len() ==> is_index_permutation(
                #[trigger] self.permutations@[i]@,
                self.dimensions@.len(),
            )
        &&& self.permutations_read <= self.permutations@.len()
        &&& self.destination@.len() == self.dimensions@.len()
    }

    /// Starts before the first symmetry of a grid with the given dimensions, reading the
    /// axis permutations of `permutations` in order.
    pub fn with_permutations(dimensions: Vec<isize>, permutations: Vec<Vec<isize>>) -> (r: Symmetries)
        requires
            dimensions@.len() <= isize::MAX,
            forall|i: int|
                0 <= i < permutations@.len() ==> is_index_permutation(
                    #[trigger] permutations@[i]@,
                    dimensions@.len(),
                ),
        ensures
            r.wf(),
            r.dimensions@ == dimensions@,
            r.permutations@ == permutations@,
            r.model() == (
                Seq::new(dimensions@.len(), |k: int| true),
                Seq::new(dimensions@.len(), |k: int| k as isize),
                0int,
            ),
    {
        let n = dimensions.len();
        let mut destination: Vec<bool> = Vec::new();
        let mut permutation: Vec<isize> = Vec::new();
        let mut i: usize = 0;
        while i < n
            invariant
                i <= n <= isize::MAX,
                destination@ == Seq::new(i as nat, |k: int| true),
                permutation@ == Seq::new(i as nat, |k: int| k as isize),
            decreases n - i,
        {
            destination.push(true);
            permutation.push(i as isize);
            i = i + 1;
            assert(destination@ =~= Seq::new(i as nat, |k: int| true));
            assert(permutation@ =~= Seq::new(i as nat, |k: int| k as isize));
        }
        Symmetries { dimensions, destination, permutation, permutations, permutations_read: 0 }
    }

    /// Starts before the first symmetry of a grid with the given dimensions, reading the
    /// axis permutations in the order in which `Itertools::permutations` yields them.
    pub fn new(dimensions: Vec<isize>) -> (r: Symmetries)
        requires
            dimensions@.len() <= isize::MAX,
            factorial(dimensions@.len()) <= usize::MAX,
        ensures
            r.wf(),
            r.dimensions@ == dimensions@,
            r.permutation_list() == itertools_permutations(dimensions@.len()),
            permutation_list_facts(itertools_permutations(dimensions@.len()), dimensions@.len()),
            r.model() == (
                Seq::new(dimensions@.len(), |k: int| true),
                Seq::new(dimensions@.len(), |k: int| k as isize),
                0int,
            ),
    {
        let n = dimensions.len();
        let permutations = all_permutations(n);
        proof {
            let list = itertools_permutations(n as nat);
            assert(permutation_views(permutations@) =~= list);
            assert forall|p: Seq<isize>| #[trigger] is_index_permutation(p, n as nat) implies list.contains(
                p,
            ) by {
                let i = choose|i: int| 0 <= i < permutations@.len() && #[trigger] permutations@[i]@ == p;
                assert(list[i] == p);
            }
            assert forall|i: int, j: int| 0 <= i < j < list.len() implies #[trigger] list[i]
                != #[trigger] list[j] by {
                assert(permutations@[i]@ != permutations@[j]@);
            }
            assert forall|i: int| 0 <= i < list.len() implies is_index_permutation(
                #[trigger] list[i],
                n as nat,
            ) by {
                assert(is_index_permutation(permutations@[i]@, n as nat));
            }
        }
        Symmetries::with_permutations(dimensions, permutations)
    }

    fn iterate_destinations(&mut self) -> (r: Option<()>)
        requires
            old(self).wf(),
        ensures
            final(self).wf(),
            final(self).dimensions@ == old(self).dimensions@,
            final(self).permutations@ == old(self).permutations@,
            final(self).permutation@ == old(self).permutation@,
            final(self).permutations_read == old(self).permutations_read,
            final(self).destination@ == next_destination(old(self).destination@),
            r is Some <==> first_false(old(self).destination@, 0) < old(self).destination@.len(),
    {
        let ghost start = self.destination@;
        let n = self.destination.len();
        let mut index: usize = 0;
        while index < n
            invariant
                index <= n,
                n == start.len(),
                start == old(self).destination@,
                old(self).wf(),
                self.dimensions@ == old(self).dimensions@,
                self.permutations@ == old(self).permutations@,
                self.permutation@ == old(self).permutation@,
                self.permutations_read == old(self).permutations_read,
                self.destination@.len() == n,
                forall|k: int| index <= k < n ==> self.destination@[k] == start[k],
                forall|k: int| 0 <= k < index ==> !self.destination@[k],
                forall|k: int| 0 <= k < index ==> #[trigger] start[k],
            decreases n - index,
        {
            let value = !self.destination[index];
            self.destination.set(index, value);
            if value {
                proof {
                    lemma_first_false_at(start, index as int);
                    assert(self.destination@ =~= next_destination(start));
                }
                return Some(());
            }
            index = index + 1;
        }
        proof {
            lemma_first_false_at(start, n as int);
            assert(self.destination@ =~= next_destination(start));
        }
        None
    }

    fn iterate_permutations(&mut self) -> (r: Option<()>)
        requires
            old(self).wf(),
        ensures
            final(self).wf(),
            final(self).dimensions@ == old(self).dimensions@,
            final(self).permutations@ == old(self).permutations@,
            final(self).destination@ == old(self).destination@,
            ({
                let c = first_valid_permutation(
                    old(self).dimensions@,
                    old(self).permutation_list(),
                    old(self).permutations_read as int,
                );
                if c < old(self).permutations@.len() {
                    &&& r is Some
                    &&& final(self).permutation@ == old(self).permutation_list()[c]
                    &&& final(self).permutations_read == c + 1
                } else {
                    &&& r is None
                    &&& final(self).permutation@ == old(self).permutation@
                    &&& final(self).permutations_read == old(self).permutations@.len()
                }
            }),
    {
        let ghost perms = self.permutation_list();
        let ghost dims = self.dimensions@;
        let ghost from = self.permutations_read as int;
        proof {
            lemma_first_valid_bounds(dims, perms, from);
        }
        while self.permutations_read < self.permutations.len()
            invariant
                self.wf(),
                dims == self.dimensions@,
                perms == old(self).permutation_list(),
                self.dimensions@ == old(self).dimensions@,
                self.permutations@ == old(self).permutations@,
                self.destination@ == old(self).destination@,
                self.permutation@ == old(self).permutation@,
                0 <= from <= self.permutations_read,
                from == old(self).permutations_read as int,
                forall|k: int| from <= k < self.permutations_read ==> !keeps_dimensions(
                    dims,
                    #[trigger] perms[k],
                ),
            decreases self.permutations.len() - self.permutations_read,
        {
            let index = self.permutations_read;
            self.permutations_read = index + 1;
            proof {
                assert(perms[index as int] == self.permutations@[index as int]@);
                assert(is_index_permutation(perms[index as int], dims.len()));
            }
            let candidate = &self.permutations[index];
            let mut keeps = true;
            let mut i: usize = 0;
            while i < candidate.len()
                invariant
                    i <= candidate@.len(),
                    candidate@ == perms[index as int],
                    is_index_permutation(perms[index as int], dims.len()),
                    dims == self.dimensions@,
                    keeps == forall|m: int|
                        0 <= m < i ==> dims[m] == dims[#[trigger] candidate@[m] as int],
                decreases candidate.len() - i,
            {
                let target = candidate[i];
                assert(0 <= candidate@[i as int] < dims.len());
                if self.dimensions[i] != self.dimensions[target as usize] {
                    keeps = false;
                }
                i = i + 1;
            }
            if keeps {
                self.permutation = candidate.clone();
                proof {
                    lemma_first_valid_at(dims, perms, from, index as int);
                }
                return Some(());
            }
        }
        proof {
            lemma_first_valid_at(dims, perms, from, perms.len() as int);
        }
        None
    }

    /// Moves to the next symmetry; `None` when none is left.
    pub fn iterate(&mut self) -> (r: Option<()>)
        requires
            old(self).wf(),
        ensures
            final(self).wf(),
            final(self).dimensions@ == old(self).dimensions@,
            final(self).permutations@ == old(self).permutations@,
            (final(self).model(), r is Some) == symmetry_step_in(
                old(self).dimensions@,
                old(self).permutation_list(),
                old(self).model(),
            ),
    {
        if self.iterate_destinations().is_some() {
            return Some(());
        }
        if self.iterate_permutations().is_some() {
            let n = self.dimensions.len();
            let mut destination: Vec<bool> = Vec::new();
            let mut i: usize = 0;
            while i < n
                invariant
                    i <= n,
                    destination@ == Seq::new(i as nat, |k: int| false),
                decreases n - i,
            {
                destination.push(false);
                i = i + 1;
                assert(destination@ =~= Seq::new(i as nat, |k: int| false));
            }
            self.destination = destination;
            return Some(());
        }
        proof {
            assert(self.permutations_read == self.permutations@.len());
        }
        None
    }

    /// Moves to the next symmetry and yields it; `None` when none is left.
    pub fn next(&mut self) -> (r: Option<Symmetry>)
        requires
            old(self).wf(),
        ensures
            final(self).wf(),
            final(self).dimensions@ == old(self).dimensions@,
            final(self).permutations@ == old(self).permutations@,
            (final(self).model(), r is Some) == symmetry_step_in(
                old(self).dimensions@,
                old(self).permutation_list(),
                old(self).model(),
            ),
            r matches Some(s) ==> s.destination@ == final(self).destination@ && s.permutation@
                == final(self).permutation@,
    {
        match self.iterate() {
            Some(()) => Some(
                Symmetry {
                    destination: self.destination.clone(),
                    permutation: self.permutation.clone(),
                },
            ),
            None => None,
        }
    }
}

proof fn lemma_first_false_at(destination: Seq<bool>, j: int)
    requires
        0 <= j <= destination.len(),
        j < destination.len() ==> !destination[j],
        forall|k: int| 0 <= k < j ==> #[trigger] destination[k],
    ensures
        first_false(destination, 0) == j,
{
    lemma_first_false_from(destination, 0, j);
}

proof fn lemma_first_false_from(destination: Seq<bool>, i: int, j: int)
    requires
        0 <= i <= j <= destination.len(),
        j < destination.len() ==> !destination[j],
        forall|k: int| i <= k < j ==> #[trigger] destination[k],
    ensures
        first_false(destination, i) == j,
    decreases j - i,
{
    if i < j {
        lemma_first_false_from(destination, i + 1, j);
    }
}

proof fn lemma_first_valid_at(
    dimensions: Seq<isize>,
    permutations: Seq<Seq<isize>>,
    from: int,
    j: int,
)
    requires
        0 <= from <= j <= permutations.len(),
        j < permutations.len() ==> keeps_dimensions(dimensions, permutations[j]),
        forall|k: int| from <= k < j ==> !keeps_dimensions(dimensions, #[trigger] permutations[k]),
    ensures
        first_valid_permutation(dimensions, permutations, from) == j,
    decreases j - from,
{
    if from < j {
        lemma_first_valid_at(dimensions, permutations, from + 1, j);
    }
}

} // verus!
