use crate::utils::grids::positions::{lemma_next_position, lemma_position_count, lemma_position_rank_bound, lemma_positions_after, position_before_first, position_count, position_in_grid, position_rank, positions_after, Positions};
use crate::utils::grids::strides::{compute_strides, grid_fits, lemma_dot_fits_in_grid, lemma_prefix_product_positive, products_fit, lemma_grid_products_fit, lemma_linear_index_in_grid, prefix_product, strides_of};
use crate::utils::grids::symmetries::conversion::{
    conversion_fits, convert_position, converted_position, lemma_converted_in_range, moved_coordinate,
};
use crate::utils::grids::symmetries::iterator::{factorial, destination_count, destination_rank, is_index_permutation, itertools_permutations, keeps_dimensions, lemma_destination_rank_bounds, lemma_first_valid_bounds, lemma_symmetry_step, permutation_list_facts, symmetries_after, SymmetryModel, Symmetries};
use crate::utils::vectors::dot_product::{common_len, dot, dot_product, lemma_dot_commutes, lemma_dot_fits_commutes};
use vstd::prelude::*;

verus! {

/// Linear index of a position: its dot product with the strides of the grid.
pub open spec fn grid_index(dimensions: Seq<isize>, position: Seq<isize>) -> int {
    dot(position, strides_of(dimensions), common_len(position, strides_of(dimensions)))
}

/// The linear index of the image of `position` under a symmetry.
pub open spec fn image_index(
    dimensions: Seq<isize>,
    destination: Seq<bool>,
    permutation: Seq<isize>,
    position: Seq<isize>,
) -> usize {
    grid_index(dimensions, converted_position(dimensions, position, destination, permutation))
        as usize
}

/// The permutation of the cells of a grid that a symmetry induces: entry `k` is the linear
/// index of the image of the `k`-th position in row-major order.
pub open spec fn grid_permutation(
    dimensions: Seq<isize>,
    destination: Seq<bool>,
    permutation: Seq<isize>,
) -> Seq<usize> {
    image_indices(
        dimensions,
        destination,
        permutation,
        positions_after(position_before_first(dimensions), dimensions),
    )
}

/// The linear indices of the images of the given positions under a symmetry.
pub open spec fn image_indices(
    dimensions: Seq<isize>,
    destination: Seq<bool>,
    permutation: Seq<isize>,
    positions: Seq<Seq<isize>>,
) -> Seq<usize> {
    positions.map_values(
        |position: Seq<isize>| image_index(dimensions, destination, permutation, position),
    )
}

/// The state of a new symmetry iterator.
pub open spec fn first_symmetry_state(n: nat) -> SymmetryModel {
    (Seq::new(n, |k: int| true), Seq::new(n, |k: int| k as isize), 0int)
}

/// The symmetries of a grid, in the order in which `Symmetries` yields them.
pub open spec fn grid_symmetries(dimensions: Seq<isize>) -> Seq<(Seq<bool>, Seq<isize>)> {
    symmetries_after(dimensions, first_symmetry_state(dimensions.len()))
}

/// The cell permutation of a symmetry.
pub open spec fn symmetry_permutation(
    dimensions: Seq<isize>,
    symmetry: (Seq<bool>, Seq<isize>),
) -> Seq<usize> {
    grid_permutation(dimensions, symmetry.0, symmetry.1)
}

/// The cell permutations of the symmetries of a grid.
pub open spec fn table_permutations(dimensions: Seq<isize>) -> Seq<Seq<usize>> {
    table_entries(dimensions, grid_symmetries(dimensions))
}

/// The cell permutations of the given symmetries.
pub open spec fn table_entries(
    dimensions: Seq<isize>,
    symmetries: Seq<(Seq<bool>, Seq<isize>)>,
) -> Seq<Seq<usize>> {
    symmetries.map_values(|s: (Seq<bool>, Seq<isize>)| symmetry_permutation(dimensions, s))
}

/// The contents of vectors of indices.
pub open spec fn index_views(vectors: Seq<Vec<usize>>) -> Seq<Seq<usize>> {
    vectors.map_values(|v: Vec<usize>| v@)
}

/// The sequence that maps `indices[k]` to `k`, the later `k` winning, over the first `m`
/// entries; entries never written are 0.
pub open spec fn reverted(indices: Seq<usize>, m: int) -> Seq<usize>
    decreases m,
{
    if m <= 0 {
        Seq::new(indices.len(), |k: int| 0usize)
    } else {
        reverted(indices, m - 1).update(indices[m - 1] as int, (m - 1) as usize)
    }
}

/// The inverse of a permutation given as a sequence of indices.
#[verifier::opaque]
pub open spec fn inverse_permutation(indices: Seq<usize>) -> Seq<usize> {
    reverted(indices, indices.len() as int)
}

/// `indices` sends `0..n` into `0..n` without repeating a value, `n` being its length.
pub open spec fn is_cell_permutation(indices: Seq<usize>) -> bool {
    &&& indices.len() <= usize::MAX
    &&& forall|k: int| 0 <= k < indices.len() ==> #[trigger] indices[k] < indices.len()
    &&& forall|a: int, b: int|
        0 <= a < indices.len() && 0 <= b < indices.len() && a != b ==> #[trigger] indices[a]
            != #[trigger] indices[b]
}

/// The inverse of a cell permutation sends each image back to where it came from.
pub proof fn lemma_inverse_permutation(indices: Seq<usize>)
    requires
        is_cell_permutation(indices),
    ensures
        inverse_permutation(indices).len() == indices.len(),
        forall|k: int|
            0 <= k < indices.len() ==> #[trigger] inverse_permutation(indices)[indices[k] as int]
                == k,
        forall|v: int|
            0 <= v < indices.len() ==> #[trigger] inverse_permutation(indices)[v] < indices.len(),
{
    reveal(inverse_permutation);
    lemma_reverted(indices, indices.len() as int);
}

proof fn lemma_reverted(indices: Seq<usize>, m: int)
    requires
        0 <= m <= indices.len(),
        is_cell_permutation(indices),
    ensures
        reverted(indices, m).len() == indices.len(),
        forall|k: int| 0 <= k < m ==> #[trigger] reverted(indices, m)[indices[k] as int] == k,
        forall|v: int| 0 <= v < indices.len() ==> #[trigger] reverted(indices, m)[v] < indices.len(),
    decreases m,
{
    if m > 0 {
        lemma_reverted(indices, m - 1);
        let prev = reverted(indices, m - 1);
        let cur = reverted(indices, m);
        assert(cur == prev.update(indices[m - 1] as int, (m - 1) as usize));
        assert((m - 1) as usize == m - 1);
        assert forall|k: int| 0 <= k < m implies #[trigger] cur[indices[k] as int] == k by {
            if k < m - 1 {
                assert(indices[k] != indices[m - 1]);
                assert(prev[indices[k] as int] == k);
            }
        }
        assert forall|v: int| 0 <= v < indices.len() implies #[trigger] cur[v] < indices.len() by {
            assert(prev[v] < indices.len());
        }
    }
}

/// The first index at or after `from` whose entry is `target`, or the number of entries.
pub open spec fn first_index_of(table: Seq<Seq<usize>>, target: Seq<usize>, from: int) -> int
    decreases table.len() - from,
{
    if from >= table.len() {
        table.len() as int
    } else if table[from] == target {
        from
    } else {
        first_index_of(table, target, from + 1)
    }
}

/// Every permutation of the table has its inverse in the table.
pub open spec fn inverses_in(table: Seq<Seq<usize>>) -> bool {
    forall|j: int| 0 <= j < table.len() ==> #[trigger] has_inverse_in(table, j)
}

/// The inverse of entry `j` of the table is an entry of the table.
pub open spec fn has_inverse_in(table: Seq<Seq<usize>>, j: int) -> bool {
    exists|i: int| 0 <= i < table.len() && #[trigger] table[i] == inverse_permutation(table[j])
}

/// Every cell permutation of the symmetries of the grid has its inverse among them.
pub open spec fn inverses_present(dimensions: Seq<isize>) -> bool {
    inverses_in(table_permutations(dimensions))
}

/// For each permutation of the table, the index of the first permutation that is its
/// inverse.
pub open spec fn inverse_indices_of(table: Seq<Seq<usize>>) -> Seq<int> {
    Seq::new(table.len(), |j: int| first_index_of(table, inverse_permutation(table[j]), 0))
}

/// The grid fits, has at least one axis, and the permutations of its axes fit in a `Vec`.
pub open spec fn table_grid_fits(dimensions: Seq<isize>) -> bool {
    &&& dimensions.len() >= 1
    &&& grid_fits(dimensions)
    &&& factorial(dimensions.len()) <= usize::MAX
}

/// For each `k`, the entry at `indices[k]` is `k`; entries that no `k` reaches are 0.
pub fn revert_permutation_indices(indices: &Vec<usize>) -> (r: Vec<usize>)
    requires
        forall|k: int| 0 <= k < indices@.len() ==> #[trigger] indices@[k] < indices@.len(),
    ensures
        r@ == inverse_permutation(indices@),
{
    reveal(inverse_permutation);
    let n = indices.len();
    let mut result: Vec<usize> = Vec::new();
    let mut i: usize = 0;
    while i < n
        invariant
            i <= n,
            n == indices@.len(),
            result@ == Seq::new(i as nat, |k: int| 0usize),
        decreases n - i,
    {
        result.push(0);
        i = i + 1;
        assert(result@ =~= Seq::new(i as nat, |k: int| 0usize));
    }
    assert(result@ =~= reverted(indices@, 0));
    let mut index: usize = 0;
    while index < n
        invariant
            index <= n,
            n == indices@.len(),
            forall|k: int| 0 <= k < indices@.len() ==> #[trigger] indices@[k] < indices@.len(),
            result@ == reverted(indices@, index as int),
            result@.len() == n,
        decreases n - index,
    {
        let value = indices[index];
        result.set(value, index);
        index = index + 1;
    }
    result
}

fn same_indices(a: &Vec<usize>, b: &Vec<usize>) -> (r: bool)
    ensures
        r == (a@ == b@),
{
    if a.len() != b.len() {
        return false;
    }
    let mut i: usize = 0;
    while i < a.len()
        invariant
            i <= a@.len(),
            a@.len() == b@.len(),
            forall|k: int| 0 <= k < i ==> a@[k] == b@[k],
        decreases a.len() - i,
    {
        if a[i] != b[i] {
            return false;
        }
        i = i + 1;
    }
    assert(a@ =~= b@);
    true
}

/// The image of a position within the grid under a symmetry that keeps the dimensions is
/// within the grid.
proof fn lemma_converted_in_grid(
    dimensions: Seq<isize>,
    position: Seq<isize>,
    destination: Seq<bool>,
    permutation: Seq<isize>,
)
    requires
        position.len() == dimensions.len(),
        destination.len() == dimensions.len(),
        is_index_permutation(permutation, dimensions.len()),
        keeps_dimensions(dimensions, permutation),
        forall|i: int| 0 <= i < dimensions.len() ==> 0 <= #[trigger] position[i] <= dimensions[i] - 1,
    ensures
        conversion_fits(dimensions, position, destination, permutation),
        converted_position(dimensions, position, destination, permutation).len() == dimensions.len(),
        forall|i: int|
            0 <= i < dimensions.len() ==> 0 <= #[trigger] converted_position(
                dimensions,
                position,
                destination,
                permutation,
            )[i] <= dimensions[i] - 1,
{
    assert forall|i: int| 0 <= i < dimensions.len() implies 0 <= #[trigger] moved_coordinate(
        dimensions,
        position,
        destination,
        i,
    ) < dimensions[permutation[i] as int] by {
        assert(dimensions[i] == dimensions[permutation[i] as int]);
    }
    assert forall|j: int| 0 <= j < dimensions.len() implies 1 <= #[trigger] dimensions[j] by {
        assert(0 <= position[j]);
    }
    lemma_converted_in_range(dimensions, position, destination, permutation, dimensions.len() as int);
    assert forall|i: int| 0 <= i < dimensions.len() implies 0 <= #[trigger] converted_position(
        dimensions,
        position,
        destination,
        permutation,
    )[i] <= dimensions[i] - 1 by {
        assert(0 <= permutation[i] < dimensions.len());
    }
}

fn symmetry_cells(
    dimensions: &Vec<isize>,
    strides: &Vec<isize>,
    destination: &Vec<bool>,
    permutation: &Vec<isize>,
) -> (r: Vec<usize>)
    requires
        table_grid_fits(dimensions@),
        strides@ == strides_of(dimensions@),
        destination@.len() == dimensions@.len(),
        is_index_permutation(permutation@, dimensions@.len()),
        keeps_dimensions(dimensions@, permutation@),
    ensures
        r@ == grid_permutation(dimensions@, destination@, permutation@),
        forall|k: int|
            0 <= k < r@.len() ==> #[trigger] r@[k] < prefix_product(
                dimensions@,
                dimensions@.len() as int,
            ),
        r@.len() == prefix_product(dimensions@, dimensions@.len() as int),
{
    let ghost dims = dimensions@;
    let ghost n = dims.len() as int;
    let ghost cells = prefix_product(dims, n);
    let ghost all = positions_after(position_before_first(dims), dims);
    let mut positions = Positions::new(dimensions.clone());
    let mut result: Vec<usize> = Vec::new();
    proof {
        lemma_grid_products_fit(dims);
        lemma_position_count(dims);
        assert(positions.current_position@ =~= position_before_first(dims));
        lemma_before_first_rank(dims);
        lemma_positions_after(position_before_first(dims), dims);
        assert(result@ + image_indices(dims, destination@, permutation@, positions_after(positions.current_position@, dims))
            =~= image_indices(dims, destination@, permutation@, all));
    }
    loop
        invariant_except_break
            position_in_grid(positions.current_position@, dims),
            result@.len() == position_rank(positions.current_position@, dims) + 1,
            result@ + image_indices(dims, destination@, permutation@, positions_after(positions.current_position@, dims))
                == image_indices(dims, destination@, permutation@, all),
        invariant
            table_grid_fits(dims),
            products_fit(dims),
            dims == dimensions@,
            n == dims.len(),
            cells == prefix_product(dims, n),
            strides@ == strides_of(dims),
            destination@.len() == dims.len(),
            is_index_permutation(permutation@, dims.len()),
            keeps_dimensions(dims, permutation@),
            positions.wf(),
            positions.dimensions@ == dims,
            forall|k: int| 0 <= k < result@.len() ==> #[trigger] result@[k] < cells,
            position_count(dims) == cells,
            all == positions_after(position_before_first(dims), dims),
            all.len() == cells,
        ensures
            result@ == image_indices(dims, destination@, permutation@, all),
        decreases position_count(dims) - position_rank(positions.current_position@, dims),
    {
        let ghost before = positions.current_position@;
        proof {
            lemma_position_rank_bound(before, dims);
            lemma_positions_after(before, dims);
        }
        match positions.next() {
            None => {
                proof {
                    assert(positions_after(before, dims) =~= seq![]);
                    assert(image_indices(dims, destination@, permutation@, positions_after(before, dims)) =~= seq![]);
                    
                    assert(result@ =~= image_indices(dims, destination@, permutation@, all));
                }
                break ;
            },
            Some(position) => {
                proof {
                    lemma_next_position(before, dims);
                    lemma_converted_in_grid(dims, position@, destination@, permutation@);
                }
                let permuted = convert_position(dimensions, &position, destination, permutation);
                proof {
                    lemma_dot_fits_in_grid(dims, permuted@);
                    lemma_dot_fits_commutes(strides_of(dims), permuted@);
                    lemma_linear_index_in_grid(dims, permuted@, n);
                    lemma_dot_commutes(permuted@, strides_of(dims), n);
                }
                let index = dot_product(&permuted, strides);
                let ghost old_result = result@;
                result.push(index as usize);
                proof {
                    let next = positions.current_position@;
                    assert(next == position@);
                    assert(positions_after(before, dims) == seq![next] + positions_after(next, dims));
                    assert(converted_position(dims, next, destination@, permutation@) == permuted@);
                    assert(grid_index(dims, permuted@) == index as int);
                    assert(image_index(dims, destination@, permutation@, next) == index as usize);
                    assert(image_indices(dims, destination@, permutation@, positions_after(before, dims)) =~= seq![index as usize]
                        + image_indices(dims, destination@, permutation@, positions_after(next, dims)));
                    assert(result@ + image_indices(dims, destination@, permutation@, positions_after(next, dims)) =~= old_result
                        + image_indices(dims, destination@, permutation@, positions_after(before, dims)));
                }
            },
        }
    }
    proof {
        lemma_positions_after(position_before_first(dims), dims);
    }
    result
}

pub proof fn lemma_before_first_rank(dims: Seq<isize>)
    requires
        dims.len() >= 1,
        forall|k: int| 0 <= k < dims.len() ==> #[trigger] dims[k] >= 1,
    ensures
        position_rank(position_before_first(dims), dims) == -1,
        position_in_grid(position_before_first(dims), dims),
{
    let p = position_before_first(dims);
    let digits = crate::utils::grids::positions::position_digits(p);
    let sizes = crate::utils::grids::positions::position_sizes(dims);
    lemma_rank_of_first(digits, sizes, dims.len() as int);
}

proof fn lemma_rank_of_first(digits: Seq<int>, sizes: Seq<int>, k: int)
    requires
        1 <= k <= digits.len(),
        digits[0] == -1,
        forall|i: int| 0 < i < digits.len() ==> #[trigger] digits[i] == 0,
    ensures
        crate::utils::grids::counting::radix_value(digits, sizes, k) == -1,
    decreases k,
{
    if k > 1 {
        lemma_rank_of_first(digits, sizes, k - 1);
        assert(digits[k - 1] == 0);
        assert(digits[k - 1] * crate::utils::grids::counting::radix_weight(sizes, k - 1) == 0);
    } else {
        assert(crate::utils::grids::counting::radix_weight(sizes, 0) == 1);
        assert(crate::utils::grids::counting::radix_value(digits, sizes, 0) == 0);
    }
}

/// The cell permutations of the symmetries of a grid, in the order in which `Symmetries`
/// yields the symmetries.
fn table_cells(dimensions: &Vec<isize>) -> (r: Vec<Vec<usize>>)
    requires
        table_grid_fits(dimensions@),
    ensures
        index_views(r@) == table_permutations(dimensions@),
        permutation_list_facts(itertools_permutations(dimensions@.len()), dimensions@.len()),
        forall|j: int, k: int|
            0 <= j < r@.len() && 0 <= k < r@[j]@.len() ==> #[trigger] r@[j]@[k] < prefix_product(
                dimensions@,
                dimensions@.len() as int,
            ),
        forall|j: int|
            0 <= j < r@.len() ==> #[trigger] r@[j]@.len() == prefix_product(
                dimensions@,
                dimensions@.len() as int,
            ),
{
    let ghost dims = dimensions@;
    let ghost n = dims.len();
    let ghost cells = prefix_product(dims, n as int);
    let ghost list = itertools_permutations(n);
    proof {
        lemma_grid_products_fit(dims);
        lemma_prefix_product_positive(dims, n as int);
        assert(n + 1 <= isize::MAX) by (nonlinear_arith)
            requires
                (n + 1) * cells <= isize::MAX,
                cells >= 1,
                n >= 0,
        ;
    }
    let mut symmetries = Symmetries::new(dimensions.clone());
    let strides = compute_strides(dimensions);
    let mut permutations: Vec<Vec<usize>> = Vec::new();
    proof {
        assert(symmetries.model() == first_symmetry_state(n));
        assert(index_views(permutations@) + table_entries(dims, symmetries_after(dims, symmetries.model()))
            =~= table_permutations(dims));
    }
    loop
        invariant_except_break
            is_index_permutation(symmetries.model().1, n),
            keeps_dimensions(dims, symmetries.model().1),
            index_views(permutations@) + table_entries(dims, symmetries_after(dims, symmetries.model()))
                == table_permutations(dims),
        invariant
            table_grid_fits(dims),
            dims == dimensions@,
            n == dims.len(),
            list == itertools_permutations(n),
            cells == prefix_product(dims, n as int),
            strides@ == strides_of(dims),
            symmetries.wf(),
            symmetries.dimensions@ == dims,
            symmetries.permutation_list() == list,
            symmetries.permutations@.len() == list.len(),
            forall|j: int, k: int|
                0 <= j < permutations@.len() && 0 <= k < permutations@[j]@.len()
                    ==> #[trigger] permutations@[j]@[k] < cells,
            forall|j: int| 0 <= j < permutations@.len() ==> #[trigger] permutations@[j]@.len() == cells,
        ensures
            index_views(permutations@) == table_permutations(dims),
        decreases list.len() - symmetries.model().2,
            destination_count(symmetries.model().0.len()) - destination_rank(symmetries.model().0),
    {
        let ghost before = symmetries.model();
        proof {
            lemma_symmetry_step(dims, before);
            lemma_destination_rank_bounds(before.0);
            lemma_first_valid_bounds(dims, list, before.2);
        }
        match symmetries.next() {
            None => {
                proof {
                    assert(symmetries_after(dims, before) =~= seq![]);
                    assert(table_entries(dims, symmetries_after(dims, before)) =~= seq![]);
                    assert(index_views(permutations@) =~= table_permutations(dims));
                }
                break ;
            },
            Some(symmetry) => {
                let ghost next = symmetries.model();
                let cells_of = symmetry_cells(
                    dimensions,
                    &strides,
                    &symmetry.destination,
                    &symmetry.permutation,
                );
                let ghost old_views = index_views(permutations@);
                permutations.push(cells_of);
                proof {
                    assert(symmetries_after(dims, before) == seq![(next.0, next.1)]
                        + symmetries_after(dims, next));
                    assert(index_views(permutations@) =~= old_views.push(cells_of@));
                    assert(table_entries(dims, symmetries_after(dims, before)) =~= seq![
                        symmetry_permutation(dims, (next.0, next.1)),
                    ] + table_entries(dims, symmetries_after(dims, next)));
                    assert(index_views(permutations@) + table_entries(
                        dims,
                        symmetries_after(dims, next),
                    ) =~= old_views + table_entries(dims, symmetries_after(dims, before)));
                }
            },
        }
    }
    permutations
}

/// For each permutation, the index of the first one that is its inverse; `None` when one
/// has no inverse among them.
fn inverse_indices(permutations: &Vec<Vec<usize>>) -> (r: Option<Vec<usize>>)
    requires
        forall|a: int, k: int|
            0 <= a < permutations@.len() && 0 <= k < permutations@[a]@.len()
                ==> #[trigger] permutations@[a]@[k] < permutations@[a]@.len(),
    ensures
        r is Some <==> inverses_in(index_views(permutations@)),
        r matches Some(reverses) ==> reverses@.len() == permutations@.len() && forall|j: int|
            0 <= j < reverses@.len() ==> #[trigger] reverses@[j] == inverse_indices_of(
                index_views(permutations@),
            )[j] && reverses@[j] < permutations@.len() && index_views(permutations@)[reverses@[j] as int]
                == inverse_permutation(index_views(permutations@)[j]),
{
    let ghost table = index_views(permutations@);
    let mut reverses: Vec<usize> = Vec::new();
    let mut j: usize = 0;
    while j < permutations.len()
        invariant
            j <= permutations@.len(),
            table == index_views(permutations@),
            table.len() == permutations@.len(),
            reverses@.len() == j,
            forall|a: int, k: int|
                0 <= a < permutations@.len() && 0 <= k < permutations@[a]@.len()
                    ==> #[trigger] permutations@[a]@[k] < permutations@[a]@.len(),
            forall|m: int|
                0 <= m < j ==> #[trigger] reverses@[m] == inverse_indices_of(table)[m]
                    && reverses@[m] < table.len() && table[reverses@[m] as int]
                    == inverse_permutation(table[m]),
        decreases permutations.len() - j,
    {
        assert(table[j as int] == permutations@[j as int]@);
        let reverse = revert_permutation_indices(&permutations[j]);
        let i = index_of(permutations, &reverse);
        proof {
            lemma_first_index_bounds(table, reverse@, 0);
        }
        if i == permutations.len() {
            proof {
                if inverses_in(table) {
                    assert(has_inverse_in(table, j as int));
                    let w = choose|w: int|
                        0 <= w < table.len() && #[trigger] table[w] == inverse_permutation(
                            table[j as int],
                        );
                    lemma_first_index_finds(table, reverse@, 0, w);
                }
            }
            return None;
        }
        reverses.push(i);
        j = j + 1;
    }
    proof {
        lemma_inverses_in(table, reverses@);
    }
    Some(reverses)
}

proof fn lemma_inverses_in(table: Seq<Seq<usize>>, reverses: Seq<usize>)
    requires
        reverses.len() == table.len(),
        forall|m: int|
            0 <= m < table.len() ==> #[trigger] reverses[m] < table.len() && table[reverses[m] as int]
                == inverse_permutation(table[m]),
    ensures
        inverses_in(table),
{
    assert forall|m: int| 0 <= m < table.len() implies #[trigger] has_inverse_in(table, m) by {
        let i = reverses[m] as int;
        assert(0 <= i < table.len() && table[i] == inverse_permutation(table[m]));
    }
}

/// The cell permutations of the symmetries of a grid, and for each the index of its inverse.
#[derive(Debug)]
pub struct SymmetryTable {
    pub permutations: Vec<Vec<usize>>,
    pub reverses: Vec<usize>,
}

impl SymmetryTable {
    /// The table holds the cell permutations of the symmetries of a grid with the given
    /// dimensions, and for each the index of the first permutation that is its inverse.
    pub open spec fn describes(&self, dimensions: Seq<isize>) -> bool {
        let table = table_permutations(dimensions);
        let cells = prefix_product(dimensions, dimensions.len() as int);
        &&& index_views(self.permutations@) == table
        &&& self.reverses@.len() == self.permutations@.len()
        &&& forall|j: int|
            0 <= j < self.reverses@.len() ==> #[trigger] self.reverses@[j] == inverse_indices_of(
                table,
            )[j]
        &&& forall|j: int|
            0 <= j < self.reverses@.len() ==> #[trigger] self.reverses@[j] < self.permutations@.len()
                && self.permutations@[self.reverses@[j] as int]@ == inverse_permutation(
                self.permutations@[j]@,
            )
        &&& forall|j: int, k: int|
            0 <= j < self.permutations@.len() && 0 <= k < self.permutations@[j]@.len()
                ==> #[trigger] self.permutations@[j]@[k] < cells
        &&& forall|j: int| 0 <= j < self.permutations@.len() ==> #[trigger] self.permutations@[j]@.len() == cells
    }

    /// Computes the cell permutations of the symmetries of a grid and the index of each
    /// one's inverse; `None` when some permutation has no inverse among them.
    pub fn try_new(dimensions: &Vec<isize>) -> (r: Option<SymmetryTable>)
        requires
            table_grid_fits(dimensions@),
        ensures
            permutation_list_facts(itertools_permutations(dimensions@.len()), dimensions@.len()),
            r is Some <==> inverses_present(dimensions@),
            r matches Some(t) ==> t.describes(dimensions@),
    {
        let permutations = table_cells(dimensions);
        match inverse_indices(&permutations) {
            Some(reverses) => Some(SymmetryTable { permutations, reverses }),
            None => None,
        }
    }

    /// Computes the cell permutations of the symmetries of a grid and the index of each
    /// one's inverse. Every permutation must have its inverse among them; that holds of
    /// square grids of two axes (`lemma_square_table`) but not of every grid: cells are
    /// listed with the last axis fastest while linear indices take the first axis fastest,
    /// and on a 2 x 3 grid a reflection's inverse is missing. `try_new` answers `None`
    /// there.
    pub fn new(dimensions: &Vec<isize>) -> (r: SymmetryTable)
        requires
            table_grid_fits(dimensions@),
            permutation_list_facts(itertools_permutations(dimensions@.len()), dimensions@.len())
                ==> inverses_present(dimensions@),
        ensures
            r.describes(dimensions@),
            permutation_list_facts(itertools_permutations(dimensions@.len()), dimensions@.len()),
    {
        match SymmetryTable::try_new(dimensions) {
            Some(table) => table,
            None => {
                proof {
                    assert(false);
                }
                SymmetryTable { permutations: Vec::new(), reverses: Vec::new() }
            },
        }
    }
}

/// The index of the first vector of `vectors` equal to `target`, or their number.
fn index_of(vectors: &Vec<Vec<usize>>, target: &Vec<usize>) -> (r: usize)
    ensures
        r == first_index_of(index_views(vectors@), target@, 0),
{
    let ghost table = index_views(vectors@);
    let mut i: usize = 0;
    while i < vectors.len()
        invariant
            i <= vectors@.len(),
            table == index_views(vectors@),
            forall|m: int| 0 <= m < i ==> table[m] != target@,
        decreases vectors.len() - i,
    {
        assert(table[i as int] == vectors@[i as int]@);
        if same_indices(&vectors[i], target) {
            proof {
                lemma_first_index_from(table, target@, 0, i as int);
            }
            return i;
        }
        i = i + 1;
    }
    proof {
        lemma_first_index_missing(table, target@, 0);
    }
    i
}

proof fn lemma_first_index_missing(table: Seq<Seq<usize>>, target: Seq<usize>, from: int)
    requires
        0 <= from <= table.len(),
        forall|m: int| 0 <= m < table.len() ==> table[m] != target,
    ensures
        first_index_of(table, target, from) == table.len(),
    decreases table.len() - from,
{
    if from < table.len() {
        lemma_first_index_missing(table, target, from + 1);
    }
}

proof fn lemma_first_index_finds(table: Seq<Seq<usize>>, target: Seq<usize>, from: int, w: int)
    requires
        0 <= from <= w < table.len(),
        table[w] == target,
    ensures
        first_index_of(table, target, from) <= w,
    decreases w - from,
{
    if from < w && table[from] != target {
        lemma_first_index_finds(table, target, from + 1, w);
    }
}

proof fn lemma_first_index_from(table: Seq<Seq<usize>>, target: Seq<usize>, from: int, i: int)
    requires
        0 <= from <= i < table.len(),
        table[i] == target,
        forall|m: int| from <= m < i ==> table[m] != target,
    ensures
        first_index_of(table, target, from) == i,
    decreases i - from,
{
    if from < i {
        lemma_first_index_from(table, target, from + 1, i);
    }
}

proof fn lemma_first_index_bounds(table: Seq<Seq<usize>>, target: Seq<usize>, from: int)
    requires
        0 <= from <= table.len(),
    ensures
        from <= first_index_of(table, target, from) <= table.len(),
        first_index_of(table, target, from) < table.len() ==> table[first_index_of(
            table,
            target,
            from,
        )] == target,
    decreases table.len() - from,
{
    if from < table.len() && table[from] != target {
        lemma_first_index_bounds(table, target, from + 1);
    }
}

} // verus!
