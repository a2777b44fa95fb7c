use crate::utils::grids::symmetries::iterator::{first_false, first_valid_permutation, is_index_permutation, itertools_permutations, keeps_dimensions, next_destination, permutation_list_facts, symmetries_after, symmetry_step, SymmetryModel};
use crate::utils::grids::positions::{lemma_position_count, lemma_positions_after, position_before_first, position_rank, positions_after};
use crate::utils::grids::strides::{prefix_product, strides_of};
use crate::utils::grids::symmetries::conversion::{converted_position, scattered};
use crate::utils::grids::symmetries::table::{first_symmetry_state, grid_index, grid_symmetries, has_inverse_in, image_index, image_indices, inverse_permutation, inverses_present, is_cell_permutation, lemma_before_first_rank, lemma_inverse_permutation, table_entries, table_grid_fits, table_permutations};
use crate::utils::vectors::dot_product::{common_len, dot};
use vstd::prelude::*;

verus! {

// The symmetries of a square grid of two axes, worked out by hand: the eight ways to
// reflect and transpose it. They show that every cell permutation of such a grid has its
// inverse among them.

/// The dimensions of a square grid of two axes.
pub open spec fn square(g: isize) -> Seq<isize> {
    seq![g, g]
}

/// The identity permutation of two axes.
pub open spec fn straight() -> Seq<isize> {
    seq![0isize, 1isize]
}

/// The permutation that exchanges two axes.
pub open spec fn crossed() -> Seq<isize> {
    seq![1isize, 0isize]
}

/// The four destinations of two axes, in the order in which they are counted.
pub open spec fn destinations_of_two() -> Seq<Seq<bool>> {
    seq![seq![false, false], seq![true, false], seq![false, true], seq![true, true]]
}

/// The symmetries of a square grid when the permutations of its axes come in the given
/// order: each permutation with the four destinations.
pub open spec fn square_symmetries(list: Seq<Seq<isize>>) -> Seq<(Seq<bool>, Seq<isize>)> {
    Seq::new(8, |j: int| (destinations_of_two()[j % 4], list[j / 4]))
}

/// The permutations of two axes are the identity and the exchange, each once.
proof fn lemma_two_permutations(list: Seq<Seq<isize>>)
    requires
        permutation_list_facts(list, 2),
    ensures
        list.len() == 2,
        (list[0] == straight() && list[1] == crossed()) || (list[0] == crossed() && list[1]
            == straight()),
{
    assert(is_index_permutation(straight(), 2));
    assert(is_index_permutation(crossed(), 2));
    assert(list.contains(straight()));
    assert(list.contains(crossed()));
    let a = choose|i: int| 0 <= i < list.len() && list[i] == straight();
    let b = choose|i: int| 0 <= i < list.len() && list[i] == crossed();
    assert(a != b) by {
        assert(straight()[0] != crossed()[0]);
    }
    assert forall|k: int| 0 <= k < list.len() implies #[trigger] list[k] == straight() || list[k]
        == crossed() by {
        assert(is_index_permutation(list[k], 2));
        if list[k][0] == 0 {
            assert(list[k] =~= straight());
        } else {
            assert(list[k] =~= crossed());
        }
    }
    if list.len() > 2 {
        let k: int = if a != 0 && b != 0 {
            0
        } else if a != 1 && b != 1 {
            1
        } else {
            2
        };
        assert(list[k] == straight() || list[k] == crossed());
        if list[k] == straight() {
            if k < a {
                assert(list[k] != list[a]);
            } else {
                assert(list[a] != list[k]);
            }
        } else {
            if k < b {
                assert(list[k] != list[b]);
            } else {
                assert(list[b] != list[k]);
            }
        }
    }
}

proof fn lemma_step(
    dims: Seq<isize>,
    state: SymmetryModel,
    next: SymmetryModel,
)
    requires
        0 <= state.2 <= itertools_permutations(dims.len()).len(),
        symmetry_step(dims, state) == (next, true),
    ensures
        symmetries_after(dims, state) == seq![(next.0, next.1)] + symmetries_after(dims, next),
{
    crate::utils::grids::symmetries::iterator::lemma_symmetry_step(dims, state);
    let (n2, found) = symmetry_step(dims, state);
    assert(n2 == next);
    assert(found);
}

/// Every permutation of two axes keeps the dimensions of a square grid.
proof fn lemma_square_keeps(g: isize, p: Seq<isize>)
    requires
        is_index_permutation(p, 2),
    ensures
        keeps_dimensions(square(g), p),
{
}

/// The symmetries of a square grid of two axes.
pub proof fn lemma_square_symmetries(g: isize)
    ensures
        permutation_list_facts(itertools_permutations(2), 2) ==> grid_symmetries(square(g))
            == square_symmetries(itertools_permutations(2)),
{
    let list = itertools_permutations(2);
    if permutation_list_facts(list, 2) {
        let dims = square(g);
        lemma_two_permutations(list);
        lemma_square_keeps(g, list[0]);
        lemma_square_keeps(g, list[1]);
        let ff = seq![false, false];
        let tf = seq![true, false];
        let ft = seq![false, true];
        let tt = seq![true, true];
        assert(first_false(ff, 0) == 0);
        assert(tf[0] && !tf[1] && tf.len() == 2);
        assert(first_false(tf, 1) == 1);
        assert(first_false(tf, 0) == 1);
        assert(first_false(ft, 0) == 0);
        reveal_with_fuel(first_false, 3);
        assert(first_false(tt, 0) == 2);
        assert(next_destination(ff) =~= tf);
        assert(next_destination(tf) =~= ft);
        assert(next_destination(ft) =~= tt);
        assert(first_valid_permutation(dims, list, 0) == 0);
        assert(first_valid_permutation(dims, list, 1) == 1);
        assert(first_valid_permutation(dims, list, 2) == 2);
        let s0 = first_symmetry_state(2);
        assert(s0.0 =~= tt);
        assert(Seq::new(2, |k: int| false) =~= ff);
        let s1 = (ff, list[0], 1int);
        let s2 = (tf, list[0], 1int);
        let s3 = (ft, list[0], 1int);
        let s4 = (tt, list[0], 1int);
        let s5 = (ff, list[1], 2int);
        let s6 = (tf, list[1], 2int);
        let s7 = (ft, list[1], 2int);
        let s8 = (tt, list[1], 2int);
        assert(symmetry_step(dims, s0) == (s1, true));
        assert(symmetry_step(dims, s1) == (s2, true));
        assert(symmetry_step(dims, s2) == (s3, true));
        assert(symmetry_step(dims, s3) == (s4, true));
        assert(symmetry_step(dims, s4) == (s5, true));
        assert(symmetry_step(dims, s5) == (s6, true));
        assert(symmetry_step(dims, s6) == (s7, true));
        assert(symmetry_step(dims, s7) == (s8, true));
        assert(!symmetry_step(dims, s8).1);
        assert(symmetries_after(dims, s8) =~= seq![]);
        lemma_step(dims, s7, s8);
        lemma_step(dims, s6, s7);
        lemma_step(dims, s5, s6);
        lemma_step(dims, s4, s5);
        lemma_step(dims, s3, s4);
        lemma_step(dims, s2, s3);
        lemma_step(dims, s1, s2);
        lemma_step(dims, s0, s1);
        assert(grid_symmetries(dims) =~= square_symmetries(list));
    }
}

/// The positions of a square grid of two axes in row-major order.
pub open spec fn square_positions(g: isize) -> Seq<Seq<isize>> {
    positions_after(position_before_first(square(g)), square(g))
}

/// A position of a square grid of two axes.
pub open spec fn in_square(g: isize, p: Seq<isize>) -> bool {
    &&& p.len() == 2
    &&& 0 <= p[0] < g
    &&& 0 <= p[1] < g
}

/// The row-major rank of a position of a square grid of two axes.
pub open spec fn square_rank(g: isize, p: Seq<isize>) -> int {
    p[0] * g + p[1]
}

/// A position with its two coordinates exchanged.
pub open spec fn transposed(p: Seq<isize>) -> Seq<isize> {
    seq![p[1], p[0]]
}

/// The `k`-th position of a square grid has rank `k`, and there are `g * g` of them.
proof fn lemma_square_positions(g: isize)
    requires
        g >= 1,
    ensures
        square_positions(g).len() == g * g,
        forall|k: int|
            0 <= k < g * g ==> in_square(g, #[trigger] square_positions(g)[k]) && square_rank(
                g,
                square_positions(g)[k],
            ) == k,
{
    let dims = square(g);
    lemma_before_first_rank(dims);
    lemma_positions_after(position_before_first(dims), dims);
    lemma_position_count(dims);
    reveal_with_fuel(prefix_product, 3);
    assert(prefix_product(dims, 2) == g * g);
    reveal_with_fuel(crate::utils::grids::counting::radix_value, 3);
    reveal_with_fuel(crate::utils::grids::counting::radix_weight, 3);
    assert forall|k: int| 0 <= k < g * g implies in_square(g, #[trigger] square_positions(g)[k])
        && square_rank(g, square_positions(g)[k]) == k by {
        let q = square_positions(g)[k];
        assert(position_rank(q, dims) == k);
        assert(position_rank(q, dims) == q[1] + q[0] * g);
    }
}

/// Two positions of a square grid with the same rank are equal.
proof fn lemma_square_rank_unique(g: isize, p: Seq<isize>, q: Seq<isize>)
    requires
        g >= 1,
        in_square(g, p),
        in_square(g, q),
        square_rank(g, p) == square_rank(g, q),
    ensures
        p == q,
{
    let (a, b, c, d) = (p[0] as int, p[1] as int, q[0] as int, q[1] as int);
    assert(a == c && b == d) by (nonlinear_arith)
        requires
            a * g + b == c * g + d,
            0 <= b < g,
            0 <= d < g,
            g >= 1,
    {
        if a < c {
            assert(a * g + g <= c * g) by (nonlinear_arith)
                requires
                    a < c,
                    g >= 1,
            ;
        } else if a > c {
            assert(c * g + g <= a * g) by (nonlinear_arith)
                requires
                    c < a,
                    g >= 1,
            ;
        }
    }
    assert(p =~= q);
}

/// The position of a square grid at the rank of a position is that position.
proof fn lemma_square_position_at(g: isize, p: Seq<isize>)
    requires
        g >= 1,
        in_square(g, p),
    ensures
        0 <= square_rank(g, p) < g * g,
        square_positions(g)[square_rank(g, p)] == p,
{
    lemma_square_positions(g);
    let (a, b) = (p[0] as int, p[1] as int);
    assert(0 <= a * g + b < g * g) by (nonlinear_arith)
        requires
            0 <= a < g,
            0 <= b < g,
    {
        assert(a * g <= (g - 1) * g) by (nonlinear_arith)
            requires
                0 <= a <= g - 1,
                g >= 1,
        ;
    }
    let k = square_rank(g, p);
    lemma_square_rank_unique(g, square_positions(g)[k], p);
}

/// The linear index of a position of a square grid is the rank of its transpose.
proof fn lemma_square_index(g: isize, c: Seq<isize>)
    requires
        g >= 1,
        in_square(g, c),
    ensures
        grid_index(square(g), c) == square_rank(g, transposed(c)),
{
    let dims = square(g);
    reveal_with_fuel(prefix_product, 3);
    assert(strides_of(dims)[0] == 1);
    assert(prefix_product(dims, 0) == 1);
    assert(prefix_product(dims, 1) == prefix_product(dims, 0) * g);
    assert(strides_of(dims)[1] == g);
    assert(common_len(c, strides_of(dims)) == 2);
    reveal_with_fuel(dot, 3);
    assert(dot(c, strides_of(dims), 2) == c[0] * 1 + c[1] * g);
}

/// The symmetry that undoes another one, once positions are read transposed.
pub open spec fn undo(symmetry: (Seq<bool>, Seq<isize>)) -> (Seq<bool>, Seq<isize>) {
    if symmetry.1 == straight() {
        (seq![symmetry.0[1], symmetry.0[0]], straight())
    } else {
        symmetry
    }
}

/// The image of a position within a square grid is within it.
proof fn lemma_square_image(g: isize, d: Seq<bool>, pi: Seq<isize>, p: Seq<isize>)
    requires
        g >= 1,
        d.len() == 2,
        pi == straight() || pi == crossed(),
        in_square(g, p),
    ensures
        in_square(g, converted_position(square(g), p, d, pi)),
{
    reveal_with_fuel(scattered, 3);
}

/// Applying a symmetry, transposing, applying its undoing symmetry and transposing again
/// gives back the position.
proof fn lemma_undo_cancels(g: isize, d: Seq<bool>, pi: Seq<isize>, p: Seq<isize>)
    requires
        g >= 1,
        d.len() == 2,
        pi == straight() || pi == crossed(),
        in_square(g, p),
    ensures
        transposed(
            converted_position(
                square(g),
                transposed(converted_position(square(g), p, d, pi)),
                undo((d, pi)).0,
                undo((d, pi)).1,
            ),
        ) == p,
{
    reveal_with_fuel(scattered, 3);
    let c = transposed(converted_position(square(g), p, d, pi));
    let u = undo((d, pi));
    assert(transposed(converted_position(square(g), c, u.0, u.1)) =~= p);
}

/// Two sequences that undo each other are inverse cell permutations.
proof fn lemma_inverse_is(p: Seq<usize>, q: Seq<usize>)
    requires
        p.len() == q.len(),
        p.len() <= usize::MAX,
        forall|k: int| 0 <= k < p.len() ==> #[trigger] p[k] < p.len(),
        forall|k: int| 0 <= k < q.len() ==> #[trigger] q[k] < q.len(),
        forall|k: int| 0 <= k < p.len() ==> #[trigger] q[p[k] as int] == k,
        forall|k: int| 0 <= k < q.len() ==> #[trigger] p[q[k] as int] == k,
    ensures
        is_cell_permutation(p),
        inverse_permutation(p) == q,
{
    assert forall|a: int, b: int|
        0 <= a < p.len() && 0 <= b < p.len() && a != b implies #[trigger] p[a] != #[trigger] p[b] by {
        assert(q[p[a] as int] == a);
        assert(q[p[b] as int] == b);
    }
    lemma_inverse_permutation(p);
    assert forall|v: int| 0 <= v < p.len() implies #[trigger] inverse_permutation(p)[v] == q[v] by {
        let k = q[v] as int;
        assert(p[k] == v);
        assert(inverse_permutation(p)[p[k] as int] == k);
    }
    assert(inverse_permutation(p) =~= q);
}

/// A symmetry of a square grid sends the `k`-th position to a position whose rank is its
/// linear index, and the undoing symmetry brings that position back to rank `k`.
proof fn lemma_cancel(g: isize, s: (Seq<bool>, Seq<isize>), k: int)
    requires
        table_grid_fits(square(g)),
        s.0.len() == 2,
        s.1 == straight() || s.1 == crossed(),
        0 <= k < g * g,
    ensures
        0 <= image_index(square(g), s.0, s.1, square_positions(g)[k]) < g * g,
        image_index(
            square(g),
            undo(s).0,
            undo(s).1,
            square_positions(g)[image_index(square(g), s.0, s.1, square_positions(g)[k]) as int],
        ) == k,
{
    let dims = square(g);
    assert(g >= 1 && dims[0] >= 1);
    lemma_square_positions(g);
    let p = square_positions(g)[k];
    let c = converted_position(dims, p, s.0, s.1);
    lemma_square_image(g, s.0, s.1, p);
    lemma_square_index(g, c);
    assert(in_square(g, transposed(c)));
    lemma_square_position_at(g, transposed(c));
    let m = square_rank(g, transposed(c));
    reveal_with_fuel(prefix_product, 3);
    assert(g * g <= isize::MAX) by (nonlinear_arith)
        requires
            3 * (g * g) <= isize::MAX,
            g >= 1,
    ;
    assert(image_index(dims, s.0, s.1, p) as int == m);
    let u = undo(s);
    lemma_square_image(g, u.0, u.1, transposed(c));
    let c2 = converted_position(dims, transposed(c), u.0, u.1);
    lemma_square_index(g, c2);
    lemma_undo_cancels(g, s.0, s.1, p);
    assert(transposed(c2) == p);
    assert(image_index(dims, u.0, u.1, transposed(c)) as int == square_rank(g, p));
}

/// Undoing the undoing symmetry gives the symmetry back.
proof fn lemma_undo_undo(s: (Seq<bool>, Seq<isize>))
    requires
        s.0.len() == 2,
        s.1 == straight() || s.1 == crossed(),
    ensures
        undo(undo(s)) == s,
        undo(s).0.len() == 2,
        undo(s).1 == straight() || undo(s).1 == crossed(),
{
    if s.1 == straight() {
        assert(undo(undo(s)).0 =~= s.0);
    } else {
        assert(straight()[0] != crossed()[0]);
    }
}

/// The undoing symmetry of each symmetry of a square grid is among them.
proof fn lemma_undo_among(list: Seq<Seq<isize>>, j: int) -> (i: int)
    requires
        list.len() == 2,
        list[0] == straight() || list[0] == crossed(),
        list[1] == straight() || list[1] == crossed(),
        0 <= j < 8,
    ensures
        0 <= i < 8,
        square_symmetries(list)[i] == undo(square_symmetries(list)[j]),
{
    let syms = square_symmetries(list);
    let a = j % 4;
    let c = j / 4;
    if list[c] == straight() {
        let b: int = if a == 1 {
            2
        } else if a == 2 {
            1
        } else {
            a
        };
        let i = c * 4 + b;
        assert(i / 4 == c && i % 4 == b);
        assert(syms[i].0 =~= undo(syms[j]).0);
        i
    } else {
        assert(straight()[0] != crossed()[0]);
        j
    }
}

/// Every cell permutation of the symmetries of a square grid of two axes is a permutation
/// of its cells, and its inverse is among them.
pub proof fn lemma_square_table(g: isize)
    requires
        table_grid_fits(square(g)),
    ensures
        permutation_list_facts(itertools_permutations(2), 2) ==> inverses_present(square(g)),
        permutation_list_facts(itertools_permutations(2), 2) ==> table_permutations(square(g)).len()
            == 8,
        permutation_list_facts(itertools_permutations(2), 2) ==> forall|j: int|
            0 <= j < table_permutations(square(g)).len() ==> is_cell_permutation(
                #[trigger] table_permutations(square(g))[j],
            ),
{
    let list = itertools_permutations(2);
    if permutation_list_facts(list, 2) {
        let dims = square(g);
        let all = square_positions(g);
        assert(g >= 1 && dims[0] >= 1);
        reveal_with_fuel(prefix_product, 3);
        lemma_square_positions(g);
        lemma_two_permutations(list);
        lemma_square_symmetries(g);
        let syms = square_symmetries(list);
        let table = table_permutations(dims);
        assert(table == table_entries(dims, syms));
        assert forall|j: int| 0 <= j < table.len() implies #[trigger] has_inverse_in(table, j)
            && is_cell_permutation(table[j]) by {
            let s = syms[j];
            let i = lemma_undo_among(list, j);
            let u = syms[i];
            lemma_undo_undo(s);
            let p = table[j];
            let q = table[i];
            assert(p == image_indices(dims, s.0, s.1, all));
            assert(q == image_indices(dims, u.0, u.1, all));
            assert(p.len() == g * g);
            assert(g * g <= isize::MAX) by (nonlinear_arith)
                requires
                    3 * (g * g) <= isize::MAX,
                    g >= 1,
            ;
            assert forall|k: int| 0 <= k < p.len() implies #[trigger] p[k] < p.len() && q[p[k] as int] == k by {
                lemma_cancel(g, s, k);
            }
            assert forall|k: int| 0 <= k < q.len() implies #[trigger] q[k] < q.len() && p[q[k] as int] == k by {
                lemma_cancel(g, u, k);
            }
            lemma_inverse_is(p, q);
        }
        assert forall|j: int| 0 <= j < table.len() implies is_cell_permutation(#[trigger] table[j]) by {
            assert(has_inverse_in(table, j));
        }
    }
}

} // verus!
