use crate::rulesets::interface::{PlayError, Player, PlyIteratorTrait, RuleSetTrait, Status};
use crate::rulesets::reversi::plies::Ply;
use crate::rulesets::reversi::ply_iterators::{
    first_playable, lemma_later_events_in_grid, reversi_events, PlyIterator,
};
use crate::rulesets::reversi::state::{cell_count, State};
use crate::rulesets::reversi::variants::BaseVariant;
use crate::utils::bitarray::base::{count_set, indices_to_bits};
use crate::utils::bitarray::BitArray;
use crate::utils::grids::strides::{prefix_product, strides_of};
use crate::utils::grids::strips::indices::Indices;
use crate::utils::grids::cell_runs::lemma_grid_strips_inside;
use crate::utils::grids::directions::{cross, power_of_two};
use crate::utils::grids::strips::iterator::{
    all_strips, axis_plane, grid_strips, lemma_grid_strips_forward, inside_grid, is_strip_of, signed_dimensions, strip_direction,
};
use crate::utils::grids::strips::length::{axis_length, common_axes, lemma_min_axis_length, strip_length};
use crate::utils::grids::symmetries::iterator::{itertools_permutations, permutation_list_facts};
use crate::utils::grids::symmetries::square::{lemma_square_table, square};
use crate::utils::grids::symmetries::table::{table_grid_fits, SymmetryTable};
use crate::utils::vectors::dot_product::{common_len, dot};
use core::marker::PhantomData;
use vstd::prelude::*;

verus! {

/// The grid of a variant: two axes of its grid size.
pub open spec fn board<Variant: BaseVariant>() -> Seq<isize> {
    square(Variant::spec_grid_size() as isize)
}

/// The grid of a variant fits, has `g * g` cells, at most 225, and at least 2 per side.
pub proof fn lemma_board<Variant: BaseVariant>()
    ensures
        table_grid_fits(board::<Variant>()),
        prefix_product(board::<Variant>(), 2) == cell_count::<Variant>(),
        cell_count::<Variant>() == Variant::spec_grid_size() * Variant::spec_grid_size(),
        cell_count::<Variant>() <= 225,
        cell_count::<Variant>() >= 4,
        2 <= Variant::spec_grid_size() <= 15,
        strides_of(board::<Variant>()) == seq![1isize, Variant::spec_grid_size() as isize],
{
    reveal_with_fuel(crate::utils::grids::symmetries::iterator::factorial, 3);
    Variant::lemma_variant();
    let g = Variant::spec_grid_size() as isize;
    reveal_with_fuel(prefix_product, 3);
    assert(prefix_product(square(g), 2) == g * g);
    assert(4 <= g * g <= 225) by (nonlinear_arith)
        requires
            2 <= g <= 15,
    ;
    let n = square(g).len();
    let cells = prefix_product(square(g), n as int);
    assert((n + 1) * cells <= isize::MAX) by (nonlinear_arith)
        requires
            n == 2,
            cells == g * g,
            g * g <= 225,
    ;
    assert(strides_of(square(g)) =~= seq![1isize, g]);
}

/// A strip of the board of a variant: it starts on a cell, moves by a nonzero step of at
/// most one row and one column, and has between 1 and `g` cells.
pub open spec fn board_strip_ok<Variant: BaseVariant>(strip: Indices) -> bool {
    let g = Variant::spec_grid_size();
    &&& 0 <= strip.start < g * g
    &&& strip.step != 0
    &&& -(g + 1) <= strip.step <= g + 1
    &&& 1 <= strip.length <= g
    &&& forall|t: int| 0 <= t < strip.length ==> 0 <= #[trigger] (strip.start + t * strip.step) < g * g
}

/// The strips of the board of a variant are board strips.
proof fn lemma_board_strip<Variant: BaseVariant>(
    strip: Indices,
    direction: Seq<isize>,
    position: Seq<isize>,
)
    requires
        is_strip_of(strip, board::<Variant>(), direction, position),
        inside_grid(board::<Variant>(), position),
        strip_direction(direction),
        direction.len() == 2,
    ensures
        board_strip_ok::<Variant>(strip),
{
    lemma_board::<Variant>();
    let g = Variant::spec_grid_size() as int;
    let dims = board::<Variant>();
    let strides = strides_of(dims);
    reveal_with_fuel(dot, 3);
    assert(common_len(strides, direction) == 2);
    assert(common_len(strides, position) == 2);
    let (d0, d1) = (direction[0] as int, direction[1] as int);
    let (p0, p1) = (position[0] as int, position[1] as int);
    let s0 = strides[0] as int;
    let s1 = strides[1] as int;
    assert(s0 == 1 && s1 == g);
    assert(strip.step == d0 + g * d1) by {
        assert(dot(strides, direction, 2) == s0 * d0 + s1 * d1);
        assert(s0 * d0 + s1 * d1 == d0 + g * d1) by (nonlinear_arith)
            requires
                s0 == 1,
                s1 == g,
        ;
    }
    assert(strip.start == p0 + g * p1) by {
        assert(dot(strides, position, 2) == s0 * p0 + s1 * p1);
        assert(s0 * p0 + s1 * p1 == p0 + g * p1) by (nonlinear_arith)
            requires
                s0 == 1,
                s1 == g,
        ;
    }
    assert(0 <= p0 + g * p1 < g * g) by (nonlinear_arith)
        requires
            0 <= p0 < g,
            0 <= p1 < g,
    {
        assert(g * p1 <= g * (g - 1)) by (nonlinear_arith)
            requires
                0 <= p1 <= g - 1,
                g >= 0,
        ;
    }
    let k = choose|k: int| 0 <= k < direction.len() && #[trigger] direction[k] != 0;
    assert(d0 != 0 || d1 != 0);
    assert(g * d1 == g || g * d1 == -g || g * d1 == 0) by (nonlinear_arith)
        requires
            -1 <= d1 <= 1,
    ;
    assert(d1 != 0 ==> (g * d1 == g || g * d1 == -g)) by (nonlinear_arith)
        requires
            -1 <= d1 <= 1,
    ;
    assert(d1 == 0 ==> g * d1 == 0) by (nonlinear_arith);
    lemma_min_axis_length(dims, direction, position, 2);
    assert(common_axes(dims, direction, position) == 2);
    let m = strip_length(dims, direction, position)->0;
    assert(m == strip.length);
    let i = choose|i: int| 0 <= i < 2 && direction[i] != 0 && m == #[trigger] axis_length(
        dims[i],
        direction[i],
        position[i],
    );
    assert(dims[i] == g);
    assert forall|t: int| 0 <= t < strip.length implies 0 <= #[trigger] (strip.start + t * strip.step)
        < g * g by {
        crate::utils::grids::strips::iterator::lemma_strip_cell_inside(dims, direction, position, t);
    }
}

/// A stone of `grid` on cell `index`; there is none outside the grid.
pub open spec fn stone(grid: Seq<bool>, index: int) -> bool {
    0 <= index < grid.len() && grid[index]
}

/// The scan for a bracketing stone from `position` along `direction`, at its `i`-th step:
/// the cell `i + 1` steps away holds a stone of the player (found), else it must hold one
/// of the opponent for the scan to go on, at most `length` steps.
pub open spec fn bracket_from(
    own: Seq<bool>,
    opponent: Seq<bool>,
    position: int,
    direction: int,
    i: int,
    length: int,
) -> bool
    decreases length - i,
{
    let cell = position + (i + 1) * direction;
    if stone(own, cell) {
        true
    } else if !stone(opponent, cell) {
        false
    } else if i >= length {
        false
    } else {
        bracket_from(own, opponent, position, direction, i + 1, length)
    }
}

/// Placing on `position` brackets stones of the opponent along `direction`: the next cell
/// holds one, and the scan finds a stone of the player behind a line of them.
pub open spec fn brackets(
    own: Seq<bool>,
    opponent: Seq<bool>,
    position: int,
    direction: int,
    length: int,
) -> bool {
    stone(opponent, position + direction) && bracket_from(own, opponent, position, direction, 1, length)
}

/// The last step `m` (from `from` on, at most `length`) up to which every cell `position +
/// m * direction` holds a stone of the opponent; `from - 1` when the first does not.
pub open spec fn run_end(opponent: Seq<bool>, position: int, direction: int, from: int, length: int) -> int
    decreases length - from + 1,
{
    if from > length || !stone(opponent, position + from * direction) {
        from - 1
    } else {
        run_end(opponent, position, direction, from + 1, length)
    }
}

/// The cell `m` steps away from `position` along `direction`.
pub open spec fn step_cell(position: int, direction: int, m: int) -> int {
    position + m * direction
}

/// Cell `index` is one of the first `count` cells from `position` along `direction`.
pub open spec fn in_run(index: int, position: int, direction: int, count: int) -> bool {
    exists|m: int| 1 <= m <= count && index == #[trigger] step_cell(position, direction, m)
}

/// The grids after the stones of the opponent bracketed from `position` along `direction`
/// turn to the player, and whether there were any.
pub open spec fn pegs(
    own: Seq<bool>,
    opponent: Seq<bool>,
    position: int,
    direction: int,
    length: int,
) -> (Seq<bool>, Seq<bool>, bool) {
    if brackets(own, opponent, position, direction, length) {
        let count = run_end(opponent, position, direction, 1, length);
        (
            Seq::new(own.len(), |i: int| own[i] || in_run(i, position, direction, count)),
            Seq::new(opponent.len(), |i: int| opponent[i] && !in_run(i, position, direction, count)),
            true,
        )
    } else {
        (own, opponent, false)
    }
}

/// The reversals that placing on `position` makes along one strip: when the cell lies on
/// the line of the strip, before and after it.
pub open spec fn strip_pegs(
    own: Seq<bool>,
    opponent: Seq<bool>,
    position: int,
    strip: Indices,
) -> (Seq<bool>, Seq<bool>, bool) {
    if strip.start > position || (position - strip.start) % (strip.step as int) != 0 {
        (own, opponent, false)
    } else {
        let distance = (position - strip.start) / (strip.step as int);
        if distance >= strip.length {
            (own, opponent, false)
        } else {
            let before = if distance > 1 {
                pegs(own, opponent, position, -strip.step, distance)
            } else {
                (own, opponent, false)
            };
            let after = if strip.length - distance > 1 {
                pegs(before.0, before.1, position, strip.step as int, strip.length - distance)
            } else {
                (before.0, before.1, false)
            };
            (after.0, after.1, before.2 || after.2)
        }
    }
}

/// The reversals that placing on `position` makes along the first `count` strips, one
/// strip after the other, and whether any was made.
pub open spec fn all_pegs(
    own: Seq<bool>,
    opponent: Seq<bool>,
    position: int,
    strips: Seq<Indices>,
    count: int,
) -> (Seq<bool>, Seq<bool>, bool)
    decreases count,
{
    if count <= 0 {
        (own, opponent, false)
    } else {
        let previous = all_pegs(own, opponent, position, strips, count - 1);
        let current = strip_pegs(previous.0, previous.1, position, strips[count - 1]);
        (current.0, current.1, previous.2 || current.2)
    }
}

/// Reversals along the first `count` strips that find nothing leave the grids unchanged.
proof fn lemma_all_pegs_unchanged(
    own: Seq<bool>,
    opponent: Seq<bool>,
    position: int,
    strips: Seq<Indices>,
    count: int,
)
    ensures
        !all_pegs(own, opponent, position, strips, count).2 ==> all_pegs(
            own,
            opponent,
            position,
            strips,
            count,
        ).0 == own && all_pegs(own, opponent, position, strips, count).1 == opponent,
    decreases count,
{
    if count > 0 {
        lemma_all_pegs_unchanged(own, opponent, position, strips, count - 1);
    }
}

/// A strip that makes reversals from the grids as they are makes the placement reverse
/// stones, whatever the strips before it do.
pub proof fn lemma_all_pegs_found(
    own: Seq<bool>,
    opponent: Seq<bool>,
    position: int,
    strips: Seq<Indices>,
    count: int,
    s: int,
)
    requires
        0 <= s < count,
        strip_pegs(own, opponent, position, strips[s]).2,
    ensures
        all_pegs(own, opponent, position, strips, count).2,
    decreases count,
{
    let previous = all_pegs(own, opponent, position, strips, count - 1);
    if !previous.2 {
        if s < count - 1 {
            lemma_all_pegs_found(own, opponent, position, strips, count - 1, s);
        } else {
            lemma_all_pegs_unchanged(own, opponent, position, strips, count - 1);
        }
    }
}

/// The scan from step `i` finds the stone of the player on step `e` when every step in
/// between holds a stone of the opponent.
proof fn lemma_bracket_from_reaches(
    own: Seq<bool>,
    opponent: Seq<bool>,
    position: int,
    direction: int,
    i: int,
    length: int,
    e: int,
)
    requires
        1 <= i < e <= length + 1,
        stone(own, step_cell(position, direction, e)),
        forall|m: int| i < m < e ==> stone(opponent, #[trigger] step_cell(position, direction, m)),
    ensures
        bracket_from(own, opponent, position, direction, i, length),
    decreases e - i,
{
    assert(position + (i + 1) * direction == step_cell(position, direction, i + 1));
    if i + 1 < e && !stone(own, step_cell(position, direction, i + 1)) {
        assert(stone(opponent, step_cell(position, direction, i + 1)));
        lemma_bracket_from_reaches(own, opponent, position, direction, i + 1, length, e);
    }
}

/// Placing on cell `a` of a strip that runs forward makes reversals along it when the
/// cells strictly between `a` and `b`, within the strip, hold stones of the opponent and
/// cell `b` one of the player.
pub proof fn lemma_strip_pegs_bracket(own: Seq<bool>, opponent: Seq<bool>, strip: Indices, a: int, b: int)
    requires
        strip.step > 0,
        0 <= a < strip.length,
        0 <= b < strip.length,
        b >= a + 2 || a >= b + 2,
        stone(own, strip.start + b * strip.step),
        forall|t: int| (a < t < b || b < t < a) ==> stone(opponent, #[trigger] (strip.start + t * strip.step)),
    ensures
        strip_pegs(own, opponent, strip.start + a * strip.step, strip).2,
{
    let step = strip.step as int;
    let start = strip.start as int;
    let position = start + a * step;
    assert((a * step) % step == 0 && (a * step) / step == a) by {
        vstd::arithmetic::div_mod::lemma_mod_multiples_basic(a, step);
        vstd::arithmetic::div_mod::lemma_div_multiples_vanish(a, step);
        assert(a * step == step * a) by (nonlinear_arith);
    }
    assert(position - start == a * step);
    assert(start <= position) by (nonlinear_arith)
        requires
            position == start + a * step,
            a >= 0,
            step > 0,
    ;
    let before = if a > 1 {
        pegs(own, opponent, position, -step, a)
    } else {
        (own, opponent, false)
    };
    if b > a {
        if !before.2 {
            let e = b - a;
            assert(stone(own, step_cell(position, step, e))) by {
                assert(step_cell(position, step, e) == start + b * step) by (nonlinear_arith)
                    requires
                        position == start + a * step,
                        e == b - a,
                ;
            }
            assert forall|m: int| 1 <= m < e implies stone(opponent, #[trigger] step_cell(position, step, m)) by {
                assert(step_cell(position, step, m) == start + (a + m) * step) by (nonlinear_arith)
                    requires
                        position == start + a * step,
                ;
                assert(a < a + m < b);
            }
            assert(stone(opponent, position + step)) by {
                assert(step_cell(position, step, 1) == position + step);
            }
            lemma_bracket_from_reaches(own, opponent, position, step, 1, strip.length - a, e);
        }
    } else {
        let e = a - b;
        let back = -step;
        assert(stone(own, step_cell(position, back, e))) by {
            assert(step_cell(position, back, e) == start + b * step) by (nonlinear_arith)
                requires
                    position == start + a * step,
                    e == a - b,
                    back == -step,
            ;
        }
        assert forall|m: int| 1 <= m < e implies stone(opponent, #[trigger] step_cell(position, back, m)) by {
            assert(step_cell(position, back, m) == start + (a - m) * step) by (nonlinear_arith)
                requires
                    position == start + a * step,
                    back == -step,
            ;
            assert(b < a - m < a);
        }
        assert(stone(opponent, position + back)) by {
            assert(step_cell(position, back, 1) == position + back);
        }
        lemma_bracket_from_reaches(own, opponent, position, back, 1, a, e);
    }
}

/// The stones of both players and the player to move.
pub open spec fn position_of<Variant: BaseVariant>(state: State<Variant>) -> (Seq<bool>, Seq<bool>, u8) {
    (state.stones(0), state.stones(1), state.current_player)
}

/// The stones of both players and the player to move after a placement on `index` that
/// reverses stones: the stones of the player to move are `own` plus the placed one, those
/// of the opponent `opponent`, and the other player moves next.
pub open spec fn placed(current_player: u8, own: Seq<bool>, opponent: Seq<bool>, index: int) -> (
    Seq<bool>,
    Seq<bool>,
    u8,
) {
    if current_player == 0 {
        (own.update(index, true), opponent, 1u8)
    } else {
        (opponent, own.update(index, true), 0u8)
    }
}

/// The rules of reversi: the strips of its grid, and the symmetries of its grid.
pub struct Reversi<Variant: BaseVariant> {
    pub variant: PhantomData<Variant>,
    pub strips: Vec<Indices>,
    pub symmetries: SymmetryTable,
}

/// A stone of either player lies on cell `index`.
pub open spec fn occupied<Variant: BaseVariant>(state: State<Variant>, index: int) -> bool {
    state.stones(0)[index] || state.stones(1)[index]
}

impl<Variant: BaseVariant> Reversi<Variant> {
    /// The stones of the player to move and of the opponent after the reversals that a
    /// placement on `index` makes along every strip, and whether it makes any.
    pub open spec fn reversals(&self, state: State<Variant>, index: int) -> (Seq<bool>, Seq<bool>, bool) {
        all_pegs(own_stones(state), opponent_stones(state), index, self.strips@, self.strips@.len() as int)
    }

    /// The strips are those of the grid, in order, and the symmetry table is that of the
    /// grid.
    pub open spec fn valid(&self) -> bool {
        let dims = board::<Variant>();
        &&& self.strips@.len() == grid_strips(dims).len()
        &&& forall|k: int|
            0 <= k < self.strips@.len() ==> #[trigger] is_strip_of(
                self.strips@[k],
                dims,
                grid_strips(dims)[k].0,
                grid_strips(dims)[k].1,
            ) && board_strip_ok::<Variant>(self.strips@[k])
        &&& self.symmetries.describes(dims)
        &&& permutation_list_facts(itertools_permutations(2), 2)
    }

    /// The rules of a variant.
    #[verifier::spinoff_prover]
    pub fn new() -> (r: Reversi<Variant>)
        ensures
            r.valid(),
    {
        proof {
            lemma_board::<Variant>();
        }
        let size = Variant::grid_size();
        let g = size as isize;
        let dimensions: Vec<isize> = vec![g, g];
        proof {
            assert(dimensions@ =~= square(g));
            lemma_square_table(g);
        }
        let symmetries = SymmetryTable::new(&dimensions);
        let sizes: Vec<usize> = vec![size, size];
        let ghost sizes_view = sizes@;
        proof {
            reveal_with_fuel(crate::utils::grids::directions::power_of_two, 3);
            assert(signed_dimensions(sizes@) =~= square(g));
        }
        let strips = all_strips(sizes);
        proof {
            let dims = board::<Variant>();
            let n = dims.len();
            assert forall|k: int| 0 <= k < n implies #[trigger] dims[k] >= 2 by {}
            crate::utils::grids::cell_runs::lemma_grid_strips_inside(dims);
            assert forall|k: int| 0 <= k < strips@.len() implies #[trigger] is_strip_of(
                strips@[k],
                dims,
                grid_strips(dims)[k].0,
                grid_strips(dims)[k].1,
            ) && board_strip_ok::<Variant>(strips@[k]) by {
                let s = grid_strips(dims)[k];
                let signed = signed_dimensions(sizes_view);
                assert(signed == dims);
                assert(is_strip_of(strips@[k], signed, grid_strips(signed)[k].0, grid_strips(signed)[k].1));
                assert(is_strip_of(strips@[k], dims, s.0, s.1));
                lemma_board_strip::<Variant>(strips@[k], s.0, s.1);
            }
        }
        proof {
            assert(symmetries.describes(board::<Variant>()));
            assert(permutation_list_facts(itertools_permutations(2), 2));
            assert(strips@.len() == grid_strips(board::<Variant>()).len());
        }
        let r = Reversi { variant: PhantomData, strips, symmetries };
        assert(r.strips@ == strips@);
        r
    }

    /// Number of symmetries of the grid.
    pub fn grid_symmetry_count(&self) -> (r: usize)
        requires
            self.valid(),
        ensures
            r == self.symmetries.permutations@.len(),
            r == 8,
    {
        proof {
            lemma_board::<Variant>();
            lemma_square_table(Variant::spec_grid_size() as isize);
        }
        self.symmetries.permutations.len()
    }
}

/// Cells at different steps along a nonzero direction differ.
proof fn lemma_steps_distinct(position: int, direction: int, a: int, b: int)
    requires
        direction != 0,
        a != b,
    ensures
        step_cell(position, direction, a) != step_cell(position, direction, b),
{
    assert(a * direction != b * direction) by (nonlinear_arith)
        requires
            direction != 0,
            a != b,
    ;
}

/// A run of `m` cells is the run of `m - 1` cells and the `m`-th one.
proof fn lemma_in_run_step(index: int, position: int, direction: int, m: int)
    requires
        m >= 1,
    ensures
        in_run(index, position, direction, m) == (in_run(index, position, direction, m - 1)
            || index == step_cell(position, direction, m)),
{
    if in_run(index, position, direction, m) {
        let w = choose|w: int| 1 <= w <= m && index == #[trigger] step_cell(position, direction, w);
        if w < m {
            assert(in_run(index, position, direction, m - 1));
        }
    }
    if in_run(index, position, direction, m - 1) {
        let w = choose|w: int| 1 <= w <= m - 1 && index == #[trigger] step_cell(position, direction, w);
        assert(in_run(index, position, direction, m));
    }
    if index == step_cell(position, direction, m) {
        assert(in_run(index, position, direction, m));
    }
}

/// Cells farther along than a run are not in it.
proof fn lemma_beyond_run(position: int, direction: int, count: int, m: int)
    requires
        direction != 0,
        m > count,
    ensures
        !in_run(step_cell(position, direction, m), position, direction, count),
{
    if in_run(step_cell(position, direction, m), position, direction, count) {
        let w = choose|w: int|
            1 <= w <= count && step_cell(position, direction, m) == #[trigger] step_cell(
                position,
                direction,
                w,
            );
        lemma_steps_distinct(position, direction, w, m);
    }
}

/// The next cell along a direction is one step further.
proof fn lemma_next_cell(position: int, direction: int, m: int)
    ensures
        step_cell(position, direction, m + 1) == step_cell(position, direction, m) + direction,
{
    assert((m + 1) * direction == m * direction + direction) by (nonlinear_arith);
}

/// Up to 300 steps of at most 16 from a cell stay well within an `isize`.
proof fn lemma_step_bound(position: int, direction: int, m: int)
    requires
        0 <= position < 256,
        -16 <= direction <= 16,
        0 <= m <= 300,
    ensures
        -5000 <= step_cell(position, direction, m) <= 5300,
{
    assert(-4800 <= m * direction <= 4800) by (nonlinear_arith)
        requires
            -16 <= direction <= 16,
            0 <= m <= 300,
    ;
}

/// Dividing a nonnegative number by a negative one divides it by the magnitude and negates
/// the quotient; the remainder is that of the magnitude.
proof fn lemma_signed_division(offset: int, step: int)
    requires
        offset >= 0,
        step != 0,
    ensures
        step < 0 ==> offset % step == offset % (-step) && offset / step == -(offset / (-step)),
        step > 0 ==> offset % step == offset % step && offset / step == offset / step,
{
    if step < 0 {
        let s = -step;
        let q = offset / s;
        let r = offset % s;
        assert(offset == s * q + r && 0 <= r < s) by (nonlinear_arith)
            requires
                s > 0,
                q == offset / s,
                r == offset % s,
        ;
        assert(offset == step * (-q) + r) by (nonlinear_arith)
            requires
                offset == s * q + r,
                step == -s,
        ;
        assert(offset / step == -q && offset % step == r) by (nonlinear_arith)
            requires
                offset == step * (-q) + r,
                0 <= r < -step,
                step < 0,
        ;
    }
}

/// Whether `grid` holds a stone on cell `index`; `false` outside the grid.
fn stone_at<Settings: crate::utils::bitarray::BitArraySettings>(grid: &BitArray<Settings>, index: isize) -> (r: bool)
    ensures
        r == stone(grid@, index as int),
{
    proof {
        grid.lemma_len();
    }
    if 0 <= index && (index as usize) < Settings::size() {
        grid.isset(index as usize)
    } else {
        false
    }
}

/// The stones of the player to move.
pub open spec fn own_stones<Variant: BaseVariant>(state: State<Variant>) -> Seq<bool> {
    state.stones(state.current_player as int)
}

/// The stones of the opponent of the player to move.
pub open spec fn opponent_stones<Variant: BaseVariant>(state: State<Variant>) -> Seq<bool> {
    state.stones(1 - state.current_player)
}

impl<Variant: BaseVariant> Reversi<Variant> {
    /// Turns to the player to move the stones of the opponent that placing on `start`
    /// brackets along `direction` (scanning at most `length` steps), and tells whether
    /// there were any. The scan reads the cells that follow `start` along `direction`,
    /// wherever they lie; a cell outside the grid holds no stone.
    fn reverse_pegs(
        &self,
        state: &mut State<Variant>,
        start: isize,
        direction: isize,
        length: isize,
    ) -> (r: bool)
        requires
            old(state).player_ok(),
            0 <= start < cell_count::<Variant>(),
            direction != 0,
            -16 <= direction <= 16,
            1 <= length <= 256,
        ensures
            final(state).current_player == old(state).current_player,
            (own_stones(*final(state)), opponent_stones(*final(state)), r) == pegs(
                own_stones(*old(state)),
                opponent_stones(*old(state)),
                start as int,
                direction as int,
                length as int,
            ),
    {
        proof {
            lemma_board::<Variant>();
            state.grids[0].lemma_len();
            state.grids[1].lemma_len();
        }
        let ghost p = start as int;
        let ghost d = direction as int;
        let ghost len = length as int;
        let current_player = state.current_player as usize;
        let opponent = 1 - current_player;
        let mut own = state.grids[current_player];
        let mut opp = state.grids[opponent];
        let ghost own0 = own@;
        let ghost opp0 = opp@;
        proof {
            lemma_step_bound(p, d, 1);
        }
        let first = start + direction;
        if !stone_at(&opp, first) {
            return false;
        }
        let mut current = first;
        let mut remaining = length;
        let ghost mut j: int = 1;
        loop
            invariant_except_break
                1 <= j <= len,
                current == step_cell(p, d, j),
                remaining == len - j + 1,
                bracket_from(own0, opp0, p, d, 1, len) == bracket_from(own0, opp0, p, d, j, len),
            invariant
                own@ == own0,
                opp@ == opp0,
                *state == *old(state),
                own0 == own_stones(*old(state)),
                opp0 == opponent_stones(*old(state)),
                p == start as int,
                d == direction as int,
                len == length as int,
                0 <= p < 256,
                -16 <= d <= 16,
                d != 0,
                1 <= len <= 256,
            ensures
                bracket_from(own0, opp0, p, d, 1, len),
            decreases remaining,
        {
            let ghost jj = j;
            proof {
                lemma_step_bound(p, d, jj + 1);
                lemma_next_cell(p, d, jj);
            }
            current = current + direction;
            if stone_at(&own, current) {
                break ;
            } else if !stone_at(&opp, current) {
                return false;
            }
            remaining = remaining - 1;
            if remaining == 0 {
                return false;
            }
            proof {
                j = jj + 1;
            }
        }
        proof {
            assert(brackets(own0, opp0, p, d, len));
        }
        let ghost count = run_end(opp0, p, d, 1, len);
        current = first;
        remaining = length;
        let ghost mut m: int = 1;
        loop
            invariant_except_break
                1 <= m <= len,
                current == step_cell(p, d, m),
                remaining == len - m + 1,
                own@ == Seq::new(own0.len(), |i: int| own0[i] || in_run(i, p, d, m - 1)),
                opp@ == Seq::new(opp0.len(), |i: int| opp0[i] && !in_run(i, p, d, m - 1)),
                count == run_end(opp0, p, d, m, len),
            invariant
                own@.len() == own0.len(),
                opp@.len() == opp0.len(),
                own0.len() == cell_count::<Variant>(),
                opp0.len() == cell_count::<Variant>(),
                p == start as int,
                d == direction as int,
                len == length as int,
                0 <= p < 256,
                -16 <= d <= 16,
                d != 0,
                1 <= len <= 256,
            ensures
                own@ == Seq::new(own0.len(), |i: int| own0[i] || in_run(i, p, d, count)),
                opp@ == Seq::new(opp0.len(), |i: int| opp0[i] && !in_run(i, p, d, count)),
            decreases remaining,
        {
            let ghost mm = m;
            proof {
                lemma_step_bound(p, d, mm);
                lemma_step_bound(p, d, mm + 1);
                lemma_beyond_run(p, d, mm - 1, mm);
                if 0 <= current < opp0.len() {
                    assert(opp@[current as int] == opp0[current as int]);
                }
            }
            if !stone_at(&opp, current) {
                proof {
                    assert(count == mm - 1);
                }
                break ;
            }
            opp.unset(current as usize);
            own.set(current as usize);
            proof {
                assert forall|i: int| 0 <= i < own0.len() implies #[trigger] own@[i] == (own0[i]
                    || in_run(i, p, d, mm)) by {
                    lemma_in_run_step(i, p, d, mm);
                }
                assert forall|i: int| 0 <= i < opp0.len() implies #[trigger] opp@[i] == (opp0[i]
                    && !in_run(i, p, d, mm)) by {
                    lemma_in_run_step(i, p, d, mm);
                }
                assert(own@ =~= Seq::new(own0.len(), |i: int| own0[i] || in_run(i, p, d, mm)));
                assert(opp@ =~= Seq::new(opp0.len(), |i: int| opp0[i] && !in_run(i, p, d, mm)));
            }
            remaining = remaining - 1;
            if remaining == 0 {
                proof {
                    assert(run_end(opp0, p, d, mm + 1, len) == mm);
                }
                break ;
            }
            proof {
                lemma_next_cell(p, d, mm);
                m = mm + 1;
            }
            current = current + direction;
        }
        if current_player == 0 {
            state.grids = [own, opp];
        } else {
            state.grids = [opp, own];
        }
        true
    }
}

impl<Variant: BaseVariant> Reversi<Variant> {
    /// The state after the player to move places a stone on cell `index`: an error when the
    /// cell is occupied, or when the placement reverses no stone; otherwise the stones
    /// bracketed along each strip through the cell turn, the stone is placed and the other
    /// player moves next.
    pub fn place(&self, state: &State<Variant>, index: usize) -> (r: Result<State<Variant>, PlayError>)
        requires
            self.valid(),
            state.player_ok(),
            index < cell_count::<Variant>(),
        ensures
            occupied(*state, index as int) ==> (r matches Err(e) && e.message == "Cell is occupied"
                && e.field == "index"),
            !occupied(*state, index as int) && !self.reversals(*state, index as int).2 ==> (r matches Err(
                e,
            ) && e.message == "No reversal resulting from the peg placement" && e.field == "index"),
            !occupied(*state, index as int) && self.reversals(*state, index as int).2 ==> (r matches Ok(
                s,
            ) && position_of(s) == placed(
                state.current_player,
                self.reversals(*state, index as int).0,
                self.reversals(*state, index as int).1,
                index as int,
            )),
    {
        proof {
            lemma_board::<Variant>();
            state.grids[0].lemma_len();
            state.grids[1].lemma_len();
        }
        if state.grids[0].isset(index) || state.grids[1].isset(index) {
            return Err(PlayError { message: "Cell is occupied", field: "index" });
        }
        let ghost own0 = own_stones(*state);
        let ghost opp0 = opponent_stones(*state);
        let ghost p = index as int;
        let mut result = *state;
        let mut found_update = false;
        let position = index as isize;
        let mut k: usize = 0;
        while k < self.strips.len()
            invariant
                k <= self.strips@.len(),
                self.valid(),
                result.current_player == state.current_player,
                result.player_ok(),
                p == position as int,
                0 <= p < cell_count::<Variant>(),
                cell_count::<Variant>() <= 225,
                Variant::spec_grid_size() <= 15,
                (own_stones(result), opponent_stones(result), found_update) == all_pegs(
                    own0,
                    opp0,
                    p,
                    self.strips@,
                    k as int,
                ),
            decreases self.strips.len() - k,
        {
            let strip = self.strips[k];
            proof {
                let dims = board::<Variant>();
                assert(is_strip_of(
                    self.strips@[k as int],
                    dims,
                    grid_strips(dims)[k as int].0,
                    grid_strips(dims)[k as int].1,
                ));
                assert(board_strip_ok::<Variant>(self.strips@[k as int]));
            }
            let ghost before = (own_stones(result), opponent_stones(result));
            if strip.start <= position {
                let offset = (position - strip.start) as usize;
                let magnitude = if strip.step < 0 {
                    (-strip.step) as usize
                } else {
                    strip.step as usize
                };
                let quotient = (offset / magnitude) as isize;
                proof {
                    lemma_signed_division(offset as int, strip.step as int);
                    assert(quotient <= 225) by (nonlinear_arith)
                        requires
                            quotient == offset as int / magnitude as int,
                            offset <= 225,
                            magnitude >= 1,
                    ;
                }
                if offset % magnitude == 0 {
                    let distance = if strip.step < 0 {
                        -quotient
                    } else {
                        quotient
                    };
                    if distance < strip.length {
                        let ghost after_first = if distance > 1 {
                            pegs(before.0, before.1, p, -strip.step, distance as int)
                        } else {
                            (before.0, before.1, false)
                        };
                        if distance > 1 {
                            if self.reverse_pegs(&mut result, position, -strip.step, distance) {
                                found_update = true;
                            }
                        }
                        assert((own_stones(result), opponent_stones(result)) == (
                            after_first.0,
                            after_first.1,
                        ));
                        if strip.length - distance > 1 {
                            if self.reverse_pegs(
                                &mut result,
                                position,
                                strip.step,
                                strip.length - distance,
                            ) {
                                found_update = true;
                            }
                        }
                    }
                }
            }
            k = k + 1;
        }
        if !found_update {
            return Err(PlayError { message: "No reversal resulting from the peg placement", field: "index" });
        }
        proof {
            result.grids[0].lemma_len();
            result.grids[1].lemma_len();
        }
        if result.current_player == 0 {
            let mut grid = result.grids[0];
            grid.set(index);
            result.grids = [grid, result.grids[1]];
            result.current_player = 1;
        } else {
            let mut grid = result.grids[1];
            grid.set(index);
            result.grids = [result.grids[0], grid];
            result.current_player = 0;
        }
        Ok(result)
    }
}

/// The status of a reversi position: the game goes on while the player to move has a
/// candidate ply; then the player with more stones wins, and equal counts draw.
pub open spec fn reversi_status(
    first: Seq<bool>,
    second: Seq<bool>,
    strips: Seq<Indices>,
    player: Player,
) -> Status {
    let events = reversi_events(first, second, strips);
    if exists|k: int| 0 <= k < events.len() && #[trigger] events[k].0 == player {
        Status::Ongoing
    } else if count_set(first) < count_set(second) {
        Status::Win { player: 1 }
    } else if count_set(first) == count_set(second) {
        Status::Draw
    } else {
        Status::Win { player: 0 }
    }
}

/// With no cell yielded yet, the search for a playable candidate finds one exactly when
/// some candidate from `from` on belongs to the player.
proof fn lemma_first_playable_unseen(
    events: Seq<(Player, usize)>,
    player: Player,
    seen: Seq<bool>,
    from: int,
)
    requires
        0 <= from,
        forall|k: int| 0 <= k < events.len() ==> !seen[#[trigger] events[k].1 as int],
    ensures
        first_playable(events, player, seen, from) < events.len() <==> exists|k: int|
            from <= k < events.len() && #[trigger] events[k].0 == player,
    decreases events.len() - from,
{
    if from < events.len() {
        lemma_first_playable_unseen(events, player, seen, from + 1);
        assert(!seen[events[from].1 as int]);
        if exists|k: int| from <= k < events.len() && #[trigger] events[k].0 == player {
            let k = choose|k: int| from <= k < events.len() && #[trigger] events[k].0 == player;
            if k > from {
                assert(exists|j: int| from + 1 <= j < events.len() && #[trigger] events[j].0 == player);
            }
        }
    }
}

impl<Variant: BaseVariant> Reversi<Variant> {
    /// Every strip of the rule set is a strip of the board.
    pub proof fn lemma_strips_on_board(&self)
        requires
            self.valid(),
        ensures
            forall|k: int| 0 <= k < self.strips@.len() ==> #[trigger] board_strip_ok::<Variant>(self.strips@[k]),
    {
        let dims = board::<Variant>();
        assert forall|k: int| 0 <= k < self.strips@.len() implies #[trigger] board_strip_ok::<Variant>(
            self.strips@[k],
        ) by {
            assert(is_strip_of(self.strips@[k], dims, grid_strips(dims)[k].0, grid_strips(dims)[k].1));
        }
    }

    /// Every strip of the rule set runs forward through the cells: its step is positive.
    pub proof fn lemma_strip_steps_positive(&self)
        requires
            self.valid(),
        ensures
            forall|k: int| 0 <= k < self.strips@.len() ==> #[trigger] self.strips@[k].step > 0,
    {
        let dims = board::<Variant>();
        lemma_board::<Variant>();
        let g = Variant::spec_grid_size() as int;
        assert forall|k: int| 0 <= k < dims.len() implies #[trigger] dims[k] >= 2 by {}
        lemma_grid_strips_inside(dims);
        lemma_grid_strips_forward(dims);
        reveal_with_fuel(power_of_two, 2);
        reveal_with_fuel(dot, 3);
        let strides = strides_of(dims);
        let plane = axis_plane(2);
        assert(plane[0] == 1 && plane[1] == 2);
        assert forall|k: int| 0 <= k < self.strips@.len() implies #[trigger] self.strips@[k].step > 0 by {
            let direction = grid_strips(dims)[k].0;
            assert(is_strip_of(self.strips@[k], dims, direction, grid_strips(dims)[k].1));
            assert(strip_direction(direction) && direction.len() == 2);
            let (d0, d1) = (direction[0] as int, direction[1] as int);
            assert(-1 <= d0 <= 1 && -1 <= d1 <= 1) by {
                assert(-1 <= direction[0] <= 1);
                assert(-1 <= direction[1] <= 1);
            }
            assert(cross(direction, plane) == d0 * 1 + d1 * 2);
            assert(cross(direction, plane) > 0);
            assert(dot(strides, direction, 2) == 1 * d0 + g * d1);
            assert(self.strips@[k].step == d0 + g * d1);
            assert(d0 + g * d1 > 0) by (nonlinear_arith)
                requires
                    -1 <= d0 <= 1,
                    -1 <= d1 <= 1,
                    d0 + 2 * d1 > 0,
                    g >= 2,
            ;
        }
    }

    /// Once the game is over, the player who owns more stones wins, and equal counts draw,
    /// whichever player is to move.
    pub proof fn lemma_finished_status(&self, state: State<Variant>)
        requires
            self.valid(),
            state.player_ok(),
            !(self.status_of(state) is Ongoing),
        ensures
            (self.status_of(state) == (Status::Win { player: 0 })) <==> count_set(state.stones(0))
                > count_set(state.stones(1)),
            (self.status_of(state) == (Status::Win { player: 1 })) <==> count_set(state.stones(1))
                > count_set(state.stones(0)),
            (self.status_of(state) == Status::Draw) <==> count_set(state.stones(0)) == count_set(
                state.stones(1),
            ),
    {
    }

    /// Two finished positions with the same stones have the same status, whoever is to move.
    pub proof fn lemma_finished_status_ignores_mover(&self, state: State<Variant>, other: State<Variant>)
        requires
            self.valid(),
            state.player_ok(),
            other.player_ok(),
            state.stones(0) == other.stones(0),
            state.stones(1) == other.stones(1),
            !(self.status_of(state) is Ongoing),
            !(self.status_of(other) is Ongoing),
        ensures
            self.status_of(state) == self.status_of(other),
    {
        self.lemma_finished_status(state);
        self.lemma_finished_status(other);
    }
}

impl<Variant: BaseVariant> RuleSetTrait for Reversi<Variant> {
    type State = State<Variant>;
    type Ply = Ply<Variant>;

    open spec fn wf(&self) -> bool {
        self.valid()
    }

    open spec fn state_ok(&self, state: State<Variant>) -> bool {
        state.player_ok()
    }

    open spec fn ply_ok(&self, ply: Ply<Variant>) -> bool {
        match ply {
            Ply::Place(index) => index < cell_count::<Variant>(),
            Ply::Pass => true,
            Ply::Unused(_) => false,
        }
    }

    open spec fn plays_to(&self, state: State<Variant>, ply: Ply<Variant>, result: Result<State<Variant>, PlayError>) -> bool {
        match ply {
            Ply::Place(index) => {
                let reversed = self.reversals(state, index as int);
                &&& occupied(state, index as int) ==> (result matches Err(e) && e.message
                    == "Cell is occupied" && e.field == "index")
                &&& !occupied(state, index as int) && !reversed.2 ==> (result matches Err(e)
                    && e.message == "No reversal resulting from the peg placement" && e.field
                    == "index")
                &&& !occupied(state, index as int) && reversed.2 ==> (result matches Ok(s)
                    && position_of(s) == placed(
                    state.current_player,
                    reversed.0,
                    reversed.1,
                    index as int,
                ))
            },
            Ply::Pass => result matches Ok(s) && s == state,
            Ply::Unused(_) => true,
        }
    }

    open spec fn status_of(&self, state: State<Variant>) -> Status {
        reversi_status(state.stones(0), state.stones(1), self.strips@, state.current_player)
    }

    fn accepts(&self, ply: &Ply<Variant>) -> (r: bool) {
        proof {
            lemma_board::<Variant>();
        }
        match ply {
            Ply::Place(index) => *index < Variant::grid_size() * Variant::grid_size(),
            Ply::Pass => true,
            Ply::Unused(_) => false,
        }
    }

    /// The starting position of the variant, player 0 to move.
    fn initial_state(&self) -> (r: State<Variant>)
        ensures
            r.stones(0) == indices_to_bits(cell_count::<Variant>(), Variant::spec_player_positions(0)),
            r.stones(1) == indices_to_bits(cell_count::<Variant>(), Variant::spec_player_positions(1)),
            r.current_player == 0,
    {
        State::new()
    }

    /// A placement as `place` makes it; a pass leaves the state as it is.
    fn play(&self, state: &State<Variant>, ply: &Ply<Variant>) -> (r: Result<State<Variant>, PlayError>)
    {
        match ply {
            Ply::Place(index) => self.place(state, *index),
            Ply::Pass => Ok(*state),
            Ply::Unused(_) => {
                proof {
                    assert(false);
                }
                Ok(*state)
            },
        }
    }

    /// Ongoing while the player to move has a ply; else the player with more stones wins.
    fn status(&self, state: &State<Variant>) -> (r: Status)
    {
        let mut iterator: PlyIterator<Variant> = PlyIterator::new(self, state);
        let ghost events = reversi_events(state.stones(0), state.stones(1), self.strips@);
        proof {
            self.lemma_strips_on_board();
            lemma_later_events_in_grid::<Variant>(state.stones(0), state.stones(1), self.strips@, 0);
            assert forall|k: int| 0 <= k < events.len() implies !iterator.seen@[#[trigger] events[k].1 as int] by {
                assert(events[k].1 < cell_count::<Variant>());
            }
            lemma_first_playable_unseen(events, state.current_player, iterator.seen@, 0);
        }
        match iterator.iterate(self, state) {
            Some(_) => Status::Ongoing,
            None => {
                let first = state.grids[0].count_ones();
                let second = state.grids[1].count_ones();
                if first < second {
                    Status::Win { player: 1 }
                } else if first == second {
                    Status::Draw
                } else {
                    Status::Win { player: 0 }
                }
            },
        }
    }
}

/// Reversals only turn stones of the opponent into stones of the player: the player keeps
/// every stone, the opponent gains none, and every cell that held a stone still holds one.
pub open spec fn only_turns(own: Seq<bool>, opponent: Seq<bool>, own2: Seq<bool>, opponent2: Seq<bool>) -> bool {
    &&& own2.len() == own.len()
    &&& opponent2.len() == opponent.len()
    &&& forall|i: int| 0 <= i < own.len() && #[trigger] own[i] ==> own2[i]
    &&& forall|i: int| 0 <= i < opponent.len() && #[trigger] opponent2[i] ==> opponent[i]
    &&& forall|i: int|
        0 <= i < own.len() && i < opponent.len() ==> (#[trigger] own2[i] || opponent2[i]) == (own[i]
            || opponent[i])
}

/// The cells of the run that a bracket scan measures hold stones of the opponent.
proof fn lemma_run_cells(opponent: Seq<bool>, position: int, direction: int, from: int, length: int)
    ensures
        forall|m: int|
            from <= m <= run_end(opponent, position, direction, from, length) ==> stone(
                opponent,
                #[trigger] step_cell(position, direction, m),
            ),
    decreases length - from + 1,
{
    if !(from > length || !stone(opponent, position + from * direction)) {
        lemma_run_cells(opponent, position, direction, from + 1, length);
    }
}

/// Reversals along one direction only turn stones of the opponent.
proof fn lemma_pegs_turn(own: Seq<bool>, opponent: Seq<bool>, position: int, direction: int, length: int)
    requires
        own.len() == opponent.len(),
    ensures
        only_turns(
            own,
            opponent,
            pegs(own, opponent, position, direction, length).0,
            pegs(own, opponent, position, direction, length).1,
        ),
{
    if brackets(own, opponent, position, direction, length) {
        let count = run_end(opponent, position, direction, 1, length);
        lemma_run_cells(opponent, position, direction, 1, length);
        let r = pegs(own, opponent, position, direction, length);
        assert forall|i: int| 0 <= i < own.len() && i < opponent.len() implies (#[trigger] r.0[i]
            || r.1[i]) == (own[i] || opponent[i]) by {
            if in_run(i, position, direction, count) {
                let m = choose|m: int| 1 <= m <= count && i == #[trigger] step_cell(position, direction, m);
                assert(stone(opponent, step_cell(position, direction, m)));
            }
        }
    }
}

/// Turning stones twice only turns stones.
proof fn lemma_only_turns_chain(
    own: Seq<bool>,
    opponent: Seq<bool>,
    own2: Seq<bool>,
    opponent2: Seq<bool>,
    own3: Seq<bool>,
    opponent3: Seq<bool>,
)
    requires
        own.len() == opponent.len(),
        only_turns(own, opponent, own2, opponent2),
        only_turns(own2, opponent2, own3, opponent3),
    ensures
        only_turns(own, opponent, own3, opponent3),
{
    assert forall|i: int| 0 <= i < own.len() && i < opponent.len() implies (#[trigger] own3[i]
        || opponent3[i]) == (own[i] || opponent[i]) by {
        assert((own2[i] || opponent2[i]) == (own[i] || opponent[i]));
    }
    assert forall|i: int| 0 <= i < own.len() && #[trigger] own[i] implies own3[i] by {
        assert(own2[i]);
    }
    assert forall|i: int| 0 <= i < opponent.len() && #[trigger] opponent3[i] implies opponent[i] by {
        assert(opponent2[i]);
    }
}

/// The reversals along the first `count` strips only turn stones of the opponent.
proof fn lemma_all_pegs_turn(
    own: Seq<bool>,
    opponent: Seq<bool>,
    position: int,
    strips: Seq<Indices>,
    count: int,
)
    requires
        own.len() == opponent.len(),
    ensures
        only_turns(
            own,
            opponent,
            all_pegs(own, opponent, position, strips, count).0,
            all_pegs(own, opponent, position, strips, count).1,
        ),
    decreases count,
{
    if count > 0 {
        lemma_all_pegs_turn(own, opponent, position, strips, count - 1);
        let previous = all_pegs(own, opponent, position, strips, count - 1);
        let strip = strips[count - 1];
        if !(strip.start > position || (position - strip.start) % (strip.step as int) != 0) {
            let distance = (position - strip.start) / (strip.step as int);
            if distance < strip.length {
                let before = if distance > 1 {
                    pegs(previous.0, previous.1, position, -strip.step, distance)
                } else {
                    (previous.0, previous.1, false)
                };
                if distance > 1 {
                    lemma_pegs_turn(previous.0, previous.1, position, -strip.step, distance);
                }
                if strip.length - distance > 1 {
                    lemma_pegs_turn(before.0, before.1, position, strip.step as int, strip.length - distance);
                    lemma_only_turns_chain(
                        previous.0,
                        previous.1,
                        before.0,
                        before.1,
                        strip_pegs(previous.0, previous.1, position, strip).0,
                        strip_pegs(previous.0, previous.1, position, strip).1,
                    );
                }
            }
        }
        let current = strip_pegs(previous.0, previous.1, position, strip);
        lemma_only_turns_chain(own, opponent, previous.0, previous.1, current.0, current.1);
    } else {
        assert(only_turns(own, opponent, own, opponent));
    }
}

/// A placement only turns stones of the opponent: the player to move keeps all its
/// stones, the opponent gains none, every cell that held a stone still holds one, and the
/// placed stone lies on the chosen cell.
pub proof fn lemma_placement_turns_stones<Variant: BaseVariant>(
    ruleset: Reversi<Variant>,
    state: State<Variant>,
    index: int,
)
    requires
        state.player_ok(),
    ensures
        only_turns(
            own_stones(state),
            opponent_stones(state),
            ruleset.reversals(state, index).0,
            ruleset.reversals(state, index).1,
        ),
{
    state.grids[0].lemma_len();
    state.grids[1].lemma_len();
    lemma_all_pegs_turn(
        own_stones(state),
        opponent_stones(state),
        index,
        ruleset.strips@,
        ruleset.strips@.len() as int,
    );
}

} // verus!
