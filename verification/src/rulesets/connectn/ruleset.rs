use crate::rulesets::connectn::permutation::Permutation;
use crate::rulesets::connectn::plies::Ply;
use crate::rulesets::connectn::state::{cell_count, play_at, State};
use crate::rulesets::connectn::variants::BaseVariant;
use crate::rulesets::interface::{Permutable, PlayError, RuleSetTrait, Status};
use crate::utils::bitarray::base::{indices_to_bits, mask_comparison, permuted_bits};
use crate::utils::bitarray::{BitArray, BitArraySettings, MaskComparison};
use crate::utils::grids::cell_runs::{all_runs, grid_runs};
use crate::utils::grids::run_windows::{
    lemma_every_run_is_a_window, lemma_every_window_is_a_run, lemma_strip_cells_len, lemma_window_inside,
    window_along,
};
use crate::utils::grids::cell_runs::strip_cells;
use crate::utils::grids::strips::iterator::grid_strips;
use crate::utils::grids::strips::length::strip_length;
use crate::utils::grids::strips::iterator::signed_dimensions;
use crate::utils::grids::strides::prefix_product;
use crate::utils::grids::symmetries::iterator::{itertools_permutations, permutation_list_facts};
use crate::utils::grids::symmetries::square::{lemma_square_table, square};
use crate::utils::grids::symmetries::table::{
    index_views, inverse_permutation, is_cell_permutation, lemma_inverse_permutation,
    table_permutations, SymmetryTable,
};
use vstd::prelude::*;

verus! {

/// The grid of a variant: two axes of its grid size.
pub open spec fn board<Variant: BaseVariant>() -> Seq<isize> {
    square(Variant::spec_grid_size() as isize)
}

/// The runs of cells that win a variant, in the order in which the grid enumerates them.
pub open spec fn board_runs<Variant: BaseVariant>() -> Seq<Seq<usize>> {
    grid_runs(board::<Variant>(), Variant::spec_run_count() as int)
}

/// The grid of a variant fits, and has `g * g` cells, at most 225.
pub proof fn lemma_board<Variant: BaseVariant>()
    ensures
        crate::utils::grids::symmetries::table::table_grid_fits(board::<Variant>()),
        prefix_product(board::<Variant>(), 2) == cell_count::<Variant>(),
        cell_count::<Variant>() == Variant::spec_grid_size() * Variant::spec_grid_size(),
        cell_count::<Variant>() <= 225,
        2 <= Variant::spec_grid_size() <= 15,
{
    reveal_with_fuel(crate::utils::grids::symmetries::iterator::factorial, 3);
    Variant::lemma_variant();
    let g = Variant::spec_grid_size() as isize;
    reveal_with_fuel(prefix_product, 3);
    assert(prefix_product(square(g), 2) == g * g);
    assert(g * g <= 225) by (nonlinear_arith)
        requires
            0 <= g <= 15,
    ;
    let n = square(g).len();
    let cells = prefix_product(square(g), n as int);
    assert(n == 2);
    assert((n + 1) * cells <= isize::MAX) by (nonlinear_arith)
        requires
            n == 2,
            cells == g * g,
            g * g <= 225,
    ;
}

/// `grid` holds every cell of `strip`.
pub open spec fn covers(grid: Seq<bool>, strip: Seq<bool>) -> bool {
    mask_comparison(grid, strip) == MaskComparison::Equal
}

/// `grid` holds no cell of `strip`.
pub open spec fn misses(grid: Seq<bool>, strip: Seq<bool>) -> bool {
    mask_comparison(grid, strip) == MaskComparison::Zero
}

/// The first strip at or after `i` that one of the grids covers, or the number of strips.
pub open spec fn first_covered(
    first: Seq<bool>,
    second: Seq<bool>,
    strips: Seq<Seq<bool>>,
    i: int,
) -> int
    decreases strips.len() - i,
{
    if i >= strips.len() {
        strips.len() as int
    } else if covers(first, strips[i]) || covers(second, strips[i]) {
        i
    } else {
        first_covered(first, second, strips, i + 1)
    }
}

/// The status of a connect game: the first strip (in order) that a player covers wins it
/// for that player, player 0 first; otherwise the game goes on while some strip misses
/// one of the players entirely, and is drawn when every strip holds stones of both.
pub open spec fn connect_status(first: Seq<bool>, second: Seq<bool>, strips: Seq<Seq<bool>>) -> Status {
    let i = first_covered(first, second, strips, 0);
    if i < strips.len() {
        if covers(first, strips[i]) {
            Status::Win { player: 0 }
        } else {
            Status::Win { player: 1 }
        }
    } else if exists|j: int|
        0 <= j < strips.len() && (misses(first, #[trigger] strips[j]) || misses(second, strips[j])) {
        Status::Ongoing
    } else {
        Status::Draw
    }
}

proof fn lemma_first_covered_at_most(first: Seq<bool>, second: Seq<bool>, strips: Seq<Seq<bool>>, i: int, w: int)
    requires
        0 <= i <= w < strips.len(),
        covers(first, strips[w]) || covers(second, strips[w]),
    ensures
        i <= first_covered(first, second, strips, i) <= w,
    decreases w - i,
{
    if i < w && !(covers(first, strips[i]) || covers(second, strips[i])) {
        lemma_first_covered_at_most(first, second, strips, i + 1, w);
    }
}

/// `grid` holds a stone on every cell of `window`.
pub open spec fn holds_window(grid: Seq<bool>, window: Seq<usize>) -> bool {
    forall|j: int| 0 <= j < window.len() ==> #[trigger] grid[window[j] as int]
}

/// `grid` holds every cell of a run of the variant's run count of consecutive cells along a
/// row, column or diagonal of its board: cells `t` on of strip `k`.
pub open spec fn holds_run<Variant: BaseVariant>(grid: Seq<bool>) -> bool {
    let dims = board::<Variant>();
    let size = Variant::spec_run_count() as int;
    exists|k: int, t: int|
        0 <= k < grid_strips(dims).len() && 0 <= t && t + size <= strip_length(
            dims,
            grid_strips(dims)[k].0,
            grid_strips(dims)[k].1,
        )->0 && holds_window(
            grid,
            #[trigger] window_along(dims, grid_strips(dims)[k].0, grid_strips(dims)[k].1, t, size),
        )
}

/// A player whose stones (`grid`) hold a run of the variant has decided the game: with
/// strips that are the variant's winning runs, the status is a win.
pub proof fn lemma_covered_run_wins<Variant: BaseVariant>(
    first: Seq<bool>,
    second: Seq<bool>,
    strips: Seq<Seq<bool>>,
    grid: Seq<bool>,
)
    requires
        strips.len() == board_runs::<Variant>().len(),
        forall|i: int|
            0 <= i < strips.len() ==> #[trigger] strips[i] == indices_to_bits(
                cell_count::<Variant>(),
                board_runs::<Variant>()[i],
            ),
        grid == first || grid == second,
        holds_run::<Variant>(grid),
    ensures
        connect_status(first, second, strips) is Win,
{
    let dims = board::<Variant>();
    let size = Variant::spec_run_count() as int;
    let (k, t) = choose|k: int, t: int|
        0 <= k < grid_strips(dims).len() && 0 <= t && t + size <= strip_length(
            dims,
            grid_strips(dims)[k].0,
            grid_strips(dims)[k].1,
        )->0 && holds_window(
            grid,
            #[trigger] window_along(dims, grid_strips(dims)[k].0, grid_strips(dims)[k].1, t, size),
        );
    let window = window_along(dims, grid_strips(dims)[k].0, grid_strips(dims)[k].1, t, size);
    lemma_every_window_is_a_run(dims, size, k, t);
    let w = choose|w: int| 0 <= w < board_runs::<Variant>().len() && board_runs::<Variant>()[w] == window;
    let mask = strips[w];
    assert(mask == indices_to_bits(cell_count::<Variant>(), window));
    lemma_board::<Variant>();
    assert forall|c: int| 0 <= c < mask.len() && #[trigger] mask[c] implies grid[c] by {
        assert(window.contains(c as usize));
        let j = choose|j: int| 0 <= j < window.len() && window[j] == c as usize;
        assert(window[j] as int == c);
        assert(grid[window[j] as int]);
    }
    assert(covers(grid, mask));
    lemma_first_covered_at_most(first, second, strips, 0, w);
}

proof fn lemma_first_covered_covers(first: Seq<bool>, second: Seq<bool>, strips: Seq<Seq<bool>>, i: int)
    requires
        0 <= i,
    ensures
        first_covered(first, second, strips, i) < strips.len() ==> i <= first_covered(
            first,
            second,
            strips,
            i,
        ) && (covers(first, strips[first_covered(first, second, strips, i)]) || covers(
            second,
            strips[first_covered(first, second, strips, i)],
        )),
    decreases strips.len() - i,
{
    if i < strips.len() && !(covers(first, strips[i]) || covers(second, strips[i])) {
        lemma_first_covered_covers(first, second, strips, i + 1);
    }
}

/// A win goes to a player whose stones hold a run of the variant: with strips that are the
/// variant's winning runs, a status `Win { player: 0 }` means that `first` holds one, and
/// `Win { player: 1 }` that `second` does.
pub proof fn lemma_win_holds_run<Variant: BaseVariant>(
    first: Seq<bool>,
    second: Seq<bool>,
    strips: Seq<Seq<bool>>,
)
    requires
        strips.len() == board_runs::<Variant>().len(),
        forall|i: int|
            0 <= i < strips.len() ==> #[trigger] strips[i] == indices_to_bits(
                cell_count::<Variant>(),
                board_runs::<Variant>()[i],
            ),
    ensures
        (connect_status(first, second, strips) == (Status::Win { player: 0 })) ==> holds_run::<Variant>(
            first,
        ),
        (connect_status(first, second, strips) == (Status::Win { player: 1 })) ==> holds_run::<Variant>(
            second,
        ),
{
    let dims = board::<Variant>();
    let size = Variant::spec_run_count() as int;
    let i = first_covered(first, second, strips, 0);
    lemma_first_covered_covers(first, second, strips, 0);
    if i < strips.len() {
        let grid = if covers(first, strips[i]) {
            first
        } else {
            second
        };
        assert(covers(grid, strips[i]));
        lemma_every_run_is_a_window(dims, size, i);
        let (k, t) = choose|k: int, t: int|
            0 <= k < grid_strips(dims).len() && 0 <= t && t + size <= strip_cells(
                dims,
                grid_strips(dims)[k].0,
                grid_strips(dims)[k].1,
            ).len() && grid_runs(dims, size)[i] == #[trigger] window_along(
                dims,
                grid_strips(dims)[k].0,
                grid_strips(dims)[k].1,
                t,
                size,
            );
        let window = window_along(dims, grid_strips(dims)[k].0, grid_strips(dims)[k].1, t, size);
        lemma_board::<Variant>();
        assert forall|a: int| 0 <= a < dims.len() implies #[trigger] dims[a] >= 2 by {}
        lemma_strip_cells_len(dims, k);
        assert(strips[i] == indices_to_bits(cell_count::<Variant>(), window));
        assert forall|j: int| 0 <= j < window.len() implies #[trigger] grid[window[j] as int] by {
            lemma_window_inside(dims, k, t, size, j);
            let c = window[j] as int;
            assert(window.contains(c as usize));
            assert(strips[i][c]);
        }
        assert(holds_window(grid, window));
    }
}

/// `grid` holds no stone on any cell of `window`.
pub open spec fn misses_window(grid: Seq<bool>, window: Seq<usize>) -> bool {
    forall|j: int| 0 <= j < window.len() ==> !#[trigger] grid[window[j] as int]
}

/// Some run of the variant's run count of consecutive cells along a row, column or
/// diagonal of its board holds no stone of one of the players.
pub open spec fn open_run<Variant: BaseVariant>(first: Seq<bool>, second: Seq<bool>) -> bool {
    let dims = board::<Variant>();
    let size = Variant::spec_run_count() as int;
    exists|k: int, t: int|
        0 <= k < grid_strips(dims).len() && 0 <= t && t + size <= strip_length(
            dims,
            grid_strips(dims)[k].0,
            grid_strips(dims)[k].1,
        )->0 && (misses_window(
            first,
            #[trigger] window_along(dims, grid_strips(dims)[k].0, grid_strips(dims)[k].1, t, size),
        ) || misses_window(
            second,
            window_along(dims, grid_strips(dims)[k].0, grid_strips(dims)[k].1, t, size),
        ))
}

/// The strip of the winning run `i` is covered by a grid exactly when the grid holds every
/// cell of the run, and missed exactly when it holds none.
proof fn lemma_mask_window<Variant: BaseVariant>(strips: Seq<Seq<bool>>, i: int, k: int, t: int, grid: Seq<bool>)
    requires
        strips.len() == board_runs::<Variant>().len(),
        forall|w: int|
            0 <= w < strips.len() ==> #[trigger] strips[w] == indices_to_bits(
                cell_count::<Variant>(),
                board_runs::<Variant>()[w],
            ),
        0 <= i < strips.len(),
        0 <= k < grid_strips(board::<Variant>()).len(),
        0 <= t,
        t + Variant::spec_run_count() <= strip_length(
            board::<Variant>(),
            grid_strips(board::<Variant>())[k].0,
            grid_strips(board::<Variant>())[k].1,
        )->0,
        board_runs::<Variant>()[i] == window_along(
            board::<Variant>(),
            grid_strips(board::<Variant>())[k].0,
            grid_strips(board::<Variant>())[k].1,
            t,
            Variant::spec_run_count() as int,
        ),
    ensures
        covers(grid, strips[i]) <==> holds_window(grid, board_runs::<Variant>()[i]),
        misses(grid, strips[i]) <==> misses_window(grid, board_runs::<Variant>()[i]),
{
    let dims = board::<Variant>();
    let size = Variant::spec_run_count() as int;
    let window = board_runs::<Variant>()[i];
    let mask = strips[i];
    lemma_board::<Variant>();
    Variant::lemma_variant();
    assert forall|a: int| 0 <= a < dims.len() implies #[trigger] dims[a] >= 2 by {}
    assert(mask == indices_to_bits(cell_count::<Variant>(), window));
    assert forall|j: int| 0 <= j < window.len() implies #[trigger] mask[window[j] as int] by {
        lemma_window_inside(dims, k, t, size, j);
        assert(window.contains(window[j]));
    }
    assert forall|c: int| 0 <= c < mask.len() && #[trigger] mask[c] implies exists|j: int|
        0 <= j < window.len() && window[j] as int == c by {
        assert(window.contains(c as usize));
        let j = choose|j: int| 0 <= j < window.len() && window[j] == c as usize;
        assert(window[j] as int == c);
    }
    if holds_window(grid, window) {
        assert forall|c: int| 0 <= c < mask.len() && #[trigger] mask[c] implies grid[c] by {
            let j = choose|j: int| 0 <= j < window.len() && window[j] as int == c;
            assert(grid[window[j] as int]);
        }
    }
    if covers(grid, mask) {
        assert forall|j: int| 0 <= j < window.len() implies #[trigger] grid[window[j] as int] by {
            lemma_window_inside(dims, k, t, size, j);
            assert(mask[window[j] as int]);
        }
    }
    if misses_window(grid, window) {
        assert forall|c: int| 0 <= c < mask.len() && #[trigger] mask[c] implies !grid[c] by {
            let j = choose|j: int| 0 <= j < window.len() && window[j] as int == c;
            assert(!grid[window[j] as int]);
        }
        assert(mask[window[0] as int] && !grid[window[0] as int]);
    }
    if misses(grid, mask) {
        assert forall|j: int| 0 <= j < window.len() implies !#[trigger] grid[window[j] as int] by {
            lemma_window_inside(dims, k, t, size, j);
            assert(mask[window[j] as int]);
        }
    }
}

/// While neither player holds a run of the variant, the game goes on exactly while some
/// run holds no stone of one of the players, and is drawn once every run holds stones of
/// both.
pub proof fn lemma_open_run_status<Variant: BaseVariant>(
    first: Seq<bool>,
    second: Seq<bool>,
    strips: Seq<Seq<bool>>,
)
    requires
        strips.len() == board_runs::<Variant>().len(),
        forall|w: int|
            0 <= w < strips.len() ==> #[trigger] strips[w] == indices_to_bits(
                cell_count::<Variant>(),
                board_runs::<Variant>()[w],
            ),
        !holds_run::<Variant>(first),
        !holds_run::<Variant>(second),
    ensures
        (connect_status(first, second, strips) is Ongoing) <==> open_run::<Variant>(first, second),
        (connect_status(first, second, strips) is Draw) <==> !open_run::<Variant>(first, second),
{
    let dims = board::<Variant>();
    let size = Variant::spec_run_count() as int;
    lemma_board::<Variant>();
    Variant::lemma_variant();
    assert forall|a: int| 0 <= a < dims.len() implies #[trigger] dims[a] >= 2 by {}
    lemma_win_holds_run::<Variant>(first, second, strips);
    let i = first_covered(first, second, strips, 0);
    lemma_first_covered_covers(first, second, strips, 0);
    assert(i >= strips.len());
    if exists|j: int|
        0 <= j < strips.len() && (misses(first, #[trigger] strips[j]) || misses(second, strips[j])) {
        let j = choose|j: int|
            0 <= j < strips.len() && (misses(first, #[trigger] strips[j]) || misses(second, strips[j]));
        lemma_every_run_is_a_window(dims, size, j);
        let (k, t) = choose|k: int, t: int|
            0 <= k < grid_strips(dims).len() && 0 <= t && t + size <= strip_cells(
                dims,
                grid_strips(dims)[k].0,
                grid_strips(dims)[k].1,
            ).len() && grid_runs(dims, size)[j] == #[trigger] window_along(
                dims,
                grid_strips(dims)[k].0,
                grid_strips(dims)[k].1,
                t,
                size,
            );
        lemma_strip_cells_len(dims, k);
        lemma_mask_window::<Variant>(strips, j, k, t, first);
        lemma_mask_window::<Variant>(strips, j, k, t, second);
        let window = window_along(dims, grid_strips(dims)[k].0, grid_strips(dims)[k].1, t, size);
        assert(misses_window(first, window) || misses_window(second, window));
    }
    if open_run::<Variant>(first, second) {
        let (k, t) = choose|k: int, t: int|
            0 <= k < grid_strips(dims).len() && 0 <= t && t + size <= strip_length(
                dims,
                grid_strips(dims)[k].0,
                grid_strips(dims)[k].1,
            )->0 && (misses_window(
                first,
                #[trigger] window_along(dims, grid_strips(dims)[k].0, grid_strips(dims)[k].1, t, size),
            ) || misses_window(
                second,
                window_along(dims, grid_strips(dims)[k].0, grid_strips(dims)[k].1, t, size),
            ));
        let window = window_along(dims, grid_strips(dims)[k].0, grid_strips(dims)[k].1, t, size);
        lemma_every_window_is_a_run(dims, size, k, t);
        let j = choose|j: int| 0 <= j < board_runs::<Variant>().len() && board_runs::<Variant>()[j] == window;
        lemma_mask_window::<Variant>(strips, j, k, t, first);
        lemma_mask_window::<Variant>(strips, j, k, t, second);
        assert(misses(first, strips[j]) || misses(second, strips[j]));
    }
}

/// The stones of both players and the player to move after a symmetry: each stone moves
/// from cell `k` to cell `permutation[k]`, and the players are exchanged when `switched`
/// holds.
pub open spec fn image(
    position: (Seq<bool>, Seq<bool>, u8),
    permutation: Seq<usize>,
    switched: bool,
) -> (Seq<bool>, Seq<bool>, u8) {
    if switched {
        (
            permuted_bits(position.1, permutation),
            permuted_bits(position.0, permutation),
            (1 - position.2) as u8,
        )
    } else {
        (permuted_bits(position.0, permutation), permuted_bits(position.1, permutation), position.2)
    }
}

/// The stones of both players and the player to move.
pub open spec fn position_of<Variant: BaseVariant>(state: State<Variant>) -> (Seq<bool>, Seq<bool>, u8) {
    (state.stones(0), state.stones(1), state.current_player)
}

/// The rules of a connect game: its winning strips, and the symmetries of its grid.
pub struct RuleSet<Variant: BaseVariant> {
    pub symmetries: SymmetryTable,
    pub strips: Vec<BitArray<Variant::ArraySettings>>,
}

impl<Variant: BaseVariant> RuleSet<Variant> {
    /// The winning strips as bit sequences.
    pub open spec fn masks(&self) -> Seq<Seq<bool>> {
        self.strips@.map_values(|strip: BitArray<Variant::ArraySettings>| strip@)
    }

    /// A player whose stones hold a run of the variant's run count of consecutive cells of a
    /// row, column or diagonal has decided the game: the status is a win, and a win goes only
    /// to such a player. While neither holds one, the game goes on exactly while some run
    /// holds no stone of one of the players, and is drawn once every run holds stones of both.
    pub proof fn lemma_run_decides(&self, state: State<Variant>)
        requires
            self.valid(),
        ensures
            holds_run::<Variant>(state.stones(0)) || holds_run::<Variant>(state.stones(1)) ==> (self.status_of(
                state,
            ) is Win),
            (self.status_of(state) == (Status::Win { player: 0 })) ==> holds_run::<Variant>(state.stones(0)),
            (self.status_of(state) == (Status::Win { player: 1 })) ==> holds_run::<Variant>(state.stones(1)),
            (!holds_run::<Variant>(state.stones(0)) && !holds_run::<Variant>(state.stones(1))) ==> ((self.status_of(
                state,
            ) is Ongoing) <==> open_run::<Variant>(state.stones(0), state.stones(1))),
            (!holds_run::<Variant>(state.stones(0)) && !holds_run::<Variant>(state.stones(1))) ==> ((self.status_of(
                state,
            ) is Draw) <==> !open_run::<Variant>(state.stones(0), state.stones(1))),
    {
        assert forall|i: int| 0 <= i < self.masks().len() implies #[trigger] self.masks()[i]
            == indices_to_bits(cell_count::<Variant>(), board_runs::<Variant>()[i]) by {
            assert(self.masks()[i] == self.strips@[i]@);
        }
        if holds_run::<Variant>(state.stones(0)) {
            lemma_covered_run_wins::<Variant>(state.stones(0), state.stones(1), self.masks(), state.stones(0));
        } else if holds_run::<Variant>(state.stones(1)) {
            lemma_covered_run_wins::<Variant>(state.stones(0), state.stones(1), self.masks(), state.stones(1));
        }
        lemma_win_holds_run::<Variant>(state.stones(0), state.stones(1), self.masks());
        if !holds_run::<Variant>(state.stones(0)) && !holds_run::<Variant>(state.stones(1)) {
            lemma_open_run_status::<Variant>(state.stones(0), state.stones(1), self.masks());
        }
    }

    /// The cell permutation of a symmetry of the table.
    pub open spec fn grid_permutation(&self, index: int) -> Seq<usize> {
        self.symmetries.permutations@[index]@
    }

    /// The cell permutation that undoes that of a symmetry of the table.
    pub open spec fn reverse_permutation(&self, index: int) -> Seq<usize> {
        self.symmetries.permutations@[self.symmetries.reverses@[index] as int]@
    }

    /// The symmetry table is that of the grid, and the strips are the winning runs.
    pub open spec fn valid(&self) -> bool {
        &&& self.symmetries.describes(board::<Variant>())
        &&& permutation_list_facts(itertools_permutations(2), 2)
        &&& self.strips@.len() == board_runs::<Variant>().len()
        &&& forall|i: int|
            0 <= i < self.strips@.len() ==> #[trigger] self.strips@[i]@ == indices_to_bits(
                cell_count::<Variant>(),
                board_runs::<Variant>()[i],
            )
    }

    /// The rules of a variant.
    pub fn new() -> (r: RuleSet<Variant>)
        ensures
            r.valid(),
    {
        proof {
            Variant::lemma_variant();
        }
        let size = Variant::grid_size();
        let g = size as isize;
        let dimensions: Vec<isize> = vec![g, g];
        proof {
            assert(dimensions@ =~= square(g));
            lemma_board::<Variant>();
            lemma_square_table(g);
        }
        let symmetries = SymmetryTable::new(&dimensions);
        let sizes: Vec<usize> = vec![size, size];
        proof {
            assert(signed_dimensions(sizes@) =~= square(g));
            reveal_with_fuel(crate::utils::grids::directions::power_of_two, 3);
        }
        let runs = all_runs(sizes, Variant::run_count());
        let mut strips: Vec<BitArray<Variant::ArraySettings>> = Vec::new();
        let mut i: usize = 0;
        while i < runs.len()
            invariant
                i <= runs@.len(),
                index_views(runs@) == board_runs::<Variant>(),
                cell_count::<Variant>() == g * g,
                forall|a: int, b: int|
                    0 <= a < runs@.len() && 0 <= b < runs@[a]@.len() ==> #[trigger] runs@[a]@[b]
                        < g * g,
                strips@.len() == i,
                forall|k: int|
                    0 <= k < i ==> #[trigger] strips@[k]@ == indices_to_bits(
                        cell_count::<Variant>(),
                        board_runs::<Variant>()[k],
                    ),
            decreases runs.len() - i,
        {
            assert(index_views(runs@)[i as int] == runs@[i as int]@);
            let strip = BitArray::<Variant::ArraySettings>::from_indices(runs[i].as_slice());
            strips.push(strip);
            i = i + 1;
        }
        RuleSet { symmetries, strips }
    }

    /// The ply whose number is `ply_index`: the cell of that index, its number kept to a
    /// byte.
    pub fn decode_ply(&self, ply_index: usize) -> (r: Ply<Variant>)
        ensures
            r.index == ply_index as u8,
    {
        Ply::new(ply_index as u8)
    }

    /// The number of a ply: the index of its cell.
    pub fn encode_ply(&self, ply: &Ply<Variant>) -> (r: usize)
        ensures
            r == ply.index,
    {
        ply.index as usize
    }

    /// Number of symmetries of the grid.
    pub fn grid_symmetry_count(&self) -> (r: usize)
        requires
            self.valid(),
        ensures
            r == self.symmetries.permutations@.len(),
            r == 8,
    {
        proof {
            self.lemma_table();
        }
        self.symmetries.permutations.len()
    }

    /// The table has eight cell permutations, each a permutation of the cells, and the
    /// reverse of each undoes it.
    pub proof fn lemma_table(&self)
        requires
            self.valid(),
        ensures
            self.symmetries.permutations@.len() == 8,
            self.symmetries.reverses@.len() == 8,
            forall|j: int|
                0 <= j < 8 ==> #[trigger] is_cell_permutation(self.grid_permutation(j))
                    && self.grid_permutation(j).len() == cell_count::<Variant>()
                    && self.reverse_permutation(j) == inverse_permutation(self.grid_permutation(j))
                    && self.symmetries.reverses@[j] < 8,
    {
        lemma_board::<Variant>();
        let g = Variant::spec_grid_size() as isize;
        lemma_square_table(g);
        let table = table_permutations(board::<Variant>());
        assert forall|j: int| 0 <= j < 8 implies #[trigger] is_cell_permutation(self.grid_permutation(j))
            && self.grid_permutation(j).len() == cell_count::<Variant>()
            && self.reverse_permutation(j) == inverse_permutation(self.grid_permutation(j))
            && self.symmetries.reverses@[j] < 8 by {
            assert(index_views(self.symmetries.permutations@)[j] == self.grid_permutation(j));
            assert(is_cell_permutation(table[j]));
        }
    }
}

/// A cell permutation followed by its inverse leaves the bits in place.
pub proof fn lemma_permuted_back(bits: Seq<bool>, permutation: Seq<usize>)
    requires
        is_cell_permutation(permutation),
        bits.len() == permutation.len(),
    ensures
        permuted_bits(permuted_bits(bits, permutation), inverse_permutation(permutation)) == bits,
{
    let inverse = inverse_permutation(permutation);
    lemma_inverse_permutation(permutation);
    let moved = permuted_bits(bits, permutation);
    let back = permuted_bits(moved, inverse);
    assert forall|j: int| 0 <= j < bits.len() implies back[j] == bits[j] by {
        if bits[j] {
            let m = permutation[j] as int;
            assert(moved[m]) by {
                assert(0 <= j < bits.len() && j < permutation.len() && bits[j] && permutation[j] == m);
            }
            assert(inverse[m] == j);
            assert(0 <= m < moved.len() && m < inverse.len() && moved[m] && inverse[m] == j);
        }
        if back[j] {
            let m = choose|m: int|
                0 <= m < moved.len() && m < inverse.len() && moved[m] && #[trigger] inverse[m] == j;
            let k = choose|k: int|
                0 <= k < bits.len() && k < permutation.len() && bits[k] && #[trigger] permutation[k] == m;
            assert(inverse[permutation[k] as int] == k);
        }
    }
    assert(back =~= bits);
}

/// Applying a cell permutation and then its inverse, switching the players both times or
/// neither, gives back the position.
pub proof fn lemma_image_back(position: (Seq<bool>, Seq<bool>, u8), permutation: Seq<usize>, switched: bool)
    requires
        is_cell_permutation(permutation),
        position.0.len() == permutation.len(),
        position.1.len() == permutation.len(),
        position.2 < 2,
    ensures
        image(image(position, permutation, switched), inverse_permutation(permutation), switched)
            == position,
{
    lemma_permuted_back(position.0, permutation);
    lemma_permuted_back(position.1, permutation);
}

/// The inverse of a cell permutation sends cells to cells.
pub proof fn lemma_inverse_is_cell_permutation(permutation: Seq<usize>)
    requires
        is_cell_permutation(permutation),
    ensures
        inverse_permutation(permutation).len() == permutation.len(),
        forall|k: int|
            0 <= k < permutation.len() ==> #[trigger] inverse_permutation(permutation)[k]
                < permutation.len(),
{
    lemma_inverse_permutation(permutation);
}

/// Undoing a symmetry of a connect game after applying it gives back the stones and the
/// player to move.
pub proof fn lemma_reverse_undoes_swap<Variant: BaseVariant>(
    ruleset: RuleSet<Variant>,
    position: (Seq<bool>, Seq<bool>, u8),
    permutation: Permutation,
)
    requires
        ruleset.valid(),
        position.0.len() == cell_count::<Variant>(),
        position.1.len() == cell_count::<Variant>(),
        position.2 < 2,
        permutation.grid_permutation_index < 8,
    ensures
        image(
            image(
                position,
                ruleset.grid_permutation(permutation.grid_permutation_index as int),
                permutation.switched_players,
            ),
            ruleset.reverse_permutation(permutation.grid_permutation_index as int),
            permutation.switched_players,
        ) == position,
{
    let j = permutation.grid_permutation_index as int;
    ruleset.lemma_table();
    assert(is_cell_permutation(ruleset.grid_permutation(j)));
    lemma_permuted_back(position.0, ruleset.grid_permutation(j));
    lemma_permuted_back(position.1, ruleset.grid_permutation(j));
}

/// No stone lies on cell `index` of a position.
pub open spec fn free_at(position: (Seq<bool>, Seq<bool>, u8), index: int) -> bool {
    !position.0[index] && !position.1[index]
}

/// A cell permutation moves a newly set bit along with the others, and moves each bit to
/// its image.
proof fn lemma_permuted_update(bits: Seq<bool>, permutation: Seq<usize>, index: int)
    requires
        is_cell_permutation(permutation),
        bits.len() == permutation.len(),
        0 <= index < bits.len(),
    ensures
        permuted_bits(bits.update(index, true), permutation) == permuted_bits(bits, permutation).update(
            permutation[index] as int,
            true,
        ),
        permuted_bits(bits, permutation)[permutation[index] as int] == bits[index],
{
    let target = permutation[index] as int;
    let after = permuted_bits(bits.update(index, true), permutation);
    let moved = permuted_bits(bits, permutation).update(target, true);
    assert(after[target]) by {
        assert(bits.update(index, true)[index]);
    }
    assert forall|j: int| 0 <= j < bits.len() && j != target implies after[j] == moved[j] by {
        if after[j] {
            let k = choose|k: int|
                0 <= k < bits.len() && k < permutation.len() && bits.update(index, true)[k]
                    && #[trigger] permutation[k] == j;
            assert(k != index);
            assert(bits[k]);
        }
        if permuted_bits(bits, permutation)[j] {
            let k = choose|k: int|
                0 <= k < bits.len() && k < permutation.len() && bits[k] && #[trigger] permutation[k]
                    == j;
            assert(bits.update(index, true)[k]);
        }
    }
    assert(after =~= moved);
    if permuted_bits(bits, permutation)[target] {
        let k = choose|k: int|
            0 <= k < bits.len() && k < permutation.len() && bits[k] && #[trigger] permutation[k]
                == target;
        assert(k == index);
    }
    if bits[index] {
        assert(permuted_bits(bits, permutation)[target]);
    }
}

/// Symmetries commute with play: placing a stone on a cell and then applying a symmetry
/// gives the position that applying the symmetry and then placing the stone on the image
/// of the cell gives, and the image cell is free exactly when the cell is.
pub proof fn lemma_symmetry_commutes_with_play<Variant: BaseVariant>(
    ruleset: RuleSet<Variant>,
    position: (Seq<bool>, Seq<bool>, u8),
    index: int,
    permutation: Permutation,
)
    requires
        ruleset.valid(),
        position.0.len() == cell_count::<Variant>(),
        position.1.len() == cell_count::<Variant>(),
        position.2 < 2,
        0 <= index < cell_count::<Variant>(),
        permutation.grid_permutation_index < 8,
    ensures
        ({
            let cells = ruleset.grid_permutation(permutation.grid_permutation_index as int);
            &&& image(play_at(position, index), cells, permutation.switched_players) == play_at(
                image(position, cells, permutation.switched_players),
                cells[index] as int,
            )
            &&& free_at(position, index) == free_at(
                image(position, cells, permutation.switched_players),
                cells[index] as int,
            )
        }),
{
    let j = permutation.grid_permutation_index as int;
    let cells = ruleset.grid_permutation(j);
    ruleset.lemma_table();
    assert(is_cell_permutation(cells));
    lemma_permuted_update(position.0, cells, index);
    lemma_permuted_update(position.1, cells, index);
}

impl<Variant: BaseVariant> RuleSetTrait for RuleSet<Variant> {
    type State = State<Variant>;
    type Ply = Ply<Variant>;

    open spec fn wf(&self) -> bool {
        self.valid()
    }

    open spec fn state_ok(&self, state: State<Variant>) -> bool {
        state.player_ok()
    }

    open spec fn ply_ok(&self, ply: Ply<Variant>) -> bool {
        (ply.index as int) < cell_count::<Variant>()
    }

    open spec fn plays_to(&self, state: State<Variant>, ply: Ply<Variant>, result: Result<State<Variant>, PlayError>) -> bool {
        &&& state.cell_empty(ply.index as int) <==> result is Ok
        &&& result matches Ok(s) ==> position_of(s) == state.played(ply.index as int)
        &&& result matches Err(e) ==> e.message == "Cell is occupied" && e.field == "index"
    }

    open spec fn status_of(&self, state: State<Variant>) -> Status {
        connect_status(state.stones(0), state.stones(1), self.masks())
    }

    fn accepts(&self, ply: &Ply<Variant>) -> (r: bool) {
        proof {
            lemma_board::<Variant>();
        }
        (ply.index as usize) < Variant::grid_size() * Variant::grid_size()
    }

    fn initial_state(&self) -> (r: State<Variant>)
        ensures
            r.stones(0) == Seq::new(cell_count::<Variant>(), |i: int| false),
            r.stones(1) == Seq::new(cell_count::<Variant>(), |i: int| false),
            r.current_player == 0,
    {
        State::new()
    }

    /// A copy of the state with the ply played; the error of `State::play` when its cell
    /// is occupied.
    fn play(&self, state: &State<Variant>, ply: &Ply<Variant>) -> (r: Result<
        State<Variant>,
        PlayError,
    >)
    {
        let mut result = *state;
        match result.play(ply) {
            Ok(()) => Ok(result),
            Err(error) => Err(error),
        }
    }

    fn status(&self, state: &State<Variant>) -> (r: Status)
    {
        let mut ongoing = false;
        let mut i: usize = 0;
        while i < self.strips.len()
            invariant
                i <= self.strips@.len(),
                first_covered(state.stones(0), state.stones(1), self.masks(), 0) == first_covered(
                    state.stones(0),
                    state.stones(1),
                    self.masks(),
                    i as int,
                ),
                ongoing == exists|j: int|
                    0 <= j < i && (misses(state.stones(0), #[trigger] self.masks()[j]) || misses(
                        state.stones(1),
                        self.masks()[j],
                    )),
            decreases self.strips.len() - i,
        {
            let strip = &self.strips[i];
            assert(self.masks()[i as int] == strip@);
            let first = state.grids[0].compare_with_mask(strip);
            if let MaskComparison::Equal = first {
                return Status::Win { player: 0 };
            }
            let second = state.grids[1].compare_with_mask(strip);
            if let MaskComparison::Equal = second {
                return Status::Win { player: 1 };
            }
            let ghost before = ongoing;
            if let MaskComparison::Zero = first {
                ongoing = true;
            }
            if let MaskComparison::Zero = second {
                ongoing = true;
            }
            proof {
                if ongoing && !before {
                    assert(misses(state.stones(0), self.masks()[i as int]) || misses(
                        state.stones(1),
                        self.masks()[i as int],
                    ));
                }
            }
            i = i + 1;
        }
        if ongoing {
            Status::Ongoing
        } else {
            Status::Draw
        }
    }
}

impl<Variant: BaseVariant> Permutable for RuleSet<Variant> {
    type Permutation = Permutation;

    open spec fn permutation_ok(&self, permutation: Permutation) -> bool {
        permutation.grid_permutation_index < 8
    }

    fn swap_state(&self, state: &State<Variant>, permutation: &Permutation) -> (r: State<
        Variant,
    >)
        ensures
            position_of(r) == image(
                position_of(*state),
                self.grid_permutation(permutation.grid_permutation_index as int),
                permutation.switched_players,
            ),
    {
        proof {
            self.lemma_table();
            assert(is_cell_permutation(self.grid_permutation(permutation.grid_permutation_index as int)));
        }
        let index = permutation.grid_permutation_index as usize;
        let grid_permutation = &self.symmetries.permutations[index];
        state.swap(grid_permutation.as_slice(), permutation.switched_players)
    }

    fn reverse_state(&self, state: &State<Variant>, permutation: &Permutation) -> (r: State<
        Variant,
    >)
        ensures
            position_of(r) == image(
                position_of(*state),
                self.reverse_permutation(permutation.grid_permutation_index as int),
                permutation.switched_players,
            ),
    {
        proof {
            self.lemma_table();
            let j = permutation.grid_permutation_index as int;
            assert(is_cell_permutation(self.grid_permutation(j)));
            lemma_inverse_is_cell_permutation(self.grid_permutation(j));
        }
        let index = self.symmetries.reverses[permutation.grid_permutation_index as usize];
        let grid_permutation = &self.symmetries.permutations[index];
        state.swap(grid_permutation.as_slice(), permutation.switched_players)
    }

    fn swap_ply(&self, ply: &Ply<Variant>, permutation: &Permutation) -> (r: Ply<Variant>)
        ensures
            r.index == self.grid_permutation(permutation.grid_permutation_index as int)[ply.index as int],
    {
        proof {
            self.lemma_table();
            lemma_board::<Variant>();
            assert(is_cell_permutation(self.grid_permutation(permutation.grid_permutation_index as int)));
        }
        let grid_permutation = &self.symmetries.permutations[permutation.grid_permutation_index as usize];
        Ply::new(grid_permutation[ply.index as usize] as u8)
    }
}

/// The rules of tic-tac-toe.
pub type TicTacToe = RuleSet<crate::rulesets::connectn::variants::TicTacToe>;

/// The rules of gomoku.
pub type Gomoku = RuleSet<crate::rulesets::connectn::variants::Gomoku>;

} // verus!
