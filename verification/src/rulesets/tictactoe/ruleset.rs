use crate::rulesets::connectn::ruleset::{
    board, board_runs, connect_status, covers, first_covered, holds_run, lemma_covered_run_wins,
    lemma_open_run_status, lemma_win_holds_run, misses, open_run,
};
use crate::rulesets::connectn::state::cell_count;
use crate::rulesets::connectn::variants::{BaseVariant, TicTacToe as ConnectTicTacToe};
use crate::rulesets::interface::{PlayError, RuleSetTrait, Status};
use crate::rulesets::tictactoe::plies::Ply;
use crate::rulesets::tictactoe::state::State;
use crate::utils::bitarray::base::{indices_to_bits, mask_comparison};
use crate::utils::bitarray::{BitArray9, MaskComparison};
use crate::utils::grids::cell_runs::{all_runs, grid_runs};
use crate::utils::grids::strips::iterator::signed_dimensions;
use crate::utils::grids::symmetries::square::square;
use crate::utils::grids::symmetries::table::index_views;
use vstd::prelude::*;

verus! {

/// The winning runs of tic-tac-toe: the rows, columns and diagonals of the 3 x 3 grid, in
/// the order in which the grid enumerates them.
pub open spec fn tictactoe_runs() -> Seq<Seq<usize>> {
    grid_runs(square(3), 3)
}

/// The bits of `grid` that `strip` selects equal `strip` exactly when `grid` covers it, and
/// are all unset exactly when `grid` misses it.
pub proof fn lemma_masked(grid: Seq<bool>, strip: Seq<bool>)
    requires
        grid.len() == strip.len(),
    ensures
        (Seq::new(strip.len(), |i: int| grid[i] && strip[i]) == strip) <==> covers(grid, strip),
        !covers(grid, strip) ==> ((Seq::new(strip.len(), |i: int| grid[i] && strip[i]) == Seq::new(
            strip.len(),
            |i: int| false,
        )) <==> misses(grid, strip)),
{
    let masked = Seq::new(strip.len(), |i: int| grid[i] && strip[i]);
    let zero = Seq::new(strip.len(), |i: int| false);
    if covers(grid, strip) {
        assert(masked =~= strip);
    }
    if masked == strip {
        assert forall|i: int| 0 <= i < strip.len() && #[trigger] strip[i] implies grid[i] by {
            assert(masked[i] == strip[i]);
        }
    }
    if misses(grid, strip) {
        assert(masked =~= zero);
    }
    if masked == zero {
        assert forall|i: int| 0 <= i < strip.len() && #[trigger] strip[i] implies !grid[i] by {
            assert(masked[i] == zero[i]);
        }
        if covers(grid, strip) {
            assert(mask_comparison(grid, strip) == MaskComparison::Equal);
        }
    }
}

/// The rules of tic-tac-toe.
pub struct TicTacToe {
    pub strips: Vec<BitArray9>,
}

impl TicTacToe {
    /// The winning strips as bit sequences.
    pub open spec fn masks(&self) -> Seq<Seq<bool>> {
        self.strips@.map_values(|strip: BitArray9| strip@)
    }

    /// The strips are the winning runs.
    pub open spec fn valid(&self) -> bool {
        &&& self.strips@.len() == tictactoe_runs().len()
        &&& forall|i: int|
            0 <= i < self.strips@.len() ==> #[trigger] self.strips@[i]@ == indices_to_bits(
                9,
                tictactoe_runs()[i],
            )
    }

    /// The rules of tic-tac-toe.
    pub fn new() -> (r: TicTacToe)
        ensures
            r.valid(),
    {
        let sizes: Vec<usize> = vec![3, 3];
        proof {
            assert(signed_dimensions(sizes@) =~= square(3));
            reveal_with_fuel(crate::utils::grids::directions::power_of_two, 3);
            reveal_with_fuel(crate::utils::grids::strides::prefix_product, 3);
            assert(square(3)[0] == 3 && square(3)[1] == 3);
            assert(crate::utils::grids::strides::prefix_product(square(3), 0) == 1);
            assert(crate::utils::grids::strides::prefix_product(square(3), 1) == 3);
            assert(crate::utils::grids::strides::prefix_product(square(3), 2) == 9);
        }
        let runs = all_runs(sizes, 3);
        let mut strips: Vec<BitArray9> = Vec::new();
        let mut i: usize = 0;
        while i < runs.len()
            invariant
                i <= runs@.len(),
                index_views(runs@) == tictactoe_runs(),
                forall|a: int, b: int|
                    0 <= a < runs@.len() && 0 <= b < runs@[a]@.len() ==> #[trigger] runs@[a]@[b] < 9,
                strips@.len() == i,
                forall|k: int|
                    0 <= k < i ==> #[trigger] strips@[k]@ == indices_to_bits(9, tictactoe_runs()[k]),
            decreases runs.len() - i,
        {
            assert(index_views(runs@)[i as int] == runs@[i as int]@);
            strips.push(BitArray9::from_indices(runs[i].as_slice()));
            i = i + 1;
        }
        TicTacToe { strips }
    }

    /// A player whose stones hold three consecutive cells of a row, column or diagonal has
    /// decided the game: the status is a win, and a win goes only to such a player. While
    /// neither holds one, the game goes on exactly while some run holds no stone of one of the
    /// players, and is drawn once every run holds stones of both.
    pub proof fn lemma_run_decides(&self, state: State)
        requires
            self.valid(),
        ensures
            holds_run::<ConnectTicTacToe>(state.stones(0)) || holds_run::<ConnectTicTacToe>(state.stones(1)) ==> (self.status_of(
                state,
            ) is Win),
            (self.status_of(state) == (Status::Win { player: 0 })) ==> holds_run::<ConnectTicTacToe>(state.stones(0)),
            (self.status_of(state) == (Status::Win { player: 1 })) ==> holds_run::<ConnectTicTacToe>(state.stones(1)),
            (!holds_run::<ConnectTicTacToe>(state.stones(0)) && !holds_run::<ConnectTicTacToe>(state.stones(1))) ==> ((self.status_of(
                state,
            ) is Ongoing) <==> open_run::<ConnectTicTacToe>(state.stones(0), state.stones(1))),
            (!holds_run::<ConnectTicTacToe>(state.stones(0)) && !holds_run::<ConnectTicTacToe>(state.stones(1))) ==> ((self.status_of(
                state,
            ) is Draw) <==> !open_run::<ConnectTicTacToe>(state.stones(0), state.stones(1))),
    {
        ConnectTicTacToe::lemma_variant();
        assert(board::<ConnectTicTacToe>() == square(3));
        assert(board_runs::<ConnectTicTacToe>() == tictactoe_runs());
        assert forall|i: int| 0 <= i < self.masks().len() implies #[trigger] self.masks()[i]
            == indices_to_bits(cell_count::<ConnectTicTacToe>(), board_runs::<ConnectTicTacToe>()[i]) by {
            assert(self.masks()[i] == self.strips@[i]@);
        }
        if holds_run::<ConnectTicTacToe>(state.stones(0)) {
            lemma_covered_run_wins::<ConnectTicTacToe>(state.stones(0), state.stones(1), self.masks(), state.stones(0));
        } else if holds_run::<ConnectTicTacToe>(state.stones(1)) {
            lemma_covered_run_wins::<ConnectTicTacToe>(state.stones(0), state.stones(1), self.masks(), state.stones(1));
        }
        lemma_win_holds_run::<ConnectTicTacToe>(state.stones(0), state.stones(1), self.masks());
        if !holds_run::<ConnectTicTacToe>(state.stones(0)) && !holds_run::<ConnectTicTacToe>(state.stones(1)) {
            lemma_open_run_status::<ConnectTicTacToe>(state.stones(0), state.stones(1), self.masks());
        }
    }
}

impl RuleSetTrait for TicTacToe {
    type State = State;
    type Ply = Ply;

    open spec fn wf(&self) -> bool {
        self.valid()
    }

    open spec fn state_ok(&self, state: State) -> bool {
        state.current_player < 2
    }

    open spec fn ply_ok(&self, ply: Ply) -> bool {
        ply.index < 9
    }

    open spec fn plays_to(&self, state: State, ply: Ply, result: Result<State, PlayError>) -> bool {
        &&& state.cell_empty(ply.index as int) <==> result is Ok
        &&& result matches Ok(s) ==> (s.stones(0), s.stones(1), s.current_player) == state.played(
            ply.index as int,
        )
        &&& result matches Err(e) ==> e.message == "Cell is occupied" && e.field == "index"
    }

    open spec fn status_of(&self, state: State) -> Status {
        connect_status(state.stones(0), state.stones(1), self.masks())
    }

    fn accepts(&self, ply: &Ply) -> (r: bool) {
        ply.index < 9
    }

    fn initial_state(&self) -> (r: State)
        ensures
            r.stones(0) == Seq::new(9, |i: int| false),
            r.stones(1) == Seq::new(9, |i: int| false),
            r.current_player == 0,
    {
        State::new()
    }

    fn play(&self, state: &State, ply: &Ply) -> (r: Result<State, PlayError>)
    {
        let mut result = *state;
        match result.play(ply) {
            Ok(()) => Ok(result),
            Err(error) => Err(error),
        }
    }

    fn status(&self, state: &State) -> (r: Status)
    {
        let mut ongoing = false;
        let zero = BitArray9::zero();
        let mut i: usize = 0;
        while i < self.strips.len()
            invariant
                i <= self.strips@.len(),
                zero@ == Seq::new(9, |k: int| false),
                first_covered(state.stones(0), state.stones(1), self.masks(), 0) == first_covered(
                    state.stones(0),
                    state.stones(1),
                    self.masks(),
                    i as int,
                ),
                ongoing == exists|j: int|
                    0 <= j < i && (misses(state.stones(0), #[trigger] self.masks()[j]) || misses(
                        state.stones(1),
                        self.masks()[j],
                    )),
            decreases self.strips.len() - i,
        {
            let strip = &self.strips[i];
            assert(self.masks()[i as int] == strip@);
            proof {
                state.grids[0].lemma_len();
                state.grids[1].lemma_len();
                strip.lemma_len();
                lemma_masked(state.stones(0), strip@);
                lemma_masked(state.stones(1), strip@);
            }
            let ghost before = ongoing;
            let first = state.grids[0].bitand(strip);
            if first == *strip {
                return Status::Win { player: 0 };
            }
            if first == zero {
                ongoing = true;
            }
            let second = state.grids[1].bitand(strip);
            if second == *strip {
                return Status::Win { player: 1 };
            }
            if second == zero {
                ongoing = true;
            }
            proof {
                if ongoing && !before {
                    assert(misses(state.stones(0), self.masks()[i as int]) || misses(
                        state.stones(1),
                        self.masks()[i as int],
                    ));
                }
            }
            i = i + 1;
        }
        if ongoing {
            Status::Ongoing
        } else {
            Status::Draw
        }
    }
}

} // verus!
