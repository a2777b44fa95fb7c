use crate::rulesets::connectn::plies::GomokuPly;
use crate::rulesets::connectn::ruleset::{board, board_runs, connect_status, first_covered, lemma_board, misses};
use crate::rulesets::connectn::state::{cell_count, GomokuState};
use crate::rulesets::connectn::variants::{BaseVariant, Gomoku};
use crate::rulesets::interface::{PlayError, RuleSetTrait, Status};
use crate::rulesets::tictactoe::ruleset::lemma_masked;
use crate::utils::bitarray::base::indices_to_bits;
use crate::utils::bitarray::BitArray225;
use crate::utils::grids::cell_runs::all_runs;
use crate::utils::grids::strips::iterator::signed_dimensions;

use crate::utils::grids::symmetries::table::index_views;
use crate::rulesets::connectn::ruleset::{
    holds_run, lemma_covered_run_wins, lemma_open_run_status, lemma_win_holds_run, open_run,
};
use vstd::prelude::*;

verus! {

/// The rules of gomoku: five in a row on a 15 x 15 grid.
pub struct RuleSet {
    pub strips: Vec<BitArray225>,
}

impl RuleSet {
    /// The winning strips as bit sequences.
    pub open spec fn masks(&self) -> Seq<Seq<bool>> {
        self.strips@.map_values(|strip: BitArray225| strip@)
    }

    /// The strips are the winning runs.
    pub open spec fn valid(&self) -> bool {
        &&& self.strips@.len() == board_runs::<Gomoku>().len()
        &&& forall|i: int|
            0 <= i < self.strips@.len() ==> #[trigger] self.strips@[i]@ == indices_to_bits(
                cell_count::<Gomoku>(),
                board_runs::<Gomoku>()[i],
            )
    }

    /// The rules of gomoku.
    pub fn new() -> (r: RuleSet)
        ensures
            r.valid(),
    {
        proof {
            lemma_board::<Gomoku>();
        }
        let size = Gomoku::grid_size();
        let sizes: Vec<usize> = vec![size, size];
        proof {
            assert(signed_dimensions(sizes@) =~= board::<Gomoku>());
            reveal_with_fuel(crate::utils::grids::directions::power_of_two, 3);
        }
        let runs = all_runs(sizes, Gomoku::run_count());
        let mut strips: Vec<BitArray225> = Vec::new();
        let mut i: usize = 0;
        while i < runs.len()
            invariant
                i <= runs@.len(),
                index_views(runs@) == board_runs::<Gomoku>(),
                forall|a: int, b: int|
                    0 <= a < runs@.len() && 0 <= b < runs@[a]@.len() ==> #[trigger] runs@[a]@[b]
                        < cell_count::<Gomoku>(),
                strips@.len() == i,
                forall|k: int|
                    0 <= k < i ==> #[trigger] strips@[k]@ == indices_to_bits(
                        cell_count::<Gomoku>(),
                        board_runs::<Gomoku>()[k],
                    ),
            decreases runs.len() - i,
        {
            assert(index_views(runs@)[i as int] == runs@[i as int]@);
            strips.push(BitArray225::from_indices(runs[i].as_slice()));
            i = i + 1;
        }
        RuleSet { strips }
    }

    /// A player whose stones hold five consecutive cells of a row, column or diagonal has
    /// decided the game: the status is a win, and a win goes only to such a player. While
    /// neither holds one, the game goes on exactly while some run holds no stone of one of the
    /// players, and is drawn once every run holds stones of both.
    pub proof fn lemma_run_decides(&self, state: GomokuState)
        requires
            self.valid(),
        ensures
            holds_run::<Gomoku>(state.stones(0)) || holds_run::<Gomoku>(state.stones(1)) ==> (self.status_of(
                state,
            ) is Win),
            (self.status_of(state) == (Status::Win { player: 0 })) ==> holds_run::<Gomoku>(state.stones(0)),
            (self.status_of(state) == (Status::Win { player: 1 })) ==> holds_run::<Gomoku>(state.stones(1)),
            (!holds_run::<Gomoku>(state.stones(0)) && !holds_run::<Gomoku>(state.stones(1))) ==> ((self.status_of(
                state,
            ) is Ongoing) <==> open_run::<Gomoku>(state.stones(0), state.stones(1))),
            (!holds_run::<Gomoku>(state.stones(0)) && !holds_run::<Gomoku>(state.stones(1))) ==> ((self.status_of(
                state,
            ) is Draw) <==> !open_run::<Gomoku>(state.stones(0), state.stones(1))),
    {
        assert forall|i: int| 0 <= i < self.masks().len() implies #[trigger] self.masks()[i]
            == indices_to_bits(cell_count::<Gomoku>(), board_runs::<Gomoku>()[i]) by {
            assert(self.masks()[i] == self.strips@[i]@);
        }
        if holds_run::<Gomoku>(state.stones(0)) {
            lemma_covered_run_wins::<Gomoku>(state.stones(0), state.stones(1), self.masks(), state.stones(0));
        } else if holds_run::<Gomoku>(state.stones(1)) {
            lemma_covered_run_wins::<Gomoku>(state.stones(0), state.stones(1), self.masks(), state.stones(1));
        }
        lemma_win_holds_run::<Gomoku>(state.stones(0), state.stones(1), self.masks());
        if !holds_run::<Gomoku>(state.stones(0)) && !holds_run::<Gomoku>(state.stones(1)) {
            lemma_open_run_status::<Gomoku>(state.stones(0), state.stones(1), self.masks());
        }
    }
}

impl RuleSetTrait for RuleSet {
    type State = GomokuState;
    type Ply = GomokuPly;

    open spec fn wf(&self) -> bool {
        self.valid()
    }

    open spec fn state_ok(&self, state: GomokuState) -> bool {
        state.player_ok()
    }

    open spec fn ply_ok(&self, ply: GomokuPly) -> bool {
        (ply.index as int) < cell_count::<Gomoku>()
    }

    open spec fn plays_to(&self, state: GomokuState, ply: GomokuPly, result: Result<GomokuState, PlayError>) -> bool {
        &&& state.cell_empty(ply.index as int) <==> result is Ok
        &&& result matches Ok(s) ==> (s.stones(0), s.stones(1), s.current_player) == state.played(
            ply.index as int,
        )
        &&& result matches Err(e) ==> e.message == "Cell is occupied" && e.field == "index"
    }

    open spec fn status_of(&self, state: GomokuState) -> Status {
        connect_status(state.stones(0), state.stones(1), self.masks())
    }

    fn accepts(&self, ply: &GomokuPly) -> (r: bool) {
        proof {
            crate::rulesets::connectn::ruleset::lemma_board::<Gomoku>();
        }
        (ply.index as usize) < Gomoku::grid_size() * Gomoku::grid_size()
    }

    fn initial_state(&self) -> (r: GomokuState)
        ensures
            r.stones(0) == Seq::new(cell_count::<Gomoku>(), |i: int| false),
            r.stones(1) == Seq::new(cell_count::<Gomoku>(), |i: int| false),
            r.current_player == 0,
    {
        GomokuState::new()
    }

    fn play(&self, state: &GomokuState, ply: &GomokuPly) -> (r: Result<
        GomokuState,
        PlayError,
    >)
    {
        let mut result = *state;
        match result.play(ply) {
            Ok(()) => Ok(result),
            Err(error) => Err(error),
        }
    }

    fn status(&self, state: &GomokuState) -> (r: Status)
    {
        let mut ongoing = false;
        let zero = BitArray225::zero();
        let mut i: usize = 0;
        while i < self.strips.len()
            invariant
                i <= self.strips@.len(),
                zero@ == Seq::new(cell_count::<Gomoku>(), |k: int| false),
                first_covered(state.stones(0), state.stones(1), self.masks(), 0) == first_covered(
                    state.stones(0),
                    state.stones(1),
                    self.masks(),
                    i as int,
                ),
                ongoing == exists|j: int|
                    0 <= j < i && (misses(state.stones(0), #[trigger] self.masks()[j]) || misses(
                        state.stones(1),
                        self.masks()[j],
                    )),
            decreases self.strips.len() - i,
        {
            let strip = &self.strips[i];
            assert(self.masks()[i as int] == strip@);
            proof {
                state.grids[0].lemma_len();
                state.grids[1].lemma_len();
                strip.lemma_len();
                lemma_masked(state.stones(0), strip@);
                lemma_masked(state.stones(1), strip@);
            }
            let ghost before = ongoing;
            let first = state.grids[0].bitand(strip);
            if first == *strip {
                return Status::Win { player: 0 };
            }
            if first == zero {
                ongoing = true;
            }
            let second = state.grids[1].bitand(strip);
            if second == *strip {
                return Status::Win { player: 1 };
            }
            if second == zero {
                ongoing = true;
            }
            proof {
                if ongoing && !before {
                    assert(misses(state.stones(0), self.masks()[i as int]) || misses(
                        state.stones(1),
                        self.masks()[i as int],
                    ));
                }
            }
            i = i + 1;
        }
        if ongoing {
            Status::Ongoing
        } else {
            Status::Draw
        }
    }
}

} // verus!
