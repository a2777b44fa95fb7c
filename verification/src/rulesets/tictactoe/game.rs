use crate::rulesets::interface::PlayError;
use crate::rulesets::tictactoe::plies::Ply;
use crate::rulesets::tictactoe::state::State;
use vstd::prelude::*;

verus! {

/// Whether a cell of a state is empty.
pub open spec fn empty_in(state: State) -> spec_fn(int) -> bool {
    |i: int| state.cell_empty(i)
}

/// The ply on a cell.
pub open spec fn ply_on() -> spec_fn(int) -> Ply {
    |i: int| Ply { index: i as u8 }
}

/// The plies on the empty cells among the first `n` cells of a state, in increasing order.
pub open spec fn empty_cells_below(state: State, n: nat) -> Seq<Ply> {
    Seq::new(n, |i: int| i).filter(empty_in(state)).map_values(ply_on())
}

/// The plies on the empty cells of a state, in increasing order.
pub open spec fn empty_cells(state: State) -> Seq<Ply> {
    empty_cells_below(state, 9)
}

/// A game of tic-tac-toe that lists the plies available in a state.
pub struct TicTacToe {}

impl TicTacToe {
    /// The empty grid with player 0 to move.
    pub fn initial_state(&self) -> (r: State)
        ensures
            r.stones(0) == Seq::new(9, |i: int| false),
            r.stones(1) == Seq::new(9, |i: int| false),
            r.current_player == 0,
    {
        State::new()
    }

    /// The plies on the empty cells of `state`, in increasing order of cell.
    pub fn available_plies(&self, state: &State) -> (r: Vec<Ply>)
        ensures
            r@ == empty_cells(*state),
    {
        let mut result: Vec<Ply> = Vec::new();
        let mut index: usize = 0;
        proof {
            assert(Seq::new(0, |i: int| i).filter(empty_in(*state)) =~= seq![]) by {
                broadcast use vstd::seq_lib::group_filter_ensures;
            }
            assert(result@ =~= empty_cells_below(*state, 0));
        }
        while index < 9
            invariant
                index <= 9,
                result@ == empty_cells_below(*state, index as nat),
            decreases 9 - index,
        {
            let ghost before = Seq::new(index as nat, |i: int| i);
            let ghost after = Seq::new((index + 1) as nat, |i: int| i);
            proof {
                assert(after =~= before.push(index as int));
                before.lemma_filter_push(index as int, empty_in(*state));
            }
            if state.is_empty(index) {
                result.push(Ply { index: index as u8 });
                proof {
                    assert(empty_in(*state)(index as int));
                    assert(result@ =~= empty_cells_below(*state, (index + 1) as nat));
                }
            } else {
                proof {
                    assert(!empty_in(*state)(index as int));
                    assert(result@ =~= empty_cells_below(*state, (index + 1) as nat));
                }
            }
            index = index + 1;
        }
        result
    }

    /// A copy of `state` with the ply played; an error when its cell is occupied.
    pub fn play(&self, state: &State, ply: &Ply) -> (r: Result<State, PlayError>)
        requires
            ply.index < 9,
            state.current_player < 2,
        ensures
            state.cell_empty(ply.index as int) <==> r is Ok,
            r matches Ok(s) ==> (s.stones(0), s.stones(1), s.current_player) == state.played(
                ply.index as int,
            ),
            r matches Err(e) ==> e.message == "Cell is occupied" && e.field == "index",
    {
        let mut result = *state;
        match result.play(ply) {
            Ok(()) => Ok(result),
            Err(error) => Err(error),
        }
    }
}

} // verus!
