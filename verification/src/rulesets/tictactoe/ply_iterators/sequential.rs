use crate::rulesets::tictactoe::plies::Ply;
use crate::rulesets::tictactoe::state::State;
use vstd::prelude::*;

verus! {

/// Enumerates the empty cells of a tic-tac-toe state in increasing order.
pub struct SequentialPlyIterator {
    pub state: State,
    pub current_index: usize,
}

impl SequentialPlyIterator {
    /// Starts before the first cell of `state`.
    pub fn new(state: State) -> (r: SequentialPlyIterator)
        ensures
            r.state == state,
            r.current_index == 0,
    {
        SequentialPlyIterator { state, current_index: 0 }
    }

    /// The first empty cell at or after the current index, after which the iteration goes
    /// on; `None` when every cell from the current index on is occupied.
    pub fn next(&mut self) -> (r: Option<Ply>)
        ensures
            final(self).state == old(self).state,
            r matches Some(ply) ==> old(self).current_index <= ply.index && old(self).state.cell_empty(
                ply.index as int,
            ) && (forall|i: int|
                old(self).current_index <= i < ply.index ==> !old(self).state.cell_empty(i))
                && final(self).current_index == ply.index + 1,
            r is None ==> forall|i: int|
                old(self).current_index <= i < 9 ==> !old(self).state.cell_empty(i),
    {
        loop
            invariant
                self.state == old(self).state,
                old(self).current_index <= self.current_index,
                forall|i: int|
                    old(self).current_index <= i < self.current_index ==> !self.state.cell_empty(i),
            ensures
                self.current_index < 9,
                self.state.cell_empty(self.current_index as int),
            decreases 9 - self.current_index,
        {
            if self.current_index >= 9 {
                return None;
            }
            if self.state.is_empty(self.current_index) {
                break ;
            }
            self.current_index = self.current_index + 1;
        }
        let to_return = self.current_index;
        self.current_index = self.current_index + 1;
        Some(Ply { index: to_return as u8 })
    }
}

} // verus!
