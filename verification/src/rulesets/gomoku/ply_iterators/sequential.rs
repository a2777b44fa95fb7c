use crate::rulesets::connectn::plies::{GomokuPly, Ply};
use crate::rulesets::connectn::ruleset::lemma_board;
use crate::rulesets::connectn::state::{cell_count, GomokuState};
use crate::rulesets::connectn::variants::{BaseVariant, Gomoku};
use vstd::prelude::*;

verus! {

/// Enumerates the empty cells of a gomoku state in increasing order.
pub struct SequentialPlyIterator {
    pub state: GomokuState,
    pub current_index: usize,
}

impl SequentialPlyIterator {
    /// Starts before the first cell of `state`.
    pub fn new(state: GomokuState) -> (r: SequentialPlyIterator)
        ensures
            r.state == state,
            r.current_index == 0,
    {
        SequentialPlyIterator { state, current_index: 0 }
    }

    /// The first empty cell at or after the current index, after which the iteration goes
    /// on; `None` when every cell from the current index on is occupied.
    pub fn next(&mut self) -> (r: Option<GomokuPly>)
        ensures
            final(self).state == old(self).state,
            r matches Some(ply) ==> old(self).current_index <= ply.index && old(self).state.cell_empty(
                ply.index as int,
            ) && (forall|i: int|
                old(self).current_index <= i < ply.index ==> !old(self).state.cell_empty(i))
                && final(self).current_index == ply.index + 1,
            r is None ==> forall|i: int|
                old(self).current_index <= i < cell_count::<Gomoku>() ==> !old(self).state.cell_empty(i),
    {
        proof {
            lemma_board::<Gomoku>();
        }
        let count = Gomoku::grid_size() * Gomoku::grid_size();
        loop
            invariant
                count == cell_count::<Gomoku>(),
                count <= 225,
                self.state == old(self).state,
                old(self).current_index <= self.current_index,
                forall|i: int|
                    old(self).current_index <= i < self.current_index ==> !self.state.cell_empty(i),
            ensures
                self.current_index < count,
                self.state.cell_empty(self.current_index as int),
            decreases count - self.current_index,
        {
            if self.current_index >= count {
                return None;
            }
            if self.state.is_empty(self.current_index) {
                break ;
            }
            self.current_index = self.current_index + 1;
        }
        let to_return = self.current_index;
        self.current_index = self.current_index + 1;
        Some(Ply::new(to_return as u8))
    }
}

} // verus!
