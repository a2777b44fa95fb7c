use crate::rulesets::connectn::plies::Ply;
use crate::rulesets::connectn::ruleset::{lemma_board, RuleSet};
use crate::rulesets::connectn::state::{cell_count, State};
use crate::rulesets::connectn::variants::BaseVariant;
use crate::rulesets::interface::{PlyIteratorTrait, RuleSetTrait};
use core::marker::PhantomData;
use vstd::prelude::*;

verus! {

/// Enumerates the empty cells of a state in increasing order.
pub struct PlyIterator<Variant: BaseVariant> {
    pub current_index: usize,
    pub variant: PhantomData<Variant>,
}

impl<Variant: BaseVariant> PlyIteratorTrait<RuleSet<Variant>> for PlyIterator<Variant> {
    open spec fn iterator_ok(&self, ruleset: &RuleSet<Variant>) -> bool {
        true
    }

    /// The iteration starts at the first cell.
    open spec fn fresh(&self, ruleset: &RuleSet<Variant>, state: State<Variant>) -> bool {
        self.current_index == 0
    }

    /// The step yields the first empty cell at or after the current index and moves past
    /// it; it yields nothing, and does not move back, when every cell from the current
    /// index on is occupied.
    open spec fn advances(
        &self,
        ruleset: &RuleSet<Variant>,
        state: State<Variant>,
        ply: Option<Ply<Variant>>,
        next: Self,
    ) -> bool {
        &&& ply matches Some(p) ==> self.current_index <= p.index && state.cell_empty(p.index as int)
            && (forall|i: int| self.current_index <= i < p.index ==> !state.cell_empty(i))
            && next.current_index == p.index + 1
        &&& ply is None ==> self.current_index <= next.current_index && forall|i: int|
            self.current_index <= i < cell_count::<Variant>() ==> !state.cell_empty(i)
    }

    fn new(ruleset: &RuleSet<Variant>, state: &State<Variant>) -> (r: PlyIterator<Variant>)
        ensures
            r.current_index == 0,
    {
        PlyIterator { current_index: 0, variant: PhantomData }
    }

    /// The first empty cell at or after the current index, after which the iteration goes
    /// on; `None` when every cell from the current index on is occupied.
    fn iterate(&mut self, ruleset: &RuleSet<Variant>, state: &State<Variant>) -> (r: Option<
        Ply<Variant>,
    >)
    {
        proof {
            lemma_board::<Variant>();
        }
        let count = Variant::grid_size() * Variant::grid_size();
        loop
            invariant
                count == cell_count::<Variant>(),
                count <= 225,
                old(self).current_index <= self.current_index,
                forall|i: int| old(self).current_index <= i < self.current_index ==> !state.cell_empty(i),
            ensures
                self.current_index < count,
                state.cell_empty(self.current_index as int),
            decreases count - self.current_index,
        {
            if self.current_index >= count {
                return None;
            }
            if state.is_empty(self.current_index) {
                break ;
            }
            self.current_index = self.current_index + 1;
        }
        let to_return = self.current_index;
        self.current_index = self.current_index + 1;
        Some(Ply::new(to_return as u8))
    }
}

} // verus!
