use crate::rulesets::interface::{PlyIteratorTrait, RuleSetTrait};
use vstd::prelude::*;

verus! {

/// The plies of one state of a game, as its ply iterator yields them.
pub struct BasicIterator<'a, RuleSet: RuleSetTrait, Plies: PlyIteratorTrait<RuleSet>> {
    pub ruleset: &'a RuleSet,
    pub state: &'a RuleSet::State,
    pub iterator: Plies,
}

impl<'a, RuleSet: RuleSetTrait, Plies: PlyIteratorTrait<RuleSet>> BasicIterator<'a, RuleSet, Plies> {
    /// The rule set and the state can be asked about, and the ply iterator fits the rule
    /// set.
    pub open spec fn wf(&self) -> bool {
        &&& self.ruleset.wf()
        &&& self.ruleset.state_ok(*self.state)
        &&& self.iterator.iterator_ok(self.ruleset)
    }

    /// Starts before the first ply of `state`, with a fresh ply iterator.
    pub fn new(ruleset: &'a RuleSet, state: &'a RuleSet::State) -> (r: BasicIterator<'a, RuleSet, Plies>)
        requires
            ruleset.wf(),
            ruleset.state_ok(*state),
        ensures
            r.wf(),
            r.ruleset == ruleset,
            r.state == state,
            r.iterator.fresh(ruleset, *state),
    {
        BasicIterator { ruleset, state, iterator: Plies::new(ruleset, state) }
    }

    /// The next ply: one step of the ply iterator.
    pub fn next(&mut self) -> (r: Option<RuleSet::Ply>)
        requires
            old(self).wf(),
        ensures
            final(self).wf(),
            final(self).ruleset == old(self).ruleset,
            final(self).state == old(self).state,
            old(self).iterator.advances(old(self).ruleset, *old(self).state, r, final(self).iterator),
            r matches Some(ply) ==> old(self).ruleset.ply_ok(ply),
    {
        self.iterator.iterate(self.ruleset, self.state)
    }
}

} // verus!
