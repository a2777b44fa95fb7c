use crate::rulesets::interface::{PlayError, RuleSetTrait, Status};
use vstd::prelude::*;

verus! {

/// One turn of a game: `ply` is played from `state`; on success the state it leads to is
/// recorded with the ply in `history`, and returned with its status. A refused ply leaves
/// the history as it was.
pub fn play_turn<RuleSet: RuleSetTrait>(
    ruleset: &RuleSet,
    history: &mut Vec<(RuleSet::State, RuleSet::Ply)>,
    state: &RuleSet::State,
    ply: &RuleSet::Ply,
) -> (r: Result<(RuleSet::State, Status), PlayError>)
    requires
        ruleset.wf(),
        ruleset.state_ok(*state),
        ruleset.ply_ok(*ply),
    ensures
        match r {
            Ok((next, status)) => {
                &&& ruleset.plays_to(*state, *ply, Ok(next))
                &&& ruleset.state_ok(next)
                &&& status == ruleset.status_of(next)
                &&& final(history)@ == old(history)@.push((next, *ply))
            },
            Err(e) => {
                &&& ruleset.plays_to(*state, *ply, Err(e))
                &&& final(history)@ == old(history)@
            },
        },
{
    match ruleset.play(state, ply) {
        Ok(next) => {
            let status = ruleset.status(&next);
            history.push((next, *ply));
            Ok((next, status))
        },
        Err(error) => Err(error),
    }
}

} // verus!
