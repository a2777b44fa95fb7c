use vstd::prelude::*;

verus! {

/// A player: 0 moves first, 1 second.
pub type Player = u8;

/// The status of a game.
#[derive(Clone, Copy, Debug, PartialEq, Eq, Hash, Structural)]
pub enum Status {
    Ongoing,
    Draw,
    Win { player: Player },
}

/// The status of a game as seen by one player.
#[derive(Clone, Copy, Debug, PartialEq, Eq, Hash, Structural)]
pub enum PlayerStatus {
    Ongoing,
    Win,
    Draw,
    Loss,
}

/// The status of a game as seen by `player`: a win of `player` is a win, a win of anyone
/// else a loss.
pub open spec fn pov_of(status: Status, player: Player) -> PlayerStatus {
    match status {
        Status::Ongoing => PlayerStatus::Ongoing,
        Status::Draw => PlayerStatus::Draw,
        Status::Win { player: winner } => if winner == player {
            PlayerStatus::Win
        } else {
            PlayerStatus::Loss
        },
    }
}

impl Status {
    /// The status as seen by `player`.
    pub fn player_pov(&self, player: &Player) -> (r: PlayerStatus)
        ensures
            r == pov_of(*self, *player),
    {
        match self {
            Status::Ongoing => PlayerStatus::Ongoing,
            Status::Draw => PlayerStatus::Draw,
            Status::Win { player: winner } => {
                if *winner == *player {
                    PlayerStatus::Win
                } else {
                    PlayerStatus::Loss
                }
            },
        }
    }
}

/// Why a ply was refused.
#[derive(Clone, Copy, Debug)]
pub struct PlayError {
    pub message: &'static str,
    pub field: &'static str,
}

/// The state of a game.
pub trait StateTrait: Copy {
    /// The player to move.
    fn current_player(&self) -> (r: Player);
}

/// A move of a game.
pub trait PlyTrait: Copy {

}

/// The rules of a game.
pub trait RuleSetTrait: Sized {
    type State: StateTrait;
    type Ply: PlyTrait;

    /// The tables of the rule set are those of its game.
    spec fn wf(&self) -> bool;

    /// A state that the rule set can be asked about.
    spec fn state_ok(&self, state: Self::State) -> bool;

    /// A ply that the rule set can be asked to play.
    spec fn ply_ok(&self, ply: Self::Ply) -> bool;

    /// What playing `ply` from `state` may give: the rules of the game.
    spec fn plays_to(&self, state: Self::State, ply: Self::Ply, result: Result<Self::State, PlayError>) -> bool;

    /// The status of `state` under the rules of the game.
    spec fn status_of(&self, state: Self::State) -> Status;

    /// Whether the rule set can be asked to play `ply`.
    fn accepts(&self, ply: &Self::Ply) -> (r: bool)
        requires
            self.wf(),
        ensures
            r == self.ply_ok(*ply),
    ;

    /// The state a game starts from.
    fn initial_state(&self) -> (r: Self::State)
        requires
            self.wf(),
        ensures
            self.state_ok(r),
    ;

    /// The state after `ply` is played from `state`, or why it cannot be.
    fn play(&self, state: &Self::State, ply: &Self::Ply) -> (r: Result<Self::State, PlayError>)
        requires
            self.wf(),
            self.state_ok(*state),
            self.ply_ok(*ply),
        ensures
            self.plays_to(*state, *ply, r),
            r matches Ok(s) ==> self.state_ok(s),
    ;

    /// Whether the game goes on, and if not, how it ended.
    fn status(&self, state: &Self::State) -> (r: Status)
        requires
            self.wf(),
            self.state_ok(*state),
        ensures
            r == self.status_of(*state),
    ;
}

/// Rules whose states can be transformed by the symmetries of the game.
pub trait Permutable: RuleSetTrait {
    type Permutation;

    /// A permutation that the rule set can apply.
    spec fn permutation_ok(&self, permutation: Self::Permutation) -> bool;

    /// The image of a state under a permutation.
    fn swap_state(&self, state: &Self::State, permutation: &Self::Permutation) -> (r: Self::State)
        requires
            self.wf(),
            self.state_ok(*state),
            self.permutation_ok(*permutation),
        ensures
            self.state_ok(r),
    ;

    /// The state whose image under a permutation is `state`.
    fn reverse_state(&self, state: &Self::State, permutation: &Self::Permutation) -> (r: Self::State)
        requires
            self.wf(),
            self.state_ok(*state),
            self.permutation_ok(*permutation),
        ensures
            self.state_ok(r),
    ;

    /// The image of a ply under a permutation.
    fn swap_ply(&self, ply: &Self::Ply, permutation: &Self::Permutation) -> (r: Self::Ply)
        requires
            self.wf(),
            self.ply_ok(*ply),
            self.permutation_ok(*permutation),
        ensures
            self.ply_ok(r),
    ;
}

/// Enumerates the plies that can be played from a state.
pub trait PlyIteratorTrait<RuleSet: RuleSetTrait>: Sized {
    /// The iterator is consistent with the rule set.
    spec fn iterator_ok(&self, ruleset: &RuleSet) -> bool;

    /// The iterator stands before the first ply of `state`, as `new` leaves it.
    spec fn fresh(&self, ruleset: &RuleSet, state: RuleSet::State) -> bool;

    /// One step of the iteration over the plies of `state` yields `ply` and leaves the
    /// iterator as `next`.
    spec fn advances(
        &self,
        ruleset: &RuleSet,
        state: RuleSet::State,
        ply: Option<RuleSet::Ply>,
        next: Self,
    ) -> bool;

    /// Starts before the first ply of `state`.
    fn new(ruleset: &RuleSet, state: &RuleSet::State) -> (r: Self)
        requires
            ruleset.wf(),
        ensures
            r.iterator_ok(ruleset),
            r.fresh(ruleset, *state),
    ;

    /// The next ply; `None` when none is left.
    fn iterate(&mut self, ruleset: &RuleSet, state: &RuleSet::State) -> (r: Option<RuleSet::Ply>)
        requires
            ruleset.wf(),
            ruleset.state_ok(*state),
            old(self).iterator_ok(ruleset),
        ensures
            final(self).iterator_ok(ruleset),
            old(self).advances(ruleset, *state, r, *final(self)),
            r matches Some(ply) ==> ruleset.ply_ok(ply),
    ;
}

/// Enumerates the permutations of a rule set.
pub trait PermutationIteratorTrait<RuleSet: Permutable>: Sized {
    /// The iterator is consistent.
    spec fn iterator_ok(&self) -> bool;

    /// Starts before the first permutation.
    fn new(ruleset: &RuleSet) -> (r: Self)
        requires
            ruleset.wf(),
        ensures
            r.iterator_ok(),
    ;

    /// The next permutation; `None` when none is left.
    fn next(&mut self) -> (r: Option<RuleSet::Permutation>)
        requires
            old(self).iterator_ok(),
        ensures
            final(self).iterator_ok(),
    ;
}

} // verus!
