use crate::rulesets::connectn::permutation::Permutation;
use crate::rulesets::connectn::ruleset::RuleSet;
use crate::rulesets::connectn::symmetry_iterators::symmetries_left;
use crate::rulesets::connectn::variants::BaseVariant;
use crate::rulesets::interface::PermutationIteratorTrait;
use vstd::prelude::*;

verus! {

/// Enumerates the permutations of a connect game: each grid permutation, as is and with
/// the players switched.
pub struct PermutationIterator {
    pub permutation_count: usize,
    pub switched_player: bool,
}

impl PermutationIterator {
    /// The permutations left to yield.
    pub open spec fn left(&self) -> Seq<Permutation> {
        symmetries_left(self.permutation_count as nat, self.switched_player)
    }

    /// The next permutation; `None` when none is left.
    pub fn next(&mut self) -> (r: Option<Permutation>)
        requires
            old(self).permutation_count <= 255,
        ensures
            final(self).permutation_count <= 255,
            old(self).left().len() > 0 ==> r == Some(old(self).left()[0]) && final(self).left()
                == old(self).left().drop_first(),
            old(self).left().len() == 0 ==> r is None && final(self).left().len() == 0,
    {
        if !self.switched_player {
            self.switched_player = true;
            return Some(
                Permutation {
                    grid_permutation_index: self.permutation_count as u8,
                    switched_players: true,
                },
            );
        }
        if self.permutation_count > 0 {
            self.permutation_count = self.permutation_count - 1;
            self.switched_player = false;
            return Some(
                Permutation {
                    grid_permutation_index: self.permutation_count as u8,
                    switched_players: false,
                },
            );
        }
        None
    }
}

impl<Variant: BaseVariant> PermutationIteratorTrait<RuleSet<Variant>> for PermutationIterator {
    open spec fn iterator_ok(&self) -> bool {
        self.permutation_count <= 255
    }

    /// Starts with all the grid permutations of the rule set left.
    fn new(ruleset: &RuleSet<Variant>) -> (r: PermutationIterator)
        ensures
            r.permutation_count == 8,
            r.switched_player,
    {
        PermutationIterator {
            permutation_count: ruleset.grid_symmetry_count(),
            switched_player: true,
        }
    }

    fn next(&mut self) -> (r: Option<Permutation>)
        ensures
            old(self).left().len() > 0 ==> r == Some(old(self).left()[0]) && final(self).left()
                == old(self).left().drop_first(),
            old(self).left().len() == 0 ==> r is None && final(self).left().len() == 0,
    {
        PermutationIterator::next(self)
    }
}

} // verus!
