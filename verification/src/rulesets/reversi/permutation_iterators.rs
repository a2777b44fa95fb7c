use crate::rulesets::reversi::ruleset::Reversi;
use crate::rulesets::reversi::symmetry::Permutation;
use crate::rulesets::reversi::symmetry_iterators::pairs_left;
use crate::rulesets::reversi::variants::BaseVariant;
use vstd::prelude::*;

verus! {

/// The permutation of a (grid permutation, players switched) pair.
pub open spec fn permutation_from(pair: (u8, bool)) -> Permutation {
    Permutation { grid_permutation_index: pair.0, switched_players: pair.1 }
}

/// Enumerates the permutations of a reversi game: each grid permutation, as is and with
/// the players switched.
pub struct PermutationIterator {
    pub permutation_count: usize,
    pub switched_player: bool,
}

impl PermutationIterator {
    /// The pairs left to yield.
    pub open spec fn left(&self) -> Seq<(u8, bool)> {
        pairs_left(self.permutation_count as nat, self.switched_player)
    }

    /// Starts with all the grid permutations of the rule set left.
    pub fn new<Variant: BaseVariant>(ruleset: &Reversi<Variant>) -> (r: PermutationIterator)
        requires
            ruleset.valid(),
        ensures
            r.permutation_count == 8,
            r.switched_player,
    {
        PermutationIterator {
            permutation_count: ruleset.grid_symmetry_count(),
            switched_player: true,
        }
    }

    /// The next permutation; `None` when none is left.
    pub fn next(&mut self) -> (r: Option<Permutation>)
        requires
            old(self).permutation_count <= 255,
        ensures
            final(self).permutation_count <= 255,
            old(self).left().len() > 0 ==> r == Some(permutation_from(old(self).left()[0]))
                && final(self).left() == old(self).left().drop_first(),
            old(self).left().len() == 0 ==> r is None && final(self).left().len() == 0,
    {
        if !self.switched_player {
            self.switched_player = true;
            return Some(
                Permutation {
                    grid_permutation_index: self.permutation_count as u8,
                    switched_players: true,
                },
            );
        }
        if self.permutation_count > 0 {
            self.permutation_count = self.permutation_count - 1;
            self.switched_player = false;
            return Some(
                Permutation {
                    grid_permutation_index: self.permutation_count as u8,
                    switched_players: false,
                },
            );
        }
        None
    }
}

} // verus!
