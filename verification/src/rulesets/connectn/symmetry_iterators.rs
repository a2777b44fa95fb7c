use crate::rulesets::connectn::permutation::{Permutation, Symmetry};
use crate::rulesets::connectn::ruleset::RuleSet;
use crate::rulesets::connectn::variants::BaseVariant;
use crate::rulesets::interface::{Permutable, PermutationIteratorTrait};
use vstd::prelude::*;

verus! {

/// The symmetry with the given grid permutation, with the players switched or not.
pub open spec fn symmetry_of(index: int, switched: bool) -> Permutation {
    Permutation { grid_permutation_index: index as u8, switched_players: switched }
}

/// One more step is left before the next grid permutation when the players were not
/// switched yet.
pub open spec fn switch_left(switched: bool) -> nat {
    if switched {
        0
    } else {
        1
    }
}

/// The symmetries left to a symmetry iterator with `count` grid permutations left and
/// whose last symmetry had the players switched (or not): each grid permutation from
/// `count - 1` down to 0, first as is, then with the players switched.
pub open spec fn symmetries_left(count: nat, switched: bool) -> Seq<Permutation>
    decreases count, switch_left(switched),
{
    if !switched {
        seq![Permutation { grid_permutation_index: count as u8, switched_players: true }]
            + symmetries_left(count, true)
    } else if count > 0 {
        seq![
            Permutation {
                grid_permutation_index: (count - 1) as u8,
                switched_players: false,
            },
        ] + symmetries_left((count - 1) as nat, false)
    } else {
        seq![]
    }
}

/// Starting with `count` grid permutations, the iterator yields `2 * count` symmetries:
/// the `k`-th has grid permutation `count - 1 - k / 2`, with the players switched when
/// `k` is odd.
pub proof fn lemma_symmetries_left(count: nat)
    requires
        count <= 255,
    ensures
        symmetries_left(count, true).len() == 2 * count,
        forall|k: int|
            0 <= k < 2 * count ==> #[trigger] symmetries_left(count, true)[k] == symmetry_of(
                count - 1 - k / 2,
                k % 2 == 1,
            ),
    decreases count,
{
    if count > 0 {
        let c = (count - 1) as nat;
        lemma_symmetries_left(c);
        let rest = symmetries_left(c, true);
        let second = seq![Permutation { grid_permutation_index: c as u8, switched_players: true }]
            + rest;
        assert(symmetries_left(c, false) == second);
        let all = symmetries_left(count, true);
        assert(all == seq![Permutation { grid_permutation_index: c as u8, switched_players: false }]
            + second);
        assert forall|k: int| 0 <= k < 2 * count implies #[trigger] all[k] == symmetry_of(
            count - 1 - k / 2,
            k % 2 == 1,
        ) by {
            if k >= 2 {
                assert(all[k] == rest[k - 2]);
                assert((k - 2) / 2 == k / 2 - 1);
                assert((k - 2) % 2 == k % 2);
            }
        }
    }
}

/// Enumerates the symmetries of a connect game: each grid permutation, as is and with the
/// players switched.
pub struct SymmetryIterator {
    pub permutation_count: usize,
    pub switched_player: bool,
}

impl SymmetryIterator {
    /// The symmetries left to yield.
    pub open spec fn left(&self) -> Seq<Permutation> {
        symmetries_left(self.permutation_count as nat, self.switched_player)
    }

    /// The next symmetry; `None` when none is left.
    pub fn next(&mut self) -> (r: Option<Symmetry>)
        requires
            old(self).permutation_count <= 255,
        ensures
            final(self).permutation_count <= 255,
            old(self).left().len() > 0 ==> r == Some(old(self).left()[0]) && final(self).left()
                == old(self).left().drop_first(),
            old(self).left().len() == 0 ==> r is None && final(self).left().len() == 0,
    {
        if !self.switched_player {
            self.switched_player = true;
            return Some(
                Permutation {
                    grid_permutation_index: self.permutation_count as u8,
                    switched_players: true,
                },
            );
        }
        if self.permutation_count > 0 {
            self.permutation_count = self.permutation_count - 1;
            self.switched_player = false;
            return Some(
                Permutation {
                    grid_permutation_index: self.permutation_count as u8,
                    switched_players: false,
                },
            );
        }
        None
    }
}

impl<Variant: BaseVariant> PermutationIteratorTrait<RuleSet<Variant>> for SymmetryIterator {
    open spec fn iterator_ok(&self) -> bool {
        self.permutation_count <= 255
    }

    /// Starts with all the grid permutations of the rule set left.
    fn new(ruleset: &RuleSet<Variant>) -> (r: SymmetryIterator)
        ensures
            r.permutation_count == 8,
            r.switched_player,
    {
        SymmetryIterator { permutation_count: ruleset.grid_symmetry_count(), switched_player: true }
    }

    fn next(&mut self) -> (r: Option<Permutation>)
        ensures
            old(self).left().len() > 0 ==> r == Some(old(self).left()[0]) && final(self).left()
                == old(self).left().drop_first(),
            old(self).left().len() == 0 ==> r is None && final(self).left().len() == 0,
    {
        SymmetryIterator::next(self)
    }
}

} // verus!
