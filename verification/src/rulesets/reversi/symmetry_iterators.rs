use crate::rulesets::reversi::ruleset::Reversi;
use crate::rulesets::reversi::symmetry::Symmetry;
use crate::rulesets::reversi::variants::BaseVariant;
use vstd::prelude::*;

verus! {

/// One more step is left before the next grid symmetry when the players were not
/// switched yet.
pub open spec fn switch_left(switched: bool) -> nat {
    if switched {
        0
    } else {
        1
    }
}

/// The (grid symmetry, players switched) pairs left to an iterator with `count` grid
/// symmetries left and whose last pair had the players switched (or not): each grid
/// symmetry from `count - 1` down to 0, first as is, then with the players switched.
pub open spec fn pairs_left(count: nat, switched: bool) -> Seq<(u8, bool)>
    decreases count, switch_left(switched),
{
    if !switched {
        seq![(count as u8, true)] + pairs_left(count, true)
    } else if count > 0 {
        seq![((count - 1) as u8, false)] + pairs_left((count - 1) as nat, false)
    } else {
        seq![]
    }
}

/// Starting with `count` grid symmetries, the iterator yields `2 * count` pairs: the
/// `k`-th has grid symmetry `count - 1 - k / 2`, with the players switched when `k` is
/// odd.
pub proof fn lemma_pairs_left(count: nat)
    requires
        count <= 255,
    ensures
        pairs_left(count, true).len() == 2 * count,
        forall|k: int|
            0 <= k < 2 * count ==> #[trigger] pairs_left(count, true)[k] == ((count - 1 - k / 2) as u8, k
                % 2 == 1),
    decreases count,
{
    if count > 0 {
        let c = (count - 1) as nat;
        lemma_pairs_left(c);
        let rest = pairs_left(c, true);
        let second = seq![(c as u8, true)] + rest;
        assert(pairs_left(c, false) == second);
        let all = pairs_left(count, true);
        assert(all == seq![(c as u8, false)] + second);
        assert forall|k: int| 0 <= k < 2 * count implies #[trigger] all[k] == ((count - 1 - k / 2) as u8, k
            % 2 == 1) by {
            if k >= 2 {
                assert(all[k] == rest[k - 2]);
                assert((k - 2) / 2 == k / 2 - 1);
                assert((k - 2) % 2 == k % 2);
            }
        }
    }
}

/// The symmetry of a (grid symmetry, players switched) pair.
pub open spec fn symmetry_from(pair: (u8, bool)) -> Symmetry {
    Symmetry { grid_symmetry_index: pair.0, switched_players: pair.1 }
}

/// Enumerates the symmetries of a reversi game: each grid symmetry, as is and with the
/// players switched.
pub struct SymmetryIterator {
    pub symmetry_count: usize,
    pub switched_player: bool,
}

impl SymmetryIterator {
    /// The pairs left to yield.
    pub open spec fn left(&self) -> Seq<(u8, bool)> {
        pairs_left(self.symmetry_count as nat, self.switched_player)
    }

    /// Starts with all the grid symmetries of the rule set left.
    pub fn new<Variant: BaseVariant>(ruleset: &Reversi<Variant>) -> (r: SymmetryIterator)
        requires
            ruleset.valid(),
        ensures
            r.symmetry_count == 8,
            r.switched_player,
    {
        SymmetryIterator { symmetry_count: ruleset.grid_symmetry_count(), switched_player: true }
    }

    /// The next symmetry; `None` when none is left.
    pub fn next(&mut self) -> (r: Option<Symmetry>)
        requires
            old(self).symmetry_count <= 255,
        ensures
            final(self).symmetry_count <= 255,
            old(self).left().len() > 0 ==> r == Some(symmetry_from(old(self).left()[0]))
                && final(self).left() == old(self).left().drop_first(),
            old(self).left().len() == 0 ==> r is None && final(self).left().len() == 0,
    {
        if !self.switched_player {
            self.switched_player = true;
            return Some(
                Symmetry { grid_symmetry_index: self.symmetry_count as u8, switched_players: true },
            );
        }
        if self.symmetry_count > 0 {
            self.symmetry_count = self.symmetry_count - 1;
            self.switched_player = false;
            return Some(
                Symmetry { grid_symmetry_index: self.symmetry_count as u8, switched_players: false },
            );
        }
        None
    }
}

} // verus!
