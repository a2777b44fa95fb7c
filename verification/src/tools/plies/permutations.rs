use crate::rulesets::connectn::permutation::Permutation;
use crate::rulesets::connectn::plies::Ply;
use crate::rulesets::connectn::ply_iterators::PlyIterator;
use crate::rulesets::connectn::ruleset::{image, lemma_board, position_of, RuleSet};
use crate::rulesets::connectn::state::{cell_count, State};
use crate::rulesets::connectn::symmetry_iterators::{
    lemma_symmetries_left, symmetries_left, symmetry_of, SymmetryIterator,
};
use crate::rulesets::connectn::variants::BaseVariant;
use crate::rulesets::interface::{Permutable, PermutationIteratorTrait, PlyIteratorTrait};
use vstd::prelude::*;

verus! {

/// Permutation `p` maps `state` to itself.
pub open spec fn fixes<Variant: BaseVariant>(
    ruleset: RuleSet<Variant>,
    state: State<Variant>,
    p: Permutation,
) -> bool {
    image(
        position_of(state),
        ruleset.grid_permutation(p.grid_permutation_index as int),
        p.switched_players,
    ) == position_of(state)
}

/// The permutations of `perms` that map `state` to itself, in their order.
pub open spec fn fixing<Variant: BaseVariant>(
    ruleset: RuleSet<Variant>,
    state: State<Variant>,
    perms: Seq<Permutation>,
) -> Seq<Permutation>
    decreases perms.len(),
{
    if perms.len() == 0 {
        seq![]
    } else {
        let rest = fixing(ruleset, state, perms.drop_last());
        if fixes(ruleset, state, perms.last()) {
            rest.push(perms.last())
        } else {
            rest
        }
    }
}

/// The cell that permutation `p` sends cell `index` to.
pub open spec fn image_cell<Variant: BaseVariant>(
    ruleset: RuleSet<Variant>,
    p: Permutation,
    index: int,
) -> int {
    ruleset.grid_permutation(p.grid_permutation_index as int)[index] as int
}

/// The least cell that the first `count` permutations of `perms` send cell `index` to; the
/// cell itself when there are none.
pub open spec fn least_image<Variant: BaseVariant>(
    ruleset: RuleSet<Variant>,
    perms: Seq<Permutation>,
    index: int,
    count: int,
) -> int
    decreases count,
{
    if count <= 0 {
        index
    } else if count == 1 {
        image_cell(ruleset, perms[0], index)
    } else {
        let m = least_image(ruleset, perms, index, count - 1);
        let x = image_cell(ruleset, perms[count - 1], index);
        if x < m {
            x
        } else {
            m
        }
    }
}

/// The representative of cell `index`: the least cell that a permutation of `perms` sends
/// it to.
pub open spec fn representative<Variant: BaseVariant>(
    ruleset: RuleSet<Variant>,
    perms: Seq<Permutation>,
    index: int,
) -> int {
    least_image(ruleset, perms, index, perms.len() as int)
}

/// Cell `index` is empty and its representative was not yielded yet.
pub open spec fn fresh<Variant: BaseVariant>(
    ruleset: RuleSet<Variant>,
    state: State<Variant>,
    perms: Seq<Permutation>,
    seen: Seq<bool>,
    index: int,
) -> bool {
    state.cell_empty(index) && !seen[representative(ruleset, perms, index)]
}

/// The first fresh cell from `from` on, or the number of cells when there is none.
pub open spec fn next_fresh<Variant: BaseVariant>(
    ruleset: RuleSet<Variant>,
    state: State<Variant>,
    perms: Seq<Permutation>,
    seen: Seq<bool>,
    from: int,
) -> int
    decreases cell_count::<Variant>() - from,
{
    if from >= cell_count::<Variant>() {
        cell_count::<Variant>() as int
    } else if fresh(ruleset, state, perms, seen, from) {
        from
    } else {
        next_fresh(ruleset, state, perms, seen, from + 1)
    }
}

/// Some empty cell before `bound` has representative `c`.
pub open spec fn represented<Variant: BaseVariant>(
    ruleset: RuleSet<Variant>,
    state: State<Variant>,
    perms: Seq<Permutation>,
    c: int,
    bound: int,
) -> bool {
    exists|i: int|
        0 <= i < bound && i < cell_count::<Variant>() && state.cell_empty(i) && #[trigger] representative(
            ruleset,
            perms,
            i,
        ) == c
}

/// The permutations that fix a state are permutations of the rule set.
proof fn lemma_fixing_ok<Variant: BaseVariant>(
    ruleset: RuleSet<Variant>,
    state: State<Variant>,
    perms: Seq<Permutation>,
)
    requires
        forall|k: int| 0 <= k < perms.len() ==> #[trigger] perms[k].grid_permutation_index < 8,
    ensures
        forall|k: int|
            0 <= k < fixing(ruleset, state, perms).len() ==> #[trigger] fixing(
                ruleset,
                state,
                perms,
            )[k].grid_permutation_index < 8,
        fixing(ruleset, state, perms).len() <= perms.len(),
    decreases perms.len(),
{
    if perms.len() > 0 {
        let rest = perms.drop_last();
        assert forall|k: int| 0 <= k < rest.len() implies #[trigger] rest[k].grid_permutation_index
            < 8 by {
            assert(rest[k] == perms[k]);
        }
        lemma_fixing_ok(ruleset, state, rest);
        let all = fixing(ruleset, state, perms);
        let before = fixing(ruleset, state, rest);
        assert(perms.last() == perms[perms.len() - 1]);
        assert forall|k: int| 0 <= k < all.len() implies #[trigger] all[k].grid_permutation_index < 8 by {
            if k < before.len() {
                assert(all[k] == before[k]);
            }
        }
    }
}

/// Cells of the grid have representatives in the grid.
proof fn lemma_least_image_in_grid<Variant: BaseVariant>(
    ruleset: RuleSet<Variant>,
    perms: Seq<Permutation>,
    index: int,
    count: int,
)
    requires
        ruleset.valid(),
        0 <= index < cell_count::<Variant>(),
        count <= perms.len(),
        forall|k: int| 0 <= k < perms.len() ==> #[trigger] perms[k].grid_permutation_index < 8,
    ensures
        0 <= least_image(ruleset, perms, index, count) < cell_count::<Variant>(),
    decreases count,
{
    ruleset.lemma_table();
    if count >= 1 {
        let j = perms[count - 1].grid_permutation_index as int;
        assert(crate::utils::grids::symmetries::table::is_cell_permutation(ruleset.grid_permutation(j)));
        assert(ruleset.grid_permutation(j)[index] < cell_count::<Variant>());
        if count > 1 {
            lemma_least_image_in_grid(ruleset, perms, index, count - 1);
        } else {
            let j0 = perms[0].grid_permutation_index as int;
            assert(crate::utils::grids::symmetries::table::is_cell_permutation(ruleset.grid_permutation(j0)));
            assert(ruleset.grid_permutation(j0)[index] < cell_count::<Variant>());
        }
    }
}

/// Cells that are not fresh do not change the next fresh cell.
proof fn lemma_next_fresh_skip<Variant: BaseVariant>(
    ruleset: RuleSet<Variant>,
    state: State<Variant>,
    perms: Seq<Permutation>,
    seen: Seq<bool>,
    from: int,
    to: int,
)
    requires
        from <= to <= cell_count::<Variant>(),
        forall|i: int| from <= i < to ==> !#[trigger] fresh(ruleset, state, perms, seen, i),
    ensures
        next_fresh(ruleset, state, perms, seen, from) == next_fresh(ruleset, state, perms, seen, to),
    decreases to - from,
{
    if from < to {
        assert(!fresh(ruleset, state, perms, seen, from));
        lemma_next_fresh_skip(ruleset, state, perms, seen, from + 1, to);
    }
}

/// The next fresh cell from `from` on is fresh, and no cell before it is.
pub proof fn lemma_next_fresh<Variant: BaseVariant>(
    ruleset: RuleSet<Variant>,
    state: State<Variant>,
    perms: Seq<Permutation>,
    seen: Seq<bool>,
    from: int,
)
    requires
        0 <= from,
    ensures
        ({
            let j = next_fresh(ruleset, state, perms, seen, from);
            &&& j < cell_count::<Variant>() ==> from <= j && fresh(ruleset, state, perms, seen, j)
            &&& forall|i: int| from <= i < j && i < cell_count::<Variant>() ==> !#[trigger] fresh(
                ruleset,
                state,
                perms,
                seen,
                i,
            )
        }),
    decreases cell_count::<Variant>() - from,
{
    if from < cell_count::<Variant>() && !fresh(ruleset, state, perms, seen, from) {
        lemma_next_fresh(ruleset, state, perms, seen, from + 1);
    }
}

/// Occupied cells add no representative.
proof fn lemma_represented_occupied<Variant: BaseVariant>(
    ruleset: RuleSet<Variant>,
    state: State<Variant>,
    perms: Seq<Permutation>,
    c: int,
    from: int,
    to: int,
)
    requires
        0 <= from <= to,
        forall|i: int| from <= i < to && i < cell_count::<Variant>() ==> !#[trigger] state.cell_empty(i),
    ensures
        represented(ruleset, state, perms, c, to) == represented(ruleset, state, perms, c, from),
{
    if represented(ruleset, state, perms, c, to) {
        let i = choose|i: int|
            0 <= i < to && i < cell_count::<Variant>() && state.cell_empty(i) && #[trigger] representative(
                ruleset,
                perms,
                i,
            ) == c;
        assert(i < from);
    }
    if represented(ruleset, state, perms, c, from) {
        let i = choose|i: int|
            0 <= i < from && i < cell_count::<Variant>() && state.cell_empty(i) && #[trigger] representative(
                ruleset,
                perms,
                i,
            ) == c;
        assert(represented(ruleset, state, perms, c, to));
    }
}

/// The plies of one state of a connect game up to its symmetries: for each empty cell in
/// order, its representative, the least cell that a symmetry fixing the state sends it to,
/// unless that representative was yielded before.
pub struct PermutationsIterator<'a, Variant: BaseVariant> {
    pub ruleset: &'a RuleSet<Variant>,
    pub state: &'a State<Variant>,
    pub iterator: PlyIterator<Variant>,
    pub permutations: Vec<Permutation>,
    pub seen: Vec<bool>,
}

impl<'a, Variant: BaseVariant> PermutationsIterator<'a, Variant> {
    /// The permutations are those of the rule set that fix the state, in the order of its
    /// symmetry iterator.
    pub open spec fn permutations_ok(&self) -> bool {
        &&& self.ruleset.valid()
        &&& self.state.player_ok()
        &&& self.permutations@ == fixing(*self.ruleset, *self.state, symmetries_left(8, true))
    }

    /// The permutations are right, and a cell is marked seen exactly when it represents an
    /// empty cell that the ply iterator has passed.
    pub open spec fn wf(&self) -> bool {
        &&& self.permutations_ok()
        &&& self.seen@.len() == cell_count::<Variant>()
        &&& forall|c: int|
            0 <= c < cell_count::<Variant>() ==> (#[trigger] self.seen@[c] <==> represented(
                *self.ruleset,
                *self.state,
                self.permutations@,
                c,
                self.iterator.current_index as int,
            ))
    }

    /// Gathers the symmetries that fix `state`, and starts before its first cell.
    pub fn new(ruleset: &'a RuleSet<Variant>, state: &'a State<Variant>) -> (r: PermutationsIterator<
        'a,
        Variant,
    >)
        requires
            ruleset.valid(),
            state.player_ok(),
        ensures
            r.wf(),
            r.ruleset == ruleset,
            r.state == state,
            r.iterator.current_index == 0,
            r.seen@ == Seq::new(cell_count::<Variant>(), |c: int| false),
    {
        proof {
            lemma_board::<Variant>();
            lemma_symmetries_left(8);
        }
        let ghost all = symmetries_left(8, true);
        let mut symmetries: SymmetryIterator = SymmetryIterator::new(ruleset);
        let mut permutations: Vec<Permutation> = Vec::new();
        let ghost mut k: int = 0;
        proof {
            assert(all.subrange(0, 16) =~= all);
            assert(all.take(0) =~= seq![]);
        }
        loop
            invariant_except_break
                0 <= k <= 16,
                symmetries.left() == all.subrange(k, 16),
            invariant
                all == symmetries_left(8, true),
                all.len() == 16,
                forall|j: int| 0 <= j < 16 ==> #[trigger] all[j] == symmetry_of(7 - j / 2, j % 2 == 1),
                symmetries.permutation_count <= 255,
                ruleset.valid(),
                state.player_ok(),
                permutations@ == fixing(*ruleset, *state, all.take(k)),
            ensures
                permutations@ == fixing(*ruleset, *state, all),
            decreases 16 - k,
        {
            match symmetries.next() {
                Some(p) => {
                    assert(p == all[k]);
                    proof {
                        assert(all.take(k + 1).drop_last() =~= all.take(k));
                        assert(all.take(k + 1).last() == all[k]);
                    }
                    if ruleset.swap_state(state, &p) == *state {
                        permutations.push(p);
                    }
                    proof {
                        k = k + 1;
                        assert(all.subrange(k, 16) =~= all.subrange(k - 1, 16).drop_first());
                    }
                },
                None => {
                    proof {
                        assert(k == 16);
                        assert(all.take(16) =~= all);
                    }
                    break ;
                },
            }
        }
        let count = Variant::grid_size() * Variant::grid_size();
        let mut seen: Vec<bool> = Vec::new();
        let mut i: usize = 0;
        while i < count
            invariant
                i <= count,
                count == cell_count::<Variant>(),
                seen@ == Seq::new(i as nat, |c: int| false),
            decreases count - i,
        {
            seen.push(false);
            i = i + 1;
            assert(seen@ =~= Seq::new(i as nat, |c: int| false));
        }
        let iterator: PlyIterator<Variant> = PlyIterator::new(ruleset, state);
        PermutationsIterator { ruleset, state, iterator, permutations, seen }
    }

    /// The representative of cell `index`.
    fn representative_of(&self, index: u8) -> (r: usize)
        requires
            self.permutations_ok(),
            (index as int) < cell_count::<Variant>(),
        ensures
            r == representative(*self.ruleset, self.permutations@, index as int),
            r < cell_count::<Variant>(),
    {
        let ghost perms = self.permutations@;
        proof {
            lemma_board::<Variant>();
            lemma_symmetries_left(8);
            let all = symmetries_left(8, true);
            assert forall|k: int| 0 <= k < all.len() implies #[trigger] all[k].grid_permutation_index
                < 8 by {
                assert(all[k] == symmetry_of(7 - k / 2, k % 2 == 1));
            }
            lemma_fixing_ok(*self.ruleset, *self.state, all);
            lemma_least_image_in_grid(*self.ruleset, perms, index as int, perms.len() as int);
        }
        let ply = Ply::<Variant>::new(index);
        if self.permutations.len() == 0 {
            return index as usize;
        }
        let mut best = self.ruleset.swap_ply(&ply, &self.permutations[0]);
        let mut k: usize = 1;
        while k < self.permutations.len()
            invariant
                1 <= k <= perms.len(),
                perms == self.permutations@,
                self.ruleset.valid(),
                ply.index == index,
                (index as int) < cell_count::<Variant>(),
                forall|j: int| 0 <= j < perms.len() ==> #[trigger] perms[j].grid_permutation_index < 8,
                best.index == least_image(*self.ruleset, perms, index as int, k as int),
            decreases perms.len() - k,
        {
            let candidate = self.ruleset.swap_ply(&ply, &self.permutations[k]);
            if candidate.index < best.index {
                best = candidate;
            }
            k = k + 1;
        }
        best.index as usize
    }

    /// The representative of the next empty cell whose representative was not yielded
    /// yet; `None` when there is none.
    pub fn next(&mut self) -> (r: Option<Ply<Variant>>)
        requires
            old(self).wf(),
        ensures
            final(self).wf(),
            final(self).ruleset == old(self).ruleset,
            final(self).state == old(self).state,
            final(self).permutations@ == old(self).permutations@,
            ({
                let j = next_fresh(
                    *old(self).ruleset,
                    *old(self).state,
                    old(self).permutations@,
                    old(self).seen@,
                    old(self).iterator.current_index as int,
                );
                let c = representative(*old(self).ruleset, old(self).permutations@, j);
                &&& j < cell_count::<Variant>() ==> (r matches Some(ply) && ply.index == c
                    && old(self).state.cell_empty(j) && !old(self).seen@[c]
                    && final(self).seen@ == old(self).seen@.update(c, true)
                    && final(self).iterator.current_index == j + 1)
                &&& j >= cell_count::<Variant>() ==> r is None && final(self).seen@ == old(
                    self,
                ).seen@
            }),
    {
        let ghost ruleset = *self.ruleset;
        let ghost state = *self.state;
        let ghost perms = self.permutations@;
        let ghost seen0 = self.seen@;
        let ghost start = self.iterator.current_index as int;
        proof {
            lemma_board::<Variant>();
            lemma_symmetries_left(8);
            let all = symmetries_left(8, true);
            assert forall|k: int| 0 <= k < all.len() implies #[trigger] all[k].grid_permutation_index
                < 8 by {
                assert(all[k] == symmetry_of(7 - k / 2, k % 2 == 1));
            }
            lemma_fixing_ok(ruleset, state, all);
            lemma_next_fresh(ruleset, state, perms, seen0, start);
        }
        loop
            invariant
                self.wf(),
                *self.ruleset == ruleset,
                *self.state == state,
                self.permutations@ == perms,
                self.seen@ == seen0,
                seen0 == old(self).seen@,
                perms == old(self).permutations@,
                ruleset == *old(self).ruleset,
                state == *old(self).state,
                start == old(self).iterator.current_index,
                cell_count::<Variant>() <= 225,
                forall|j: int| 0 <= j < perms.len() ==> #[trigger] perms[j].grid_permutation_index < 8,
                next_fresh(ruleset, state, perms, seen0, start) == next_fresh(
                    ruleset,
                    state,
                    perms,
                    seen0,
                    self.iterator.current_index as int,
                ),
            decreases cell_count::<Variant>() - self.iterator.current_index,
        {
            let ghost here = self.iterator.current_index as int;
            match self.iterator.iterate(self.ruleset, self.state) {
                Some(ply) => {
                    let ghost j = ply.index as int;
                    let c = self.representative_of(ply.index);
                    proof {
                        assert forall|i: int| here <= i < j implies !#[trigger] fresh(
                            ruleset,
                            state,
                            perms,
                            seen0,
                            i,
                        ) by {
                            assert(!state.cell_empty(i));
                        }
                        lemma_next_fresh_skip(ruleset, state, perms, seen0, here, j);
                        assert forall|d: int| 0 <= d < cell_count::<Variant>() implies represented(
                            ruleset,
                            state,
                            perms,
                            d,
                            j,
                        ) == represented(ruleset, state, perms, d, here) by {
                            lemma_represented_occupied(ruleset, state, perms, d, here, j);
                        }
                    }
                    if self.seen[c] {
                        proof {
                            assert(!fresh(ruleset, state, perms, seen0, j));
                            lemma_next_fresh_skip(ruleset, state, perms, seen0, j, j + 1);
                            assert forall|d: int| 0 <= d < cell_count::<Variant>() implies (
                            #[trigger] self.seen@[d] <==> represented(
                                ruleset,
                                state,
                                perms,
                                d,
                                j + 1,
                            )) by {
                                if represented(ruleset, state, perms, d, j + 1) {
                                    let i = choose|i: int|
                                        0 <= i < j + 1 && i < cell_count::<Variant>()
                                            && state.cell_empty(i) && #[trigger] representative(
                                            ruleset,
                                            perms,
                                            i,
                                        ) == d;
                                    if i < j {
                                        assert(represented(ruleset, state, perms, d, j));
                                    }
                                }
                                if represented(ruleset, state, perms, d, j) {
                                    let i = choose|i: int|
                                        0 <= i < j && i < cell_count::<Variant>()
                                            && state.cell_empty(i) && #[trigger] representative(
                                            ruleset,
                                            perms,
                                            i,
                                        ) == d;
                                    assert(represented(ruleset, state, perms, d, j + 1));
                                }
                            }
                        }
                    } else {
                        self.seen.set(c, true);
                        proof {
                            assert(fresh(ruleset, state, perms, seen0, j));
                            assert forall|d: int| 0 <= d < cell_count::<Variant>() implies (
                            #[trigger] self.seen@[d] <==> represented(
                                ruleset,
                                state,
                                perms,
                                d,
                                j + 1,
                            )) by {
                                if represented(ruleset, state, perms, d, j + 1) {
                                    let i = choose|i: int|
                                        0 <= i < j + 1 && i < cell_count::<Variant>()
                                            && state.cell_empty(i) && #[trigger] representative(
                                            ruleset,
                                            perms,
                                            i,
                                        ) == d;
                                    if i < j {
                                        assert(represented(ruleset, state, perms, d, j));
                                    }
                                }
                                if represented(ruleset, state, perms, d, j) {
                                    let i = choose|i: int|
                                        0 <= i < j && i < cell_count::<Variant>()
                                            && state.cell_empty(i) && #[trigger] representative(
                                            ruleset,
                                            perms,
                                            i,
                                        ) == d;
                                    assert(represented(ruleset, state, perms, d, j + 1));
                                }
                                if d == c {
                                    assert(represented(ruleset, state, perms, d, j + 1));
                                }
                            }
                        }
                        return Some(Ply::new(c as u8));
                    }
                },
                None => {
                    proof {
                        let after = self.iterator.current_index as int;
                        if here < cell_count::<Variant>() {
                            assert forall|i: int|
                                here <= i < cell_count::<Variant>() implies !#[trigger] fresh(
                                ruleset,
                                state,
                                perms,
                                seen0,
                                i,
                            ) by {
                                assert(!state.cell_empty(i));
                            }
                            lemma_next_fresh_skip(
                                ruleset,
                                state,
                                perms,
                                seen0,
                                here,
                                cell_count::<Variant>() as int,
                            );
                        }
                        assert forall|d: int| 0 <= d < cell_count::<Variant>() implies represented(
                            ruleset,
                            state,
                            perms,
                            d,
                            after,
                        ) == represented(ruleset, state, perms, d, here) by {
                            lemma_represented_occupied(ruleset, state, perms, d, here, after);
                        }
                    }
                    return None;
                },
            }
        }
    }
}

/// Once no fresh cell is left, the cells marked seen are exactly the representatives of
/// the empty cells of the state: every class of plies under the symmetries that fix the
/// state has been yielded, each once.
pub proof fn lemma_exhausted_iterator_covers<Variant: BaseVariant>(iterator: PermutationsIterator<Variant>)
    requires
        iterator.wf(),
        next_fresh(
            *iterator.ruleset,
            *iterator.state,
            iterator.permutations@,
            iterator.seen@,
            iterator.iterator.current_index as int,
        ) >= cell_count::<Variant>(),
    ensures
        forall|c: int|
            0 <= c < cell_count::<Variant>() ==> (#[trigger] iterator.seen@[c] <==> represented(
                *iterator.ruleset,
                *iterator.state,
                iterator.permutations@,
                c,
                cell_count::<Variant>() as int,
            )),
{
    let ruleset = *iterator.ruleset;
    let state = *iterator.state;
    let perms = iterator.permutations@;
    let seen = iterator.seen@;
    let here = iterator.iterator.current_index as int;
    let n = cell_count::<Variant>() as int;
    lemma_next_fresh(ruleset, state, perms, seen, here);
    assert forall|c: int| 0 <= c < n implies (#[trigger] seen[c] <==> represented(
        ruleset,
        state,
        perms,
        c,
        n,
    )) by {
        if seen[c] {
            let i = choose|i: int|
                0 <= i < here && i < n && state.cell_empty(i) && #[trigger] representative(
                    ruleset,
                    perms,
                    i,
                ) == c;
            assert(represented(ruleset, state, perms, c, n));
        }
        if represented(ruleset, state, perms, c, n) {
            let i = choose|i: int|
                0 <= i < n && i < n && state.cell_empty(i) && #[trigger] representative(
                    ruleset,
                    perms,
                    i,
                ) == c;
            if i >= here {
                assert(!fresh(ruleset, state, perms, seen, i));
            } else {
                assert(represented(ruleset, state, perms, c, here));
            }
        }
    }
}

} // verus!
