use crate::rulesets::interface::{Player, PlyIteratorTrait};
use crate::rulesets::reversi::plies::Ply;
use crate::rulesets::reversi::ruleset::{board_strip_ok, lemma_board, Reversi};
use crate::rulesets::reversi::state::{cell_count, State};
use crate::rulesets::reversi::variants::BaseVariant;
use crate::utils::grids::strips::indices::Indices;
use core::marker::PhantomData;
use vstd::prelude::*;

verus! {

/// What a cell of a strip holds, as seen by the ply iterator.
#[derive(Clone, Copy, Debug, PartialEq, Eq, Structural)]
pub enum CellState {
    Empty { index: usize },
    Player(Player),
    Unset,
}

/// What cell `index` holds: a stone of player 0, else one of player 1, else nothing.
pub open spec fn cell_state_of(first: Seq<bool>, second: Seq<bool>, index: usize) -> CellState {
    if first[index as int] {
        CellState::Player(0)
    } else if second[index as int] {
        CellState::Player(1)
    } else {
        CellState::Empty { index }
    }
}

/// The last two distinct cell states of a strip after reading `cell`, and the candidate
/// ply it reveals: an empty cell next to a line of stones of one player that ends in a
/// stone of the other is a candidate for the other, read in either order.
pub open spec fn strip_transition(states: (CellState, CellState), cell: CellState) -> (
    (CellState, CellState),
    Option<(Player, usize)>,
) {
    if cell != states.1 {
        let next = (states.1, cell);
        let found = match (states.0, states.1, cell) {
            (CellState::Empty { index }, CellState::Player(_), CellState::Player(player)) => Some(
                (player, index),
            ),
            (CellState::Player(player), CellState::Player(_), CellState::Empty { index }) => Some(
                (player, index),
            ),
            _ => None,
        };
        (next, found)
    } else {
        (states, None)
    }
}

/// The candidates that reading the given cells reveals, from the given states on.
pub open spec fn strip_events(
    first: Seq<bool>,
    second: Seq<bool>,
    states: (CellState, CellState),
    cells: Seq<usize>,
) -> Seq<(Player, usize)>
    decreases cells.len(),
{
    if cells.len() == 0 {
        seq![]
    } else {
        let (next, found) = strip_transition(states, cell_state_of(first, second, cells[0]));
        let rest = strip_events(first, second, next, cells.drop_first());
        match found {
            Some(event) => seq![event] + rest,
            None => rest,
        }
    }
}

/// Reading the first cell yields its candidate, if any, before those of the others.
pub proof fn lemma_strip_events_step(
    first: Seq<bool>,
    second: Seq<bool>,
    states: (CellState, CellState),
    cells: Seq<usize>,
)
    requires
        cells.len() > 0,
    ensures
        ({
            let (next, found) = strip_transition(states, cell_state_of(first, second, cells[0]));
            let rest = strip_events(first, second, next, cells.drop_first());
            &&& found is Some ==> strip_events(first, second, states, cells).len() > 0
                && strip_events(first, second, states, cells)[0] == found->0
                && strip_events(first, second, states, cells).drop_first() == rest
            &&& found is None ==> strip_events(first, second, states, cells) == rest
        }),
{
    let (next, found) = strip_transition(states, cell_state_of(first, second, cells[0]));
    let rest = strip_events(first, second, next, cells.drop_first());
    if let Some(event) = found {
        assert((seq![event] + rest).drop_first() =~= rest);
    }
}

/// An empty cell state names a cell of the grid.
pub open spec fn cell_in_grid(cell: CellState, count: nat) -> bool {
    cell matches CellState::Empty { index } ==> index < count
}

/// The candidates of a strip whose cells and states name cells of the grid are cells of
/// the grid.
pub proof fn lemma_strip_events_in_grid(
    first: Seq<bool>,
    second: Seq<bool>,
    states: (CellState, CellState),
    cells: Seq<usize>,
    count: nat,
)
    requires
        cell_in_grid(states.0, count),
        cell_in_grid(states.1, count),
        forall|t: int| 0 <= t < cells.len() ==> #[trigger] cells[t] < count,
    ensures
        forall|k: int|
            0 <= k < strip_events(first, second, states, cells).len() ==> #[trigger] strip_events(
                first,
                second,
                states,
                cells,
            )[k].1 < count,
    decreases cells.len(),
{
    if cells.len() > 0 {
        let (next, found) = strip_transition(states, cell_state_of(first, second, cells[0]));
        assert(cells[0] < count);
        lemma_strip_events_in_grid(first, second, next, cells.drop_first(), count);
        let rest = strip_events(first, second, next, cells.drop_first());
        let all = strip_events(first, second, states, cells);
        if let Some(event) = found {
            assert(all == seq![event] + rest);
            assert forall|k: int| 0 <= k < all.len() implies #[trigger] all[k].1 < count by {
                if k > 0 {
                    assert(all[k] == rest[k - 1]);
                }
            }
        }
    }
}

/// The candidates of the strips of the board from `from` on are cells of the grid.
pub proof fn lemma_later_events_in_grid<Variant: BaseVariant>(
    first: Seq<bool>,
    second: Seq<bool>,
    strips: Seq<Indices>,
    from: int,
)
    requires
        forall|k: int| 0 <= k < strips.len() ==> #[trigger] board_strip_ok::<Variant>(strips[k]),
    ensures
        forall|k: int|
            0 <= k < later_events(first, second, strips, from).len() ==> #[trigger] later_events(
                first,
                second,
                strips,
                from,
            )[k].1 < cell_count::<Variant>(),
    decreases strips.len() - from,
{
    lemma_board::<Variant>();
    if 0 <= from < strips.len() {
        let strip = strips[from];
        assert(board_strip_ok::<Variant>(strip));
        let cells = full_cells(strip);
        assert forall|t: int| 0 <= t < cells.len() implies #[trigger] cells[t] < cell_count::<Variant>() by {
            assert(0 <= strip.start + t * strip.step < cell_count::<Variant>());
        }
        lemma_strip_events_in_grid(
            first,
            second,
            (CellState::Unset, CellState::Unset),
            cells,
            cell_count::<Variant>(),
        );
        lemma_later_events_in_grid::<Variant>(first, second, strips, from + 1);
        let head = strip_events(first, second, (CellState::Unset, CellState::Unset), cells);
        let tail = later_events(first, second, strips, from + 1);
        let all = later_events(first, second, strips, from);
        assert(all == head + tail);
        assert forall|k: int| 0 <= k < all.len() implies #[trigger] all[k].1 < cell_count::<Variant>() by {
            if k < head.len() {
                assert(all[k] == head[k]);
            } else {
                assert(all[k] == tail[k - head.len()]);
            }
        }
    }
}

/// A cell state that names an empty cell of the grids, or a player 0 or 1.
pub open spec fn state_on_grid(first: Seq<bool>, second: Seq<bool>, cell: CellState) -> bool {
    match cell {
        CellState::Empty { index } => index < first.len() && index < second.len() && !first[index as int]
            && !second[index as int],
        CellState::Player(player) => player < 2,
        CellState::Unset => true,
    }
}

/// Every candidate that reading cells of the grids reveals is an empty cell, offered to
/// player 0 or 1.
proof fn lemma_strip_events_empty(
    first: Seq<bool>,
    second: Seq<bool>,
    states: (CellState, CellState),
    cells: Seq<usize>,
)
    requires
        state_on_grid(first, second, states.0),
        state_on_grid(first, second, states.1),
        forall|t: int| 0 <= t < cells.len() ==> #[trigger] cells[t] < first.len() && cells[t] < second.len(),
    ensures
        forall|k: int|
            0 <= k < strip_events(first, second, states, cells).len() ==> {
                let event = #[trigger] strip_events(first, second, states, cells)[k];
                &&& event.0 < 2
                &&& !first[event.1 as int]
                &&& !second[event.1 as int]
            },
    decreases cells.len(),
{
    if cells.len() > 0 {
        assert(cells[0] < first.len() && cells[0] < second.len());
        let cell = cell_state_of(first, second, cells[0]);
        let (next, found) = strip_transition(states, cell);
        assert forall|t: int| 0 <= t < cells.drop_first().len() implies #[trigger] cells.drop_first()[t]
            < first.len() && cells.drop_first()[t] < second.len() by {
            assert(cells.drop_first()[t] == cells[t + 1]);
        }
        lemma_strip_events_empty(first, second, next, cells.drop_first());
        lemma_strip_events_step(first, second, states, cells);
        let all = strip_events(first, second, states, cells);
        let rest = strip_events(first, second, next, cells.drop_first());
        if let Some(event) = found {
            assert forall|k: int| 0 <= k < all.len() implies {
                let e = #[trigger] all[k];
                &&& e.0 < 2
                &&& !first[e.1 as int]
                &&& !second[e.1 as int]
            } by {
                if k > 0 {
                    assert(all[k] == rest[k - 1]);
                }
            }
        }
    }
}

/// Every candidate that the strips of the board reveal from strip `from` on is an empty
/// cell, offered to player 0 or 1.
proof fn lemma_later_events_empty<Variant: BaseVariant>(
    first: Seq<bool>,
    second: Seq<bool>,
    strips: Seq<Indices>,
    from: int,
)
    requires
        first.len() == cell_count::<Variant>(),
        second.len() == cell_count::<Variant>(),
        forall|k: int| 0 <= k < strips.len() ==> #[trigger] board_strip_ok::<Variant>(strips[k]),
    ensures
        forall|k: int|
            0 <= k < later_events(first, second, strips, from).len() ==> {
                let event = #[trigger] later_events(first, second, strips, from)[k];
                &&& event.0 < 2
                &&& !first[event.1 as int]
                &&& !second[event.1 as int]
            },
    decreases strips.len() - from,
{
    lemma_board::<Variant>();
    if 0 <= from < strips.len() {
        let strip = strips[from];
        assert(board_strip_ok::<Variant>(strip));
        let cells = full_cells(strip);
        assert forall|t: int| 0 <= t < cells.len() implies #[trigger] cells[t] < first.len()
            && cells[t] < second.len() by {
            assert(0 <= strip.start + t * strip.step < cell_count::<Variant>());
        }
        lemma_strip_events_empty(first, second, (CellState::Unset, CellState::Unset), cells);
        lemma_later_events_empty::<Variant>(first, second, strips, from + 1);
        let head = strip_events(first, second, (CellState::Unset, CellState::Unset), cells);
        let tail = later_events(first, second, strips, from + 1);
        let all = later_events(first, second, strips, from);
        assert(all == head + tail);
        assert forall|k: int| 0 <= k < all.len() implies {
            let e = #[trigger] all[k];
            &&& e.0 < 2
            &&& !first[e.1 as int]
            &&& !second[e.1 as int]
        } by {
            if k < head.len() {
                assert(all[k] == head[k]);
            } else {
                assert(all[k] == tail[k - head.len()]);
            }
        }
    }
}

/// Every candidate ply of a reversi state lies on an empty cell and belongs to player 0
/// or 1: the iterator offers no placement on an occupied cell.
pub proof fn lemma_candidates_on_empty_cells<Variant: BaseVariant>(
    ruleset: Reversi<Variant>,
    state: State<Variant>,
)
    requires
        ruleset.valid(),
    ensures
        forall|k: int|
            0 <= k < reversi_events(state.stones(0), state.stones(1), ruleset.strips@).len() ==> {
                let event = #[trigger] reversi_events(
                    state.stones(0),
                    state.stones(1),
                    ruleset.strips@,
                )[k];
                &&& event.0 < 2
                &&& event.1 < cell_count::<Variant>()
                &&& state.cell_empty(event.1 as int)
            },
{
    state.grids[0].lemma_len();
    state.grids[1].lemma_len();
    ruleset.lemma_strips_on_board();
    lemma_later_events_empty::<Variant>(state.stones(0), state.stones(1), ruleset.strips@, 0);
    lemma_later_events_in_grid::<Variant>(state.stones(0), state.stones(1), ruleset.strips@, 0);
}

/// The cells of a strip that its iteration has yet to yield.
pub open spec fn cursor_cells(strip: Indices) -> Seq<usize> {
    Seq::new(
        strip.remaining_count as nat,
        |t: int| (strip.current + t * strip.step) as usize,
    )
}

/// All the cells of a strip.
pub open spec fn full_cells(strip: Indices) -> Seq<usize> {
    Seq::new(strip.length as nat, |t: int| (strip.start + t * strip.step) as usize)
}

/// The candidates of the strips from `from` on, strip by strip.
pub open spec fn later_events(
    first: Seq<bool>,
    second: Seq<bool>,
    strips: Seq<Indices>,
    from: int,
) -> Seq<(Player, usize)>
    decreases strips.len() - from,
{
    if from < 0 || from >= strips.len() {
        seq![]
    } else {
        strip_events(first, second, (CellState::Unset, CellState::Unset), full_cells(strips[from]))
            + later_events(first, second, strips, from + 1)
    }
}

/// The candidate plies of a reversi state along the given strips, in order, each with the
/// player that could play it.
pub open spec fn reversi_events(
    first: Seq<bool>,
    second: Seq<bool>,
    strips: Seq<Indices>,
) -> Seq<(Player, usize)> {
    later_events(first, second, strips, 0)
}

/// The first candidate at or after `from` that the player to move can play on a cell not
/// yielded yet, or the number of candidates.
pub open spec fn first_playable(
    events: Seq<(Player, usize)>,
    player: Player,
    seen: Seq<bool>,
    from: int,
) -> int
    decreases events.len() - from,
{
    if from >= events.len() {
        events.len() as int
    } else if events[from].0 == player && !seen[events[from].1 as int] {
        from
    } else {
        first_playable(events, player, seen, from + 1)
    }
}

/// The cursor of a strip: the cells left are the last ones of the strip, which lie in the
/// grid when any is left.
pub open spec fn cursor_ok<Variant: BaseVariant>(strip: Indices) -> bool {
    &&& 0 <= strip.remaining_count <= strip.length
    &&& strip.current == strip.start + (strip.length - strip.remaining_count) * strip.step
    &&& strip.remaining_count > 0 ==> board_strip_ok::<Variant>(strip)
}

/// Enumerates the plies that a reversi player could make, strip by strip; `loaded` counts
/// the strips read so far.
pub struct PlyIterator<Variant: BaseVariant> {
    pub loaded: usize,
    pub current_strip: Indices,
    pub strip_state: (CellState, CellState),
    pub seen: Vec<bool>,
    pub variant: PhantomData<Variant>,
}

impl<Variant: BaseVariant> PlyIterator<Variant> {
    /// The candidates that the iteration has yet to read.
    pub open spec fn pending(&self, state: State<Variant>, strips: Seq<Indices>) -> Seq<(Player, usize)> {
        strip_events(state.stones(0), state.stones(1), self.strip_state, cursor_cells(self.current_strip))
            + later_events(state.stones(0), state.stones(1), strips, self.loaded as int)
    }

    /// The iterator is consistent with the strips of a rule set.
    pub open spec fn consistent(&self, strips: Seq<Indices>) -> bool {
        &&& self.loaded <= strips.len()
        &&& cursor_ok::<Variant>(self.current_strip)
        &&& self.seen@.len() == cell_count::<Variant>()
        &&& cell_in_grid(self.strip_state.0, cell_count::<Variant>())
        &&& cell_in_grid(self.strip_state.1, cell_count::<Variant>())
    }

    /// The next candidate of the current strip; `None` when the strip has none left.
    fn iterate_strip(&mut self, state: &State<Variant>) -> (r: Option<(Player, usize)>)
        requires
            cursor_ok::<Variant>(old(self).current_strip),
            cell_in_grid(old(self).strip_state.0, cell_count::<Variant>()),
            cell_in_grid(old(self).strip_state.1, cell_count::<Variant>()),
        ensures
            cursor_ok::<Variant>(final(self).current_strip),
            cell_in_grid(final(self).strip_state.0, cell_count::<Variant>()),
            cell_in_grid(final(self).strip_state.1, cell_count::<Variant>()),
            final(self).loaded == old(self).loaded,
            final(self).seen == old(self).seen,
            ({
                let events = strip_events(
                    state.stones(0),
                    state.stones(1),
                    old(self).strip_state,
                    cursor_cells(old(self).current_strip),
                );
                let left = strip_events(
                    state.stones(0),
                    state.stones(1),
                    final(self).strip_state,
                    cursor_cells(final(self).current_strip),
                );
                &&& events.len() > 0 ==> r == Some(events[0]) && left == events.drop_first()
                &&& events.len() == 0 ==> r is None && left.len() == 0
            }),
    {
        proof {
            lemma_board::<Variant>();
            state.grids[0].lemma_len();
            state.grids[1].lemma_len();
        }
        let ghost first = state.stones(0);
        let ghost second = state.stones(1);
        let ghost events = strip_events(
            first,
            second,
            self.strip_state,
            cursor_cells(self.current_strip),
        );
        loop
            invariant
                cursor_ok::<Variant>(self.current_strip),
                cell_in_grid(self.strip_state.0, cell_count::<Variant>()),
                cell_in_grid(self.strip_state.1, cell_count::<Variant>()),
                self.loaded == old(self).loaded,
                self.seen == old(self).seen,
                first == state.stones(0),
                second == state.stones(1),
                first.len() == cell_count::<Variant>(),
                second.len() == cell_count::<Variant>(),
                cell_count::<Variant>() <= 225,
                cell_count::<Variant>() == Variant::spec_grid_size() * Variant::spec_grid_size(),
                2 <= Variant::spec_grid_size() <= 15,
                strip_events(first, second, self.strip_state, cursor_cells(self.current_strip))
                    == events,
                events == strip_events(
                    first,
                    second,
                    old(self).strip_state,
                    cursor_cells(old(self).current_strip),
                ),
            decreases self.current_strip.remaining_count,
        {
            let ghost strip = self.current_strip;
            proof {
                if strip.remaining_count > 0 {
                    let t = strip.length - strip.remaining_count;
                    assert(0 <= strip.start + t * strip.step < cell_count::<Variant>());
                    assert(strip.start + (t + 1) * strip.step == strip.start + t * strip.step
                        + strip.step) by (nonlinear_arith);
                    assert(-16 <= strip.step <= 16);
                }
            }
            match self.current_strip.next() {
                None => {
                    proof {
                        assert(cursor_cells(strip) =~= seq![]);
                        assert(cursor_cells(self.current_strip) =~= seq![]);
                        assert(events.len() == 0);
                    }
                    return None;
                },
                Some(index) => {
                    let mut cell_state = CellState::Empty { index };
                    if state.grids[0].isset(index) {
                        cell_state = CellState::Player(0);
                    } else if state.grids[1].isset(index) {
                        cell_state = CellState::Player(1);
                    }
                    let ghost states = self.strip_state;
                    proof {
                        let cells = cursor_cells(strip);
                        assert(cells[0] == index);
                        assert(cursor_cells(self.current_strip) =~= cells.drop_first()) by {
                            assert forall|t: int| 0 <= t < cells.len() - 1 implies #[trigger] cursor_cells(
                                self.current_strip,
                            )[t] == cells.drop_first()[t] by {
                                assert(self.current_strip.current + t * strip.step == strip.current
                                    + (t + 1) * strip.step) by (nonlinear_arith)
                                    requires
                                        self.current_strip.current == strip.current + strip.step,
                                ;
                            }
                        }
                        assert(self.current_strip.current == self.current_strip.start + (
                        self.current_strip.length - self.current_strip.remaining_count)
                            * self.current_strip.step) by (nonlinear_arith)
                            requires
                                self.current_strip.current == strip.current + strip.step,
                                strip.current == strip.start + (strip.length - strip.remaining_count)
                                    * strip.step,
                                self.current_strip.remaining_count == strip.remaining_count - 1,
                                self.current_strip.start == strip.start,
                                self.current_strip.length == strip.length,
                                self.current_strip.step == strip.step,
                        ;
                        assert(cell_state == cell_state_of(first, second, index));
                        lemma_strip_events_step(first, second, states, cells);
                    }
                    if cell_state != self.strip_state.1 {
                        let (first_state, second_state) = self.strip_state;
                        self.strip_state = (second_state, cell_state);
                        match (first_state, second_state, cell_state) {
                            (
                                CellState::Empty { index: empty_index },
                                CellState::Player(_),
                                CellState::Player(current_player),
                            ) => {
                                proof {
                                    let (next, found) = strip_transition(states, cell_state);
                                    assert(found == Some((current_player, empty_index)));
                                    assert(next == self.strip_state);
                                }
                                return Some((current_player, empty_index));
                            },
                            (
                                CellState::Player(current_player),
                                CellState::Player(_),
                                CellState::Empty { index: empty_index },
                            ) => {
                                proof {
                                    let (next, found) = strip_transition(states, cell_state);
                                    assert(found == Some((current_player, empty_index)));
                                    assert(next == self.strip_state);
                                }
                                return Some((current_player, empty_index));
                            },
                            _ => {},
                        }
                    }
                },
            }
        }
    }
}

impl<Variant: BaseVariant> PlyIterator<Variant> {
    /// The next candidate of the strips; `None` when none is left.
    pub fn iterate_grid(&mut self, ruleset: &Reversi<Variant>, state: &State<Variant>) -> (r: Option<
        (Player, usize),
    >)
        requires
            ruleset.valid(),
            old(self).consistent(ruleset.strips@),
        ensures
            final(self).consistent(ruleset.strips@),
            final(self).seen == old(self).seen,
            ({
                let pending = old(self).pending(*state, ruleset.strips@);
                &&& pending.len() > 0 ==> r == Some(pending[0]) && final(self).pending(
                    *state,
                    ruleset.strips@,
                ) == pending.drop_first()
                &&& pending.len() == 0 ==> r is None && final(self).pending(
                    *state,
                    ruleset.strips@,
                ).len() == 0
            }),
    {
        let ghost strips = ruleset.strips@;
        let ghost first = state.stones(0);
        let ghost second = state.stones(1);
        let ghost pending = self.pending(*state, strips);
        loop
            invariant
                ruleset.valid(),
                strips == ruleset.strips@,
                first == state.stones(0),
                second == state.stones(1),
                self.consistent(strips),
                self.seen == old(self).seen,
                self.pending(*state, strips) == pending,
                pending == old(self).pending(*state, strips),
            decreases strips.len() - self.loaded,
        {
            let ghost later = later_events(first, second, strips, self.loaded as int);
            let ghost head = strip_events(
                first,
                second,
                self.strip_state,
                cursor_cells(self.current_strip),
            );
            match self.iterate_strip(state) {
                Some(found) => {
                    proof {
                        assert(pending == head + later);
                        assert(pending[0] == head[0]);
                        assert(self.pending(*state, strips) =~= pending.drop_first());
                    }
                    return Some(found);
                },
                None => {},
            }
            proof {
                assert(self.pending(*state, strips) =~= later);
            }
            if self.loaded >= ruleset.strips.len() {
                proof {
                    assert(later =~= seq![]);
                }
                return None;
            }
            let ghost k = self.loaded as int;
            proof {
                let dims = crate::rulesets::reversi::ruleset::board::<Variant>();
                assert(crate::utils::grids::strips::iterator::is_strip_of(
                    strips[k],
                    dims,
                    crate::utils::grids::strips::iterator::grid_strips(dims)[k].0,
                    crate::utils::grids::strips::iterator::grid_strips(dims)[k].1,
                ));
                assert(board_strip_ok::<Variant>(strips[k]));
            }
            self.current_strip = ruleset.strips[self.loaded];
            self.current_strip.reset();
            self.strip_state = (CellState::Unset, CellState::Unset);
            self.loaded = self.loaded + 1;
            proof {
                assert(cursor_cells(self.current_strip) =~= full_cells(strips[k]));
                assert(self.pending(*state, strips) =~= later);
            }
        }
    }
}

impl<Variant: BaseVariant> PlyIteratorTrait<Reversi<Variant>> for PlyIterator<Variant> {
    open spec fn iterator_ok(&self, ruleset: &Reversi<Variant>) -> bool {
        self.consistent(ruleset.strips@)
    }

    /// Every candidate of the state is left to read, and no cell was yielded yet.
    open spec fn fresh(&self, ruleset: &Reversi<Variant>, state: State<Variant>) -> bool {
        &&& self.pending(state, ruleset.strips@) == reversi_events(
            state.stones(0),
            state.stones(1),
            ruleset.strips@,
        )
        &&& self.seen@ == Seq::new(cell_count::<Variant>(), |i: int| false)
    }

    /// The step yields the first candidate of the player to move, among those left, whose
    /// cell was not yielded yet, and marks the cell; it yields nothing, and marks nothing,
    /// when there is none.
    open spec fn advances(
        &self,
        ruleset: &Reversi<Variant>,
        state: State<Variant>,
        ply: Option<Ply<Variant>>,
        next: Self,
    ) -> bool {
        let pending = self.pending(state, ruleset.strips@);
        let i = first_playable(pending, state.current_player, self.seen@, 0);
        &&& i < pending.len() ==> ply == Some(Ply::<Variant>::Place(pending[i].1))
            && next.seen@ == self.seen@.update(pending[i].1 as int, true) && next.pending(
            state,
            ruleset.strips@,
        ) == pending.subrange(i + 1, pending.len() as int)
        &&& i >= pending.len() ==> ply is None && next.seen@ == self.seen@ && next.pending(
            state,
            ruleset.strips@,
        ).len() == 0
    }

    /// The iterator before the first strip of the rule set.
    fn new(ruleset: &Reversi<Variant>, state: &State<Variant>) -> (r: PlyIterator<Variant>)
        ensures
            r.pending(*state, ruleset.strips@) == reversi_events(
                state.stones(0),
                state.stones(1),
                ruleset.strips@,
            ),
            r.seen@ == Seq::new(cell_count::<Variant>(), |i: int| false),
    {
        proof {
            lemma_board::<Variant>();
        }
        let count = Variant::grid_size() * Variant::grid_size();
        let mut seen: Vec<bool> = Vec::new();
        let mut i: usize = 0;
        while i < count
            invariant
                i <= count,
                count == cell_count::<Variant>(),
                seen@ == Seq::new(i as nat, |k: int| false),
            decreases count - i,
        {
            seen.push(false);
            i = i + 1;
            assert(seen@ =~= Seq::new(i as nat, |k: int| false));
        }
        let r = PlyIterator {
            loaded: 0,
            current_strip: Indices::empty(),
            strip_state: (CellState::Empty { index: 0 }, CellState::Empty { index: 0 }),
            seen,
            variant: PhantomData,
        };
        proof {
            assert(cursor_cells(r.current_strip) =~= seq![]);
            assert(r.pending(*state, ruleset.strips@) =~= reversi_events(
                state.stones(0),
                state.stones(1),
                ruleset.strips@,
            ));
        }
        r
    }

    /// The next ply that the player to move could make on a cell not yielded yet; `None`
    /// when none is left.
    fn iterate(&mut self, ruleset: &Reversi<Variant>, state: &State<Variant>) -> (r: Option<
        Ply<Variant>,
    >)
    {
        let ghost strips = ruleset.strips@;
        let ghost pending = self.pending(*state, strips);
        let ghost seen0 = self.seen@;
        let ghost mut position: int = 0;
        proof {
            assert(pending.subrange(0, pending.len() as int) =~= pending);
        }
        loop
            invariant
                ruleset.valid(),
                strips == ruleset.strips@,
                self.consistent(strips),
                self.seen@ == seen0,
                seen0 == old(self).seen@,
                pending == old(self).pending(*state, strips),
                0 <= position <= pending.len(),
                self.pending(*state, strips) == pending.subrange(position, pending.len() as int),
                first_playable(pending, state.current_player, seen0, 0) == first_playable(
                    pending,
                    state.current_player,
                    seen0,
                    position,
                ),
            decreases pending.len() - position,
        {
            proof {
                crate::rulesets::reversi::ruleset::lemma_board::<Variant>();
                assert forall|k: int| 0 <= k < strips.len() implies #[trigger] board_strip_ok::<
                    Variant,
                >(strips[k]) by {
                    let dims = crate::rulesets::reversi::ruleset::board::<Variant>();
                    assert(crate::utils::grids::strips::iterator::is_strip_of(
                        strips[k],
                        dims,
                        crate::utils::grids::strips::iterator::grid_strips(dims)[k].0,
                        crate::utils::grids::strips::iterator::grid_strips(dims)[k].1,
                    ));
                }
                lemma_later_events_in_grid::<Variant>(
                    state.stones(0),
                    state.stones(1),
                    strips,
                    self.loaded as int,
                );
                let cursor = self.current_strip;
                let cells = cursor_cells(cursor);
                assert forall|t: int| 0 <= t < cells.len() implies #[trigger] cells[t]
                    < cell_count::<Variant>() by {
                    let u = cursor.length - cursor.remaining_count + t;
                    assert(cursor.current + t * cursor.step == cursor.start + u * cursor.step)
                        by (nonlinear_arith)
                        requires
                            cursor.current == cursor.start + (cursor.length - cursor.remaining_count)
                                * cursor.step,
                            u == cursor.length - cursor.remaining_count + t,
                    ;
                    assert(0 <= cursor.start + u * cursor.step < cell_count::<Variant>());
                }
                lemma_strip_events_in_grid(
                    state.stones(0),
                    state.stones(1),
                    self.strip_state,
                    cells,
                    cell_count::<Variant>(),
                );
                let head = strip_events(state.stones(0), state.stones(1), self.strip_state, cells);
                let tail = later_events(state.stones(0), state.stones(1), strips, self.loaded as int);
                assert forall|k: int| 0 <= k < (head + tail).len() implies #[trigger] (head
                    + tail)[k].1 < cell_count::<Variant>() by {
                    if k < head.len() {
                        assert((head + tail)[k] == head[k]);
                    } else {
                        assert((head + tail)[k] == tail[k - head.len()]);
                    }
                }
            }
            let ghost before = self.pending(*state, strips);
            match self.iterate_grid(ruleset, state) {
                Some((player, index)) => {
                    proof {
                        assert(before[0] == pending[position]);
                        assert(self.pending(*state, strips) =~= pending.subrange(
                            position + 1,
                            pending.len() as int,
                        ));
                    }
                    if player != state.current_player || self.seen[index] {
                        proof {
                            position = position + 1;
                        }
                    } else {
                        self.seen.set(index, true);
                        return Some(Ply::Place(index));
                    }
                },
                None => {
                    proof {
                        assert(position == pending.len());
                    }
                    return None;
                },
            }
        }
    }
}

} // verus!
