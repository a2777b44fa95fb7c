use crate::rulesets::interface::{Player, PlyIteratorTrait, RuleSetTrait};
use crate::rulesets::reversi::plies::Ply;
use crate::rulesets::reversi::ply_iterators::{
    cell_state_of, first_playable, full_cells, lemma_later_events_in_grid, later_events,
    reversi_events, strip_events, strip_transition, CellState, PlyIterator,
};
use crate::rulesets::reversi::ruleset::{
    board_strip_ok, lemma_all_pegs_found, lemma_strip_pegs_bracket, occupied, opponent_stones,
    own_stones, stone, Reversi,
};
use crate::rulesets::reversi::state::{cell_count, State};
use crate::rulesets::reversi::variants::BaseVariant;
use crate::utils::grids::strips::indices::Indices;
use vstd::prelude::*;

verus! {

/// What cell `cells[t]` of a strip holds.
pub open spec fn state_at(first: Seq<bool>, second: Seq<bool>, cells: Seq<usize>, t: int) -> CellState {
    cell_state_of(first, second, cells[t])
}

/// Placing a stone of `player` on the empty cell `cells[a]` brackets stones along the
/// strip: the cells strictly between `a` and `b` (at least one) hold stones of the other
/// player, and `cells[b]` holds a stone of `player`, on either side of `a`.
pub open spec fn brackets_along(
    first: Seq<bool>,
    second: Seq<bool>,
    cells: Seq<usize>,
    player: Player,
    a: int,
    b: int,
) -> bool {
    &&& 0 <= a < cells.len()
    &&& 0 <= b < cells.len()
    &&& (b >= a + 2 || a >= b + 2)
    &&& state_at(first, second, cells, a) == (CellState::Empty { index: cells[a] })
    &&& state_at(first, second, cells, b) == CellState::Player(player)
    &&& forall|t: int|
        (a < t < b || b < t < a) ==> #[trigger] state_at(first, second, cells, t) == CellState::Player(
            (1 - player) as u8,
        )
}

/// Placing a stone of the candidate's player on its cell brackets stones along the strip.
pub open spec fn bracketed(first: Seq<bool>, second: Seq<bool>, cells: Seq<usize>, event: (Player, usize)) -> bool {
    exists|a: int, b: int|
        #[trigger] brackets_along(first, second, cells, event.0, a, b) && cells[a] == event.1
}

/// The first cell of the longest run of equal cell states that ends with cell `m - 1`.
pub open spec fn run_start(first: Seq<bool>, second: Seq<bool>, cells: Seq<usize>, m: int) -> int
    decreases m,
{
    if m <= 1 {
        0
    } else if state_at(first, second, cells, m - 2) == state_at(first, second, cells, m - 1) {
        run_start(first, second, cells, m - 1)
    } else {
        m - 1
    }
}

/// The states that the strip reader holds after reading the first `m` cells: the state of
/// the last cell, and that of the cell before its run (`Unset` when the run starts the
/// strip).
pub open spec fn states_after(
    first: Seq<bool>,
    second: Seq<bool>,
    cells: Seq<usize>,
    m: int,
    states: (CellState, CellState),
) -> bool {
    &&& m == 0 ==> states == (CellState::Unset, CellState::Unset)
    &&& m > 0 ==> states.1 == state_at(first, second, cells, m - 1)
    &&& m > 0 && run_start(first, second, cells, m) == 0 ==> states.0 == CellState::Unset
    &&& m > 0 && run_start(first, second, cells, m) > 0 ==> states.0 == state_at(
        first,
        second,
        cells,
        run_start(first, second, cells, m) - 1,
    )
}

/// The run that ends with cell `m - 1` holds one state throughout.
proof fn lemma_run(first: Seq<bool>, second: Seq<bool>, cells: Seq<usize>, m: int)
    requires
        1 <= m,
    ensures
        0 <= run_start(first, second, cells, m) <= m - 1,
        forall|t: int|
            run_start(first, second, cells, m) <= t < m ==> #[trigger] state_at(first, second, cells, t)
                == state_at(first, second, cells, m - 1),
        run_start(first, second, cells, m) > 0 ==> state_at(
            first,
            second,
            cells,
            run_start(first, second, cells, m) - 1,
        ) != state_at(first, second, cells, m - 1),
    decreases m,
{
    if m > 1 && state_at(first, second, cells, m - 2) == state_at(first, second, cells, m - 1) {
        lemma_run(first, second, cells, m - 1);
    }
}

/// A cell state read from the grids names player 0 or 1.
proof fn lemma_player_state(first: Seq<bool>, second: Seq<bool>, index: usize)
    ensures
        cell_state_of(first, second, index) matches CellState::Player(p) ==> p < 2,
        cell_state_of(first, second, index) matches CellState::Empty { index: i } ==> i == index,
        cell_state_of(first, second, index) != CellState::Unset,
{
}

/// Reading cell `m` keeps the reader's states in step with the cells, and a candidate it
/// reveals is a bracketing placement.
proof fn lemma_transition(
    first: Seq<bool>,
    second: Seq<bool>,
    cells: Seq<usize>,
    m: int,
    states: (CellState, CellState),
)
    requires
        0 <= m < cells.len(),
        states_after(first, second, cells, m, states),
    ensures
        ({
            let (next, found) = strip_transition(states, state_at(first, second, cells, m));
            &&& states_after(first, second, cells, m + 1, next)
            &&& found matches Some(event) ==> bracketed(first, second, cells, event)
        }),
{
    let cell = state_at(first, second, cells, m);
    lemma_player_state(first, second, cells[m]);
    let (next, found) = strip_transition(states, cell);
    if m > 0 {
        lemma_run(first, second, cells, m);
        lemma_player_state(first, second, cells[m - 1]);
    }
    lemma_run(first, second, cells, m + 1);
    if let Some(event) = found {
        assert(cell != states.1);
        assert(m > 0);
        let rs = run_start(first, second, cells, m);
        assert(rs > 0);
        lemma_player_state(first, second, cells[rs - 1]);
        match (states.0, states.1, cell) {
            (CellState::Empty { index }, CellState::Player(x), CellState::Player(p)) => {
                assert(x != p);
                assert(x == 1 - p);
                assert(brackets_along(first, second, cells, event.0, rs - 1, m));
            },
            (CellState::Player(p), CellState::Player(x), CellState::Empty { index }) => {
                assert(x != p);
                assert(x == 1 - p);
                assert(brackets_along(first, second, cells, event.0, m, rs - 1));
            },
            _ => {},
        }
    }
}

/// Every candidate revealed by the cells from `m` on, read with the states that the
/// first `m` cells leave, is a bracketing placement.
proof fn lemma_events_bracket(
    first: Seq<bool>,
    second: Seq<bool>,
    cells: Seq<usize>,
    m: int,
    states: (CellState, CellState),
)
    requires
        0 <= m <= cells.len(),
        states_after(first, second, cells, m, states),
    ensures
        forall|k: int|
            0 <= k < strip_events(first, second, states, cells.subrange(m, cells.len() as int)).len()
                ==> bracketed(
                first,
                second,
                cells,
                #[trigger] strip_events(first, second, states, cells.subrange(m, cells.len() as int))[k],
            ),
    decreases cells.len() - m,
{
    let rest = cells.subrange(m, cells.len() as int);
    if m < cells.len() {
        lemma_transition(first, second, cells, m, states);
        let (next, found) = strip_transition(states, state_at(first, second, cells, m));
        lemma_events_bracket(first, second, cells, m + 1, next);
        assert(rest[0] == cells[m]);
        assert(rest.drop_first() =~= cells.subrange(m + 1, cells.len() as int));
        let all = strip_events(first, second, states, rest);
        let tail = strip_events(first, second, next, cells.subrange(m + 1, cells.len() as int));
        assert(all == match found {
            Some(event) => seq![event] + tail,
            None => tail,
        });
        assert forall|k: int| 0 <= k < all.len() implies bracketed(first, second, cells, #[trigger] all[k]) by {
            if let Some(event) = found {
                if k > 0 {
                    assert(all[k] == tail[k - 1]);
                }
            } else {
                assert(all[k] == tail[k]);
            }
        }
    } else {
        assert(rest.len() == 0);
    }
}

/// Every candidate of a strip is a bracketing placement along it: an empty cell next to a
/// line of at least one stone of the other player, which a stone of the candidate's
/// player closes.
pub proof fn lemma_strip_candidates_bracket(first: Seq<bool>, second: Seq<bool>, cells: Seq<usize>)
    ensures
        forall|k: int|
            0 <= k < strip_events(first, second, (CellState::Unset, CellState::Unset), cells).len()
                ==> bracketed(
                first,
                second,
                cells,
                #[trigger] strip_events(first, second, (CellState::Unset, CellState::Unset), cells)[k],
            ),
{
    assert(cells.subrange(0, cells.len() as int) =~= cells);
    lemma_events_bracket(first, second, cells, 0, (CellState::Unset, CellState::Unset));
}

/// The states that the strip reader holds after reading the first `m` cells.
pub open spec fn states_at(first: Seq<bool>, second: Seq<bool>, cells: Seq<usize>, m: int) -> (
    CellState,
    CellState,
) {
    if m <= 0 {
        (CellState::Unset, CellState::Unset)
    } else if run_start(first, second, cells, m) == 0 {
        (CellState::Unset, state_at(first, second, cells, m - 1))
    } else {
        (
            state_at(first, second, cells, run_start(first, second, cells, m) - 1),
            state_at(first, second, cells, m - 1),
        )
    }
}

/// A run of equal states from `r` to `m - 1`, after a different state, starts at `r`.
proof fn lemma_run_start_is(first: Seq<bool>, second: Seq<bool>, cells: Seq<usize>, m: int, r: int)
    requires
        0 < r < m,
        forall|t: int| r <= t < m ==> #[trigger] state_at(first, second, cells, t) == state_at(
            first,
            second,
            cells,
            m - 1,
        ),
        state_at(first, second, cells, r - 1) != state_at(first, second, cells, m - 1),
    ensures
        run_start(first, second, cells, m) == r,
    decreases m,
{
    if m - 1 > r {
        assert(state_at(first, second, cells, m - 2) == state_at(first, second, cells, m - 1));
        lemma_run_start_is(first, second, cells, m - 1, r);
    } else {
        assert(state_at(first, second, cells, m - 2) != state_at(first, second, cells, m - 1));
    }
}

/// A candidate that reading cell `target` reveals is among those that the cells from `m`
/// on reveal, read with the states that the first `m` cells leave.
proof fn lemma_event_appears(
    first: Seq<bool>,
    second: Seq<bool>,
    cells: Seq<usize>,
    m: int,
    target: int,
    event: (Player, usize),
)
    requires
        0 <= m <= target < cells.len(),
        strip_transition(
            states_at(first, second, cells, target),
            state_at(first, second, cells, target),
        ).1 == Some(event),
    ensures
        strip_events(
            first,
            second,
            states_at(first, second, cells, m),
            cells.subrange(m, cells.len() as int),
        ).contains(event),
    decreases target - m,
{
    let states = states_at(first, second, cells, m);
    let rest = cells.subrange(m, cells.len() as int);
    assert(states_after(first, second, cells, m, states));
    lemma_transition(first, second, cells, m, states);
    let (next, found) = strip_transition(states, state_at(first, second, cells, m));
    assert(next == states_at(first, second, cells, m + 1));
    assert(rest[0] == cells[m]);
    assert(rest.drop_first() =~= cells.subrange(m + 1, cells.len() as int));
    let tail = strip_events(first, second, next, cells.subrange(m + 1, cells.len() as int));
    let all = strip_events(first, second, states, rest);
    assert(all == match found {
        Some(e) => seq![e] + tail,
        None => tail,
    });
    if m == target {
        assert(all[0] == event);
    } else {
        lemma_event_appears(first, second, cells, m + 1, target, event);
        let k = choose|k: int| 0 <= k < tail.len() && tail[k] == event;
        if let Some(e) = found {
            assert(all[k + 1] == event);
        } else {
            assert(all[k] == event);
        }
    }
}

/// Every bracketing placement along a strip is a candidate of the strip: reading the
/// stone that closes the line of the other player's stones, or the empty cell after such
/// a line, reveals it.
pub proof fn lemma_brackets_are_candidates(
    first: Seq<bool>,
    second: Seq<bool>,
    cells: Seq<usize>,
    player: Player,
    a: int,
    b: int,
)
    requires
        brackets_along(first, second, cells, player, a, b),
        player < 2,
    ensures
        strip_events(first, second, (CellState::Unset, CellState::Unset), cells).contains(
            (player, cells[a]),
        ),
{
    let other = CellState::Player((1 - player) as u8);
    let target = if a < b {
        b
    } else {
        a
    };
    let r = if a < b {
        a + 1
    } else {
        b + 1
    };
    assert(state_at(first, second, cells, target - 1) == other);
    assert forall|t: int| r <= t < target implies #[trigger] state_at(first, second, cells, t)
        == state_at(first, second, cells, target - 1) by {}
    lemma_run_start_is(first, second, cells, target, r);
    let states = states_at(first, second, cells, target);
    if a < b {
        assert(states == (CellState::Empty { index: cells[a] }, other));
    } else {
        assert(states == (CellState::Player(player), other));
    }
    lemma_event_appears(first, second, cells, 0, target, (player, cells[a]));
    assert(cells.subrange(0, cells.len() as int) =~= cells);
}

/// All the cells of a strip, in order: `length` cells from `start` on, `step` apart.
pub open spec fn line_of(strip: Indices) -> Seq<usize> {
    Seq::new(strip.length as nat, |t: int| (strip.start + t * strip.step) as usize)
}

/// Placing a stone of `player` on cell `index` brackets stones along one of the strips,
/// read over all the cells of the strip.
pub open spec fn brackets_on_strips(
    first: Seq<bool>,
    second: Seq<bool>,
    strips: Seq<Indices>,
    player: Player,
    index: usize,
) -> bool {
    exists|s: int, a: int, b: int|
        0 <= s < strips.len() && #[trigger] brackets_along(
            first,
            second,
            line_of(strips[s]),
            player,
            a,
            b,
        ) && line_of(strips[s])[a] == index
}

/// Every candidate of the strips from `from` on brackets stones along one of them.
proof fn lemma_later_candidates_bracket(
    first: Seq<bool>,
    second: Seq<bool>,
    strips: Seq<Indices>,
    from: int,
)
    ensures
        forall|k: int|
            0 <= k < later_events(first, second, strips, from).len() ==> brackets_on_strips(
                first,
                second,
                strips,
                #[trigger] later_events(first, second, strips, from)[k].0,
                later_events(first, second, strips, from)[k].1,
            ),
    decreases strips.len() - from,
{
    if 0 <= from < strips.len() {
        let cells = full_cells(strips[from]);
        assert(cells =~= line_of(strips[from]));
        lemma_strip_candidates_bracket(first, second, cells);
        lemma_later_candidates_bracket(first, second, strips, from + 1);
        let head = strip_events(first, second, (CellState::Unset, CellState::Unset), cells);
        let tail = later_events(first, second, strips, from + 1);
        let all = later_events(first, second, strips, from);
        assert(all == head + tail);
        assert forall|k: int| 0 <= k < all.len() implies brackets_on_strips(
            first,
            second,
            strips,
            #[trigger] all[k].0,
            all[k].1,
        ) by {
            if k < head.len() {
                assert(all[k] == head[k]);
                assert(bracketed(first, second, cells, head[k]));
                let (a, b) = choose|a: int, b: int|
                    #[trigger] brackets_along(first, second, cells, head[k].0, a, b) && cells[a]
                        == head[k].1;
                assert(brackets_along(first, second, line_of(strips[from]), all[k].0, a, b));
            } else {
                assert(all[k] == tail[k - head.len()]);
            }
        }
    }
}

/// Every candidate ply of a reversi position brackets stones of the other player along a
/// strip of the board: its cell is empty, followed along the strip, on one side, by at
/// least one stone of the other player and then a stone of the candidate's player.
pub proof fn lemma_candidates_bracket(first: Seq<bool>, second: Seq<bool>, strips: Seq<Indices>)
    ensures
        forall|k: int|
            0 <= k < reversi_events(first, second, strips).len() ==> brackets_on_strips(
                first,
                second,
                strips,
                #[trigger] reversi_events(first, second, strips)[k].0,
                reversi_events(first, second, strips)[k].1,
            ),
{
    lemma_later_candidates_bracket(first, second, strips, 0);
}

/// The candidates of strip `s` are among those of the strips from `from` on, for `from`
/// up to `s`.
proof fn lemma_later_contains(
    first: Seq<bool>,
    second: Seq<bool>,
    strips: Seq<Indices>,
    from: int,
    s: int,
    event: (Player, usize),
)
    requires
        0 <= from <= s < strips.len(),
        strip_events(first, second, (CellState::Unset, CellState::Unset), full_cells(strips[s])).contains(
            event,
        ),
    ensures
        later_events(first, second, strips, from).contains(event),
    decreases s - from,
{
    let head = strip_events(first, second, (CellState::Unset, CellState::Unset), full_cells(strips[from]));
    let tail = later_events(first, second, strips, from + 1);
    let all = later_events(first, second, strips, from);
    assert(all == head + tail);
    if from == s {
        let k = choose|k: int| 0 <= k < head.len() && head[k] == event;
        assert(all[k] == event);
    } else {
        lemma_later_contains(first, second, strips, from + 1, s, event);
        let k = choose|k: int| 0 <= k < tail.len() && tail[k] == event;
        assert(all[head.len() + k] == event);
    }
}

/// The candidate plies of a reversi position are exactly the bracketing placements: a
/// player has a candidate on a cell if and only if placing a stone there brackets at least
/// one stone of the other player, along a strip of the board, with a stone of its own.
pub proof fn lemma_candidates_are_brackets(
    first: Seq<bool>,
    second: Seq<bool>,
    strips: Seq<Indices>,
    player: Player,
    index: usize,
)
    requires
        player < 2,
    ensures
        reversi_events(first, second, strips).contains((player, index)) <==> brackets_on_strips(
            first,
            second,
            strips,
            player,
            index,
        ),
{
    let events = reversi_events(first, second, strips);
    if events.contains((player, index)) {
        lemma_candidates_bracket(first, second, strips);
        let k = choose|k: int| 0 <= k < events.len() && events[k] == (player, index);
        assert(brackets_on_strips(first, second, strips, events[k].0, events[k].1));
    }
    if brackets_on_strips(first, second, strips, player, index) {
        let (s, a, b) = choose|s: int, a: int, b: int|
            0 <= s < strips.len() && #[trigger] brackets_along(
                first,
                second,
                line_of(strips[s]),
                player,
                a,
                b,
            ) && line_of(strips[s])[a] == index;
        assert(full_cells(strips[s]) =~= line_of(strips[s]));
        lemma_brackets_are_candidates(first, second, full_cells(strips[s]), player, a, b);
        lemma_later_contains(first, second, strips, 0, s, (player, index));
    }
}

/// Every candidate of the player to move is a placement that play accepts: its cell is on
/// the board and empty, and placing a stone there turns at least one stone of the opponent.
pub proof fn lemma_candidates_play<Variant: BaseVariant>(
    ruleset: Reversi<Variant>,
    state: State<Variant>,
    index: usize,
)
    requires
        ruleset.valid(),
        state.player_ok(),
        reversi_events(state.stones(0), state.stones(1), ruleset.strips@).contains(
            (state.current_player, index),
        ),
    ensures
        index < cell_count::<Variant>(),
        !occupied(state, index as int),
        ruleset.reversals(state, index as int).2,
{
    let first = state.stones(0);
    let second = state.stones(1);
    let strips = ruleset.strips@;
    let player = state.current_player;
    lemma_candidates_are_brackets(first, second, strips, player, index);
    let (s, a, b) = choose|s: int, a: int, b: int|
        0 <= s < strips.len() && #[trigger] brackets_along(first, second, line_of(strips[s]), player, a, b)
            && line_of(strips[s])[a] == index;
    let strip = strips[s];
    let cells = line_of(strip);
    crate::rulesets::reversi::ruleset::lemma_board::<Variant>();
    ruleset.lemma_strips_on_board();
    ruleset.lemma_strip_steps_positive();
    state.grids[0].lemma_len();
    state.grids[1].lemma_len();
    assert(board_strip_ok::<Variant>(strip));
    assert(strip.step > 0);
    let g = Variant::spec_grid_size();
    let own = own_stones(state);
    let opponent = opponent_stones(state);
    assert forall|t: int| 0 <= t < strip.length implies #[trigger] cells[t] as int == strip.start + t
        * strip.step by {
        assert(0 <= strip.start + t * strip.step < g * g);
    }
    assert(stone(own, strip.start + b * strip.step)) by {
        assert(cells[b] as int == strip.start + b * strip.step);
        assert(state_at(first, second, cells, b) == CellState::Player(player));
    }
    assert forall|t: int| (a < t < b || b < t < a) implies stone(
        opponent,
        #[trigger] (strip.start + t * strip.step),
    ) by {
        assert(state_at(first, second, cells, t) == CellState::Player((1 - player) as u8));
        assert(cells[t] as int == strip.start + t * strip.step);
    }
    lemma_strip_pegs_bracket(own, opponent, strip, a, b);
    assert(index as int == strip.start + a * strip.step) by {
        assert(cells[a] as int == strip.start + a * strip.step);
    }
    assert(state_at(first, second, cells, a) == (CellState::Empty { index: cells[a] }));
    lemma_all_pegs_found(own, opponent, index as int, strips, strips.len() as int, s);
}

/// The game goes on exactly while the player to move has a placement that brackets stones
/// of the other player along a strip of the board, read over all the cells of the strip.
pub proof fn lemma_ongoing_status<Variant: BaseVariant>(ruleset: Reversi<Variant>, state: State<Variant>)
    requires
        ruleset.valid(),
        state.player_ok(),
    ensures
        (ruleset.status_of(state) is Ongoing) <==> exists|c: usize|
            #[trigger] brackets_on_strips(
                state.stones(0),
                state.stones(1),
                ruleset.strips@,
                state.current_player,
                c,
            ),
{
    let first = state.stones(0);
    let second = state.stones(1);
    let strips = ruleset.strips@;
    let player = state.current_player;
    let events = reversi_events(first, second, strips);
    if exists|k: int| 0 <= k < events.len() && #[trigger] events[k].0 == player {
        let k = choose|k: int| 0 <= k < events.len() && #[trigger] events[k].0 == player;
        let c = events[k].1;
        lemma_candidates_are_brackets(first, second, strips, player, c);
        assert(events[k] == (player, c));
        assert(brackets_on_strips(first, second, strips, player, c));
    }
    if exists|c: usize| #[trigger] brackets_on_strips(first, second, strips, player, c) {
        let c = choose|c: usize| #[trigger] brackets_on_strips(first, second, strips, player, c);
        lemma_candidates_are_brackets(first, second, strips, player, c);
        let k = choose|k: int| 0 <= k < events.len() && events[k] == (player, c);
        assert(events[k].0 == player);
    }
}

/// The search for a playable candidate passes only candidates of the other player or on
/// marked cells, and stops on a playable one.
proof fn lemma_first_playable(events: Seq<(Player, usize)>, player: Player, seen: Seq<bool>, from: int)
    requires
        0 <= from <= events.len(),
    ensures
        from <= first_playable(events, player, seen, from) <= events.len(),
        first_playable(events, player, seen, from) < events.len() ==> events[first_playable(
            events,
            player,
            seen,
            from,
        )].0 == player && !seen[events[first_playable(events, player, seen, from)].1 as int],
        forall|k: int|
            from <= k < first_playable(events, player, seen, from) ==> #[trigger] events[k].0 != player
                || seen[events[k].1 as int],
    decreases events.len() - from,
{
    if from < events.len() && !(events[from].0 == player && !seen[events[from].1 as int]) {
        lemma_first_playable(events, player, seen, from + 1);
    }
}

/// What an iterator has read of the candidates of a state matches its marks: the
/// candidates left are the last ones, and a cell is marked exactly when a candidate of the
/// player to move on it was read.
pub open spec fn marks_read<Variant: BaseVariant>(
    iterator: PlyIterator<Variant>,
    ruleset: Reversi<Variant>,
    state: State<Variant>,
) -> bool {
    let events = reversi_events(state.stones(0), state.stones(1), ruleset.strips@);
    let pending = iterator.pending(state, ruleset.strips@);
    let read = events.len() - pending.len();
    &&& pending.len() <= events.len()
    &&& pending == events.subrange(read, events.len() as int)
    &&& iterator.seen@.len() == cell_count::<Variant>()
    &&& forall|c: int|
        0 <= c < cell_count::<Variant>() ==> (#[trigger] iterator.seen@[c] <==> exists|k: int|
            0 <= k < read && #[trigger] events[k] == (state.current_player, c as usize))
}

/// A fresh iterator has read nothing and marked nothing.
pub proof fn lemma_fresh_marks_read<Variant: BaseVariant>(
    iterator: PlyIterator<Variant>,
    ruleset: Reversi<Variant>,
    state: State<Variant>,
)
    requires
        iterator.fresh(&ruleset, state),
    ensures
        marks_read(iterator, ruleset, state),
{
    let events = reversi_events(state.stones(0), state.stones(1), ruleset.strips@);
    assert(events.subrange(0, events.len() as int) =~= events);
}

/// One step of a reversi ply iterator keeps its marks in step with what it read, yields a
/// cell that it had not yielded before, on which the player to move has a candidate that
/// play accepts, and, once it yields nothing, has marked exactly the cells on which that
/// player has a candidate: the placements of that player that bracket stones of the other
/// along a strip of the board, read over all the cells of the strip.
pub proof fn lemma_step_marks<Variant: BaseVariant>(
    iterator: PlyIterator<Variant>,
    ruleset: Reversi<Variant>,
    state: State<Variant>,
    ply: Option<Ply<Variant>>,
    next: PlyIterator<Variant>,
)
    requires
        ruleset.valid(),
        state.player_ok(),
        marks_read(iterator, ruleset, state),
        iterator.advances(&ruleset, state, ply, next),
    ensures
        marks_read(next, ruleset, state),
        ply matches Some(p) ==> (p matches Ply::Place(c) && c < cell_count::<Variant>()
            && !iterator.seen@[c as int] && next.seen@[c as int] && reversi_events(
            state.stones(0),
            state.stones(1),
            ruleset.strips@,
        ).contains((state.current_player, c))),
        ply matches Some(p) ==> (p matches Ply::Place(c) && !occupied(state, c as int)
            && ruleset.reversals(state, c as int).2),
        forall|c: int| 0 <= c < cell_count::<Variant>() && #[trigger] iterator.seen@[c] ==> next.seen@[c],
        iterator.pending(state, ruleset.strips@).len() == 0 ==> ply is None,
        ply is None ==> next.pending(state, ruleset.strips@).len() == 0,
        ply is None ==> forall|c: int|
            0 <= c < cell_count::<Variant>() ==> (#[trigger] next.seen@[c] <==> brackets_on_strips(
                state.stones(0),
                state.stones(1),
                ruleset.strips@,
                state.current_player,
                c as usize,
            )),
{
    let first = state.stones(0);
    let second = state.stones(1);
    let strips = ruleset.strips@;
    let events = reversi_events(first, second, strips);
    let player = state.current_player;
    let pending = iterator.pending(state, strips);
    let read = events.len() - pending.len();
    let seen = iterator.seen@;
    let i = first_playable(pending, player, seen, 0);
    crate::rulesets::reversi::ruleset::lemma_board::<Variant>();
    lemma_first_playable(pending, player, seen, 0);
    ruleset.lemma_strips_on_board();
    lemma_later_events_in_grid::<Variant>(first, second, strips, 0);
    assert forall|j: int| 0 <= j < pending.len() implies #[trigger] pending[j] == events[read + j] by {}
    if i < pending.len() {
        let c = pending[i].1;
        assert(pending[i] == events[read + i]);
        assert(c < cell_count::<Variant>());
        let next_pending = next.pending(state, strips);
        assert(next_pending =~= events.subrange(read + i + 1, events.len() as int));
        assert(next.seen@ == seen.update(c as int, true));
        assert forall|d: int| 0 <= d < cell_count::<Variant>() implies (#[trigger] next.seen@[d]
            <==> exists|k: int| 0 <= k < read + i + 1 && #[trigger] events[k] == (player, d as usize)) by {
            if d == c as int {
                assert(events[read + i] == (player, d as usize));
                assert(next.seen@[d]);
            } else {
                assert(next.seen@[d] == seen[d]);
                if seen[d] {
                    let k = choose|k: int| 0 <= k < read && #[trigger] events[k] == (player, d as usize);
                    assert(0 <= k < read + i + 1 && events[k] == (player, d as usize));
                }
                if exists|k: int| 0 <= k < read + i + 1 && #[trigger] events[k] == (player, d as usize) {
                    let k = choose|k: int|
                        0 <= k < read + i + 1 && #[trigger] events[k] == (player, d as usize);
                    if k < read {
                        assert(seen[d]);
                    } else if k < read + i {
                        let j = k - read;
                        assert(pending[j] == events[k]);
                        assert(pending[j].0 != player || seen[pending[j].1 as int]);
                        assert(seen[d]);
                    } else {
                        assert(events[k] == pending[i]);
                        assert(d as usize == c);
                        assert(false);
                    }
                }
            }
        }
        assert(events.contains((player, c))) by {
            assert(events[read + i] == (player, c));
        }
        lemma_candidates_play(ruleset, state, c);
        assert(events.len() - next_pending.len() == read + i + 1);
        assert(next.seen@.len() == cell_count::<Variant>());
    } else {
        assert(next.seen@ == seen);
        assert(next.pending(state, strips) =~= events.subrange(events.len() as int, events.len() as int));
        assert forall|d: int| 0 <= d < cell_count::<Variant>() implies (#[trigger] next.seen@[d]
            <==> brackets_on_strips(first, second, strips, player, d as usize)) by {
            lemma_candidates_are_brackets(first, second, strips, player, d as usize);
            if events.contains((player, d as usize)) {
                let k = choose|k: int| 0 <= k < events.len() && events[k] == (player, d as usize);
                if k >= read {
                    let j = k - read;
                    assert(pending[j] == events[k]);
                    assert(pending[j].0 != player || seen[pending[j].1 as int]);
                    assert(seen[d]);
                } else {
                    assert(seen[d]);
                }
            }
            if seen[d] {
                let k = choose|k: int| 0 <= k < read && #[trigger] events[k] == (player, d as usize);
                assert(events.contains((player, d as usize)));
            }
        }
        assert forall|d: int| 0 <= d < cell_count::<Variant>() implies (#[trigger] next.seen@[d]
            <==> exists|k: int| 0 <= k < events.len() && #[trigger] events[k] == (player, d as usize)) by {
            if seen[d] {
                let k = choose|k: int| 0 <= k < read && #[trigger] events[k] == (player, d as usize);
                assert(0 <= k < events.len());
            }
            if exists|k: int| 0 <= k < events.len() && #[trigger] events[k] == (player, d as usize) {
                let k = choose|k: int| 0 <= k < events.len() && #[trigger] events[k] == (player, d as usize);
                if k >= read {
                    let j = k - read;
                    assert(pending[j] == events[k]);
                    assert(pending[j].0 != player || seen[pending[j].1 as int]);
                }
                assert(seen[d]);
            }
        }
    }
}

} // verus!
