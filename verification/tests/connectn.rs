use board_games::rulesets::display::row_and_column;
use board_games::rulesets::connectn;
use board_games::rulesets::connectn::variants;
use board_games::rulesets::{
    gomoku, ninarow, tictactoe, Permutable, PermutationIteratorTrait, PlyIteratorTrait,
    RuleSetTrait, Status,
};
use std::collections::HashSet;

#[test]
fn ruleset_test_invalid_move() {
    let game = connectn::TicTacToe::new();
    let state = game.initial_state();
    let ply = connectn::Ply::new(3);
    let resulting_state = game.play(&state, &ply).unwrap();
    let result = game.play(&resulting_state, &ply);
    assert!(result.is_err());

    let game = gomoku::RuleSet::new();
    let state = game.initial_state();
    let ply = connectn::Ply::new(3);
    let resulting_state = game.play(&state, &ply).unwrap();
    let result = game.play(&resulting_state, &ply);
    assert!(result.is_err());

    let game = ninarow::TicTacToe::new();
    let state = game.initial_state();
    let ply = connectn::Ply::new(3);
    let resulting_state = game.play(&state, &ply).unwrap();
    let result = game.play(&resulting_state, &ply);
    assert!(result.is_err());

    let game = tictactoe::TicTacToe::new();
    let state = game.initial_state();
    let ply = tictactoe::Ply { index: 3 };
    let resulting_state = game.play(&state, &ply).unwrap();
    let result = game.play(&resulting_state, &ply);
    assert!(result.is_err());
}

fn connectn_status(p1: &[usize], p2: &[usize], current_player: u8) -> Status {
    let game = connectn::TicTacToe::new();
    let state = connectn::TicTacToeState::from_indices(p1, p2, current_player);
    game.status(&state)
}

fn ninarow_status(p1: &[usize], p2: &[usize], current_player: u8) -> Status {
    let game = ninarow::TicTacToe::new();
    let state = connectn::TicTacToeState::from_indices(p1, p2, current_player);
    game.status(&state)
}

fn tictactoe_status(p1: &[usize], p2: &[usize], current_player: u8) -> Status {
    let game = tictactoe::TicTacToe::new();
    let state = tictactoe::State::from_indices(p1, p2, current_player);
    game.status(&state)
}

#[test]
fn connectn_status_new_game() {
    assert_eq!(connectn_status(&[], &[], 0), Status::Ongoing);
}

#[test]
fn connectn_status_ongoing() {
    assert_eq!(connectn_status(&[4, 1, 6, 5], &[8, 7, 2], 1), Status::Ongoing);
}

#[test]
fn connectn_status_p1_win() {
    assert_eq!(connectn_status(&[4, 1, 0, 2], &[5, 7, 8], 1), Status::Win { player: 0 });
}

#[test]
fn connectn_status_p2_win() {
    assert_eq!(connectn_status(&[1, 2, 5], &[4, 0, 8], 0), Status::Win { player: 1 });
}

#[test]
fn connectn_status_draw() {
    assert_eq!(connectn_status(&[4, 1, 6, 5], &[8, 7, 2, 3], 0), Status::Draw);
}

#[test]
fn ninarow_status_cases() {
    assert_eq!(ninarow_status(&[], &[], 0), Status::Ongoing);
    assert_eq!(ninarow_status(&[4, 1, 6, 5], &[8, 7, 2], 1), Status::Ongoing);
    assert_eq!(ninarow_status(&[4, 1, 0, 2], &[5, 7, 8], 1), Status::Win { player: 0 });
    assert_eq!(ninarow_status(&[1, 2, 5], &[4, 0, 8], 0), Status::Win { player: 1 });
    assert_eq!(ninarow_status(&[4, 1, 6, 5], &[8, 7, 2, 3], 0), Status::Draw);
}

#[test]
fn tictactoe_status_cases() {
    assert_eq!(tictactoe_status(&[], &[], 0), Status::Ongoing);
    assert_eq!(tictactoe_status(&[4, 1, 6, 5], &[8, 7, 2], 1), Status::Ongoing);
    assert_eq!(tictactoe_status(&[4, 1, 0, 2], &[5, 7, 8], 1), Status::Win { player: 0 });
    assert_eq!(tictactoe_status(&[1, 2, 5], &[4, 0, 8], 0), Status::Win { player: 1 });
    assert_eq!(tictactoe_status(&[4, 1, 6, 5], &[8, 7, 2, 3], 0), Status::Draw);
}

#[test]
fn gomoku_status_five_in_a_row() {
    let game = gomoku::RuleSet::new();
    let row = connectn::GomokuState::from_indices(&[30, 31, 32, 33, 34], &[0, 1, 2, 3], 1);
    assert_eq!(game.status(&row), Status::Win { player: 0 });
    let four = connectn::GomokuState::from_indices(&[30, 31, 32, 33], &[0, 1, 2, 3], 0);
    assert_eq!(game.status(&four), Status::Ongoing);
    let connect = connectn::Gomoku::new();
    let diagonal = connectn::GomokuState::from_indices(&[1], &[0, 16, 32, 48, 64], 0);
    assert_eq!(connect.status(&diagonal), Status::Win { player: 1 });
}

#[test]
fn test_swap_state() {
    let game = connectn::TicTacToe::new();
    let state = connectn::TicTacToeState::from_indices(&[1, 2, 4, 7], &[0, 3, 6], 1);
    let mut permutations = <connectn::SymmetryIterator as PermutationIteratorTrait<
        connectn::TicTacToe,
    >>::new(&game);
    let mut permutation_set = HashSet::new();
    while let Some(permutation) = permutations.next() {
        let permuted = game.swap_state(&state, &permutation);
        let reverse = game.reverse_state(&permuted, &permutation);
        permutation_set.insert(permuted);
        assert_eq!(state, reverse);
    }
    assert_eq!(permutation_set.len(), 16);
}

#[test]
fn swap_ply_follows_swap_state() {
    let game = connectn::TicTacToe::new();
    let state = connectn::TicTacToeState::from_indices(&[1], &[], 0);
    for index in 0..8u8 {
        let permutation = connectn::Permutation { grid_permutation_index: index, switched_players: false };
        let ply = game.swap_ply(&connectn::Ply::new(1), &permutation);
        let swapped = game.swap_state(&state, &permutation);
        assert!(!swapped.is_empty(ply.index as usize));
    }
    assert_eq!(game.grid_symmetry_count(), 8);
}

#[test]
fn symmetries_commute_with_play() {
    let game = connectn::TicTacToe::new();
    let state = connectn::TicTacToeState::from_indices(&[0, 5], &[4], 1);
    let ply = connectn::Ply::new(2);
    let played = game.play(&state, &ply).unwrap();
    for index in 0..8u8 {
        for switched_players in [false, true] {
            let permutation = connectn::Permutation {
                grid_permutation_index: index,
                switched_players,
            };
            let swapped_after = game.swap_state(&played, &permutation);
            let swapped_before = game.swap_state(&state, &permutation);
            let image_ply = game.swap_ply(&ply, &permutation);
            let played_after = game.play(&swapped_before, &image_ply).unwrap();
            assert_eq!(swapped_after, played_after);
            let occupied = game.swap_ply(&connectn::Ply::new(4), &permutation);
            assert!(game.play(&swapped_before, &occupied).is_err());
        }
    }
}

#[test]
fn state_test_is_empty_empty() {
    let state = connectn::State::<variants::TicTacToe>::new();
    for index in 0..9 {
        assert!(state.is_empty(index));
    }
}

#[test]
fn state_test_is_empty_filled() {
    let state = connectn::State::<variants::TicTacToe>::from_indices(&[4, 1], &[0, 8], 0);
    assert!(!state.is_empty(0));
    assert!(!state.is_empty(1));
    assert!(state.is_empty(2));
    assert!(!state.is_empty(8));
}

#[test]
fn state_test_from_indices() {
    let from_indices = connectn::State::<variants::TicTacToe>::from_indices(&[4, 1], &[8, 7], 0);
    let mut from_scratch = connectn::State::<variants::TicTacToe>::new();
    for index in &[4, 8, 1, 7] {
        from_scratch.play(&connectn::Ply::new(*index)).unwrap();
    }
    assert_eq!(from_indices, from_scratch);
}

#[test]
fn state_play_on_occupied_cell_keeps_state() {
    let mut state = connectn::State::<variants::TicTacToe>::from_indices(&[4], &[], 1);
    let before = state;
    let error = state.play(&connectn::Ply::new(4)).unwrap_err();
    assert_eq!(error.message, "Cell is occupied");
    assert_eq!(error.field, "index");
    assert_eq!(state, before);
}

#[test]
fn ply_iterators_test_iterate() {
    let ruleset = connectn::TicTacToe::new();
    let state = connectn::TicTacToeState::from_indices(&[4, 1], &[6, 7], 0);
    let mut iterator = connectn::PlyIterator::new(&ruleset, &state);
    let expected: HashSet<connectn::Ply<variants::TicTacToe>> = [
        connectn::Ply::new(0),
        connectn::Ply::new(2),
        connectn::Ply::new(3),
        connectn::Ply::new(5),
        connectn::Ply::new(8),
    ]
    .iter()
    .cloned()
    .collect();
    let mut result = HashSet::new();
    while let Some(ply) = iterator.iterate(&ruleset, &state) {
        result.insert(ply);
    }
    assert_eq!(result, expected);
}

fn expected_symmetries() -> HashSet<connectn::Symmetry> {
    (0u8..8)
        .flat_map(|index| {
            std::iter::once(connectn::Symmetry { grid_permutation_index: index, switched_players: false })
                .chain(std::iter::once(connectn::Symmetry {
                    grid_permutation_index: index,
                    switched_players: true,
                }))
        })
        .collect::<HashSet<_>>()
}

#[test]
fn symmetry_iterators_test_permutations() {
    let ruleset = connectn::TicTacToe::new();
    let mut iterator =
        <connectn::SymmetryIterator as PermutationIteratorTrait<connectn::TicTacToe>>::new(&ruleset);
    let mut result = HashSet::new();
    while let Some(symmetry) = iterator.next() {
        result.insert(symmetry);
    }
    assert_eq!(result, expected_symmetries());
}

#[test]
fn permutation_iterators_test_permutations() {
    let ruleset = connectn::TicTacToe::new();
    let mut iterator =
        <connectn::PermutationIterator as PermutationIteratorTrait<connectn::TicTacToe>>::new(
            &ruleset,
        );
    let mut result = HashSet::new();
    let mut count = 0;
    while let Some(permutation) = iterator.next() {
        result.insert(permutation);
        count += 1;
    }
    assert_eq!(count, 16);
    assert_eq!(result, expected_symmetries());
}

#[test]
fn gomoku_sequential_iterator_skips_stones() {
    let state = connectn::GomokuState::from_indices(&[0, 2], &[1], 1);
    let mut iterator = gomoku::SequentialPlyIterator::new(state);
    assert_eq!(iterator.next().map(|ply| ply.index), Some(3));
    assert_eq!(iterator.next().map(|ply| ply.index), Some(4));
    let mut count = 2;
    while iterator.next().is_some() {
        count += 1;
    }
    assert_eq!(count, 222);
}

#[test]
fn grid_text_draws_rows() {
    let state = connectn::TicTacToeState::from_indices(&[0, 4], &[8], 1);
    let text: String = board_games::rulesets::display::grid_text(&state.grids[0], &state.grids[1], 3)
        .into_iter()
        .collect();
    assert_eq!(text, "X..\n.X.\n..O\n");
}

#[test]
fn plies_encode_as_cell_indices() {
    let game = connectn::TicTacToe::new();
    let ply = game.decode_ply(7);
    assert_eq!(ply, connectn::Ply::new(7));
    assert_eq!(game.encode_ply(&ply), 7);
    assert_eq!(game.decode_ply(256 + 3), connectn::Ply::new(3));
}

#[test]
fn row_and_column_of_cells() {
    assert_eq!(row_and_column(7, 3), (2, 1));
    assert_eq!(row_and_column(0, 15), (0, 0));
    assert_eq!(row_and_column(224, 15), (14, 14));
}
