use board_games::rulesets::tictactoe::game::TicTacToe;
use board_games::rulesets::tictactoe::{Ply, SequentialPlyIterator, State};
use board_games::rulesets::{EmptyState, PlayerStatus, StateTrait, Status};
use std::collections::HashSet;

#[test]
fn test_available_plies_new_game() {
    let game = TicTacToe {};
    let state = game.initial_state();
    let available_plies = game.available_plies(&state);
    let expected: Vec<Ply> = (0..9).map(|index| Ply { index }).collect();
    assert_eq!(available_plies, expected);
}

#[test]
fn test_available_plies_played_move() {
    let game = TicTacToe {};
    let state = game.initial_state();
    let ply = Ply { index: 3 };
    let available_plies = game.available_plies(&state);
    assert!(available_plies.contains(&ply));
    let resulting_state = game.play(&state, &ply).unwrap();
    let resulting_plies = game.available_plies(&resulting_state);
    assert!(!resulting_plies.contains(&ply));
}

#[test]
fn game_test_invalid_move() {
    let game = TicTacToe {};
    let state = game.initial_state();
    let ply = Ply { index: 3 };
    let resulting_state = game.play(&state, &ply).unwrap();
    let result = game.play(&resulting_state, &ply);
    assert!(result.is_err());
}

#[test]
fn sequential_test_iterate() {
    let state = State::from_indices(&[4, 1], &[6, 7], 0);
    let mut iterator = SequentialPlyIterator::new(state);
    let expected: HashSet<Ply> = [
        Ply { index: 0 },
        Ply { index: 2 },
        Ply { index: 3 },
        Ply { index: 5 },
        Ply { index: 8 },
    ]
    .iter()
    .cloned()
    .collect();
    let mut result = HashSet::new();
    while let Some(ply) = iterator.next() {
        result.insert(ply);
    }
    assert_eq!(result, expected);
}

#[test]
fn available_plies_in_increasing_order() {
    let game = TicTacToe {};
    let state = State::from_indices(&[0, 4], &[8], 0);
    let plies = game.available_plies(&state).iter().map(|ply| ply.index).collect::<Vec<_>>();
    assert_eq!(plies, vec![1, 2, 3, 5, 6, 7]);
}

#[test]
fn status_player_pov() {
    let win = Status::Win { player: 1 };
    assert_eq!(win.player_pov(&1), PlayerStatus::Win);
    assert_eq!(win.player_pov(&0), PlayerStatus::Loss);
    assert_eq!(Status::Draw.player_pov(&0), PlayerStatus::Draw);
    assert_eq!(Status::Ongoing.player_pov(&1), PlayerStatus::Ongoing);
}

#[test]
fn empty_state_starts_with_player_zero() {
    let state = EmptyState::new();
    assert_eq!(state.current_player(), 0);
}


#[test]
fn tictactoe_state_test_is_empty_empty() {
    let state = State::new();
    for index in 0..9 {
        assert!(state.is_empty(index));
    }
}

#[test]
fn tictactoe_state_test_is_empty_filled() {
    let state = State::from_indices(&[4, 1], &[0, 8], 0);
    assert!(!state.is_empty(0));
    assert!(!state.is_empty(1));
    assert!(state.is_empty(2));
    assert!(!state.is_empty(8));
}

#[test]
fn tictactoe_state_test_from_indices() {
    let from_indices = State::from_indices(&[4, 1], &[8, 7], 0);
    let mut from_scratch = State::new();
    for index in &[4, 8, 1, 7] {
        from_scratch.play(&Ply { index: *index }).unwrap();
    }
    assert_eq!(from_indices, from_scratch);
}
