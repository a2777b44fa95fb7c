use board_games::rulesets::connectn;
use board_games::rulesets::reversi;
use board_games::rulesets::{RuleSetTrait, Status};
use board_games::tools::playing::play_turn;
use board_games::tools::plies::{BasicIterator, PermutationsIterator};

#[test]
fn test_mini_reversi() {
    let ruleset = connectn::TicTacToe::new();
    let state = ruleset.initial_state();
    let mut iterator = PermutationsIterator::new(&ruleset, &state);
    let mut result = Vec::new();
    while let Some(ply) = iterator.next() {
        result.push(ply);
    }
    result.sort();
    let expected = vec![
        connectn::Ply::new(0),
        connectn::Ply::new(1),
        connectn::Ply::new(4),
    ];
    assert_eq!(result, expected);
}

#[test]
fn permutations_iterator_after_a_corner() {
    let ruleset = connectn::TicTacToe::new();
    let state = connectn::TicTacToeState::from_indices(&[0], &[], 1);
    let mut iterator = PermutationsIterator::new(&ruleset, &state);
    let mut result = Vec::new();
    while let Some(ply) = iterator.next() {
        result.push(ply.index);
    }
    result.sort();
    // The diagonal through the corner is the only symmetry left besides the identity.
    assert_eq!(result, vec![1, 2, 4, 5, 8]);
    assert_eq!(iterator.permutations.len(), 2);
}

#[test]
fn permutations_iterator_without_symmetry() {
    let ruleset = connectn::TicTacToe::new();
    let state = connectn::TicTacToeState::from_indices(&[0], &[1], 0);
    let mut iterator = PermutationsIterator::new(&ruleset, &state);
    let mut result = Vec::new();
    while let Some(ply) = iterator.next() {
        result.push(ply.index);
    }
    assert_eq!(result, vec![2, 3, 4, 5, 6, 7, 8]);
    assert_eq!(iterator.permutations.len(), 1);
}

#[test]
fn basic_iterator_yields_the_ply_iterator() {
    let ruleset = connectn::TicTacToe::new();
    let state = connectn::TicTacToeState::from_indices(&[0, 4], &[8], 1);
    let mut iterator: BasicIterator<_, connectn::PlyIterator<_>> =
        BasicIterator::new(&ruleset, &state);
    let mut result = Vec::new();
    while let Some(ply) = iterator.next() {
        result.push(ply.index);
    }
    assert_eq!(result, vec![1, 2, 3, 5, 6, 7]);
}

#[test]
fn basic_iterator_over_reversi() {
    let ruleset = reversi::Reversi::<reversi::Classic>::new();
    let state = ruleset.initial_state();
    let mut iterator: BasicIterator<_, reversi::PlyIterator<_>> =
        BasicIterator::new(&ruleset, &state);
    let mut result = Vec::new();
    while let Some(ply) = iterator.next() {
        match ply {
            reversi::Ply::Place(index) => result.push(index),
            _ => panic!("the iterator only yields placements"),
        }
    }
    result.sort();
    assert_eq!(result, vec![20, 29, 34, 43]);
}

#[test]
fn play_turn_records_the_game() {
    let ruleset = connectn::TicTacToe::new();
    let mut history = Vec::new();
    let mut state = ruleset.initial_state();
    let mut status = Status::Ongoing;
    for index in [0u8, 3, 1, 4, 2] {
        let (next, next_status) =
            play_turn(&ruleset, &mut history, &state, &connectn::Ply::new(index)).unwrap();
        state = next;
        status = next_status;
    }
    assert_eq!(status, Status::Win { player: 0 });
    assert_eq!(history.len(), 5);
    assert_eq!(history[4].1, connectn::Ply::new(2));
    assert_eq!(history[4].0, state);
    let refused = play_turn(&ruleset, &mut history, &state, &connectn::Ply::new(0));
    assert!(refused.is_err());
    assert_eq!(history.len(), 5);
}
