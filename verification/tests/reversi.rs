use board_games::rulesets::reversi::{
    Classic, Micro, Mini, Permutation, PermutationIterator, Ply, PlyIterator, Reversi, State,
    Symmetry, SymmetryIterator,
};
use board_games::rulesets::{PlyIteratorTrait, RuleSetTrait, Status};
use std::collections::HashSet;

#[test]
fn test_initial_state() {
    let ruleset = Reversi::<Classic>::new();
    let state = ruleset.initial_state();
    let mut iterator = PlyIterator::new(&ruleset, &state);
    let mut result = HashSet::<Ply<Classic>>::new();
    while let Some(ply) = iterator.iterate(&ruleset, &state) {
        result.insert(ply);
    }
    let expected: HashSet<Ply<Classic>> = [
        Ply::<Classic>::Place(29),
        Ply::<Classic>::Place(34),
        Ply::<Classic>::Place(20),
        Ply::<Classic>::Place(43),
    ]
    .iter()
    .cloned()
    .collect();
    assert_eq!(result, expected);
}

fn classic_plies(p1: &[usize], p2: &[usize], current_player: u8) -> Vec<usize> {
    let ruleset = Reversi::<Classic>::new();
    let state = State::<Classic>::from_indices(p1, p2, current_player);
    let mut iterator = PlyIterator::new(&ruleset, &state);
    let mut result = Vec::new();
    while let Some(ply) = iterator.iterate(&ruleset, &state) {
        match ply {
            Ply::Place(index) => result.push(index),
            _ => panic!("the iterator only yields placements"),
        }
    }
    result.sort();
    result
}

#[test]
fn single_in_between() {
    assert_eq!(classic_plies(&[2], &[1], 0), vec![0]);
}

#[test]
fn several_in_between() {
    assert_eq!(classic_plies(&[5], &[1, 2, 3, 4], 0), vec![0]);
}

#[test]
fn duplicates() {
    assert_eq!(classic_plies(&[2, 16], &[1, 8], 0), vec![0]);
}

#[test]
fn none() {
    assert_eq!(classic_plies(&[0, 1, 2, 3], &[4, 5, 6, 7], 0), Vec::<usize>::new());
}

#[test]
fn each_player_gets_its_own_plies() {
    assert_eq!(classic_plies(&[2], &[1], 1), vec![3]);
    assert_eq!(classic_plies(&[1], &[2], 1), vec![0]);
}

#[test]
fn test_play_on_occupied_cell() {
    let game = Reversi::<Mini>::new();
    let state = State::<Mini>::from_indices(&[5, 10], &[6, 9], 0);
    let ply = Ply::<Mini>::Place(5);
    let result = game.play(&state, &ply);
    assert!(result.is_err());
}

#[test]
fn test_play_on_non_reversing_cell() {
    let game = Reversi::<Mini>::new();
    let state = State::<Mini>::from_indices(&[5, 10], &[6, 9], 0);
    let ply = Ply::<Mini>::Place(4);
    let result = game.play(&state, &ply);
    assert!(result.is_err());
}

#[test]
fn play_errors_name_their_cause() {
    let game = Reversi::<Micro>::new();
    let state = State::<Micro>::from_indices(&[5, 10], &[6, 9], 0);
    let occupied = game.play(&state, &Ply::<Micro>::Place(5)).unwrap_err();
    assert_eq!(occupied.message, "Cell is occupied");
    assert_eq!(occupied.field, "index");
    let lonely = game.play(&state, &Ply::<Micro>::Place(0)).unwrap_err();
    assert_eq!(lonely.message, "No reversal resulting from the peg placement");
    assert_eq!(lonely.field, "index");
}

fn micro_play(
    p1: &[usize],
    p2: &[usize],
    player: u8,
    index: usize,
    q1: &[usize],
    q2: &[usize],
    next_player: u8,
) {
    let game = Reversi::<Micro>::new();
    let state = State::<Micro>::from_indices(p1, p2, player);
    let resulting_state = game.play(&state, &Ply::<Micro>::Place(index)).unwrap();
    let expected = State::<Micro>::from_indices(q1, q2, next_player);
    assert_eq!(resulting_state, expected);
}

#[test]
fn downward_take() {
    micro_play(&[5, 10], &[6, 9], 0, 13, &[5, 9, 10, 13], &[6], 1);
}

#[test]
fn leftward_take() {
    micro_play(&[5, 10], &[6, 9], 0, 7, &[5, 6, 7, 10], &[9], 1);
}

#[test]
fn rightward_take() {
    micro_play(&[5, 10], &[6, 9], 0, 8, &[5, 8, 9, 10], &[6], 1);
}

#[test]
fn upward_take() {
    micro_play(&[5, 10], &[6, 9], 0, 2, &[2, 5, 6, 10], &[9], 1);
}

#[test]
fn diagonal_takes() {
    micro_play(&[12], &[9], 0, 6, &[6, 9, 12], &[], 1);
    micro_play(&[15], &[10], 0, 5, &[5, 10, 15], &[], 1);
    micro_play(&[6], &[9], 0, 12, &[6, 9, 12], &[], 1);
    micro_play(&[5], &[10], 0, 15, &[5, 10, 15], &[], 1);
}

#[test]
fn several_take() {
    micro_play(&[2, 8, 10], &[1, 4, 5], 0, 0, &[0, 1, 2, 4, 5, 8, 10], &[], 1);
}

#[test]
fn second_player_takes() {
    micro_play(&[5, 10], &[6, 9], 1, 4, &[10], &[4, 5, 6, 9], 0);
}

#[test]
fn pass_keeps_the_state() {
    let game = Reversi::<Micro>::new();
    let state = State::<Micro>::from_indices(&[5, 10], &[6, 9], 1);
    let result = game.play(&state, &Ply::<Micro>::Pass).unwrap();
    assert_eq!(result, state);
}

fn micro_status(p1: &[usize], p2: &[usize], current_player: u8) -> Status {
    let game = Reversi::<Micro>::new();
    let state = State::<Micro>::from_indices(p1, p2, current_player);
    game.status(&state)
}

#[test]
fn status_initial_state() {
    assert_eq!(micro_status(&[5, 10], &[6, 9], 0), Status::Ongoing);
}

#[test]
fn status_p1_win() {
    assert_eq!(
        micro_status(&[0, 1, 2, 4, 4, 5, 7, 8], &[13, 14, 15], 0),
        Status::Win { player: 0 }
    );
}

#[test]
fn status_p2_win() {
    assert_eq!(
        micro_status(&[0, 1, 4], &[3, 6, 7, 9, 11, 12, 13, 14], 0),
        Status::Win { player: 1 }
    );
}

#[test]
fn status_draw() {
    assert_eq!(
        micro_status(&[1, 2, 3, 4, 6], &[9, 11, 12, 13, 14], 0),
        Status::Draw
    );
}

#[test]
fn status_of_a_full_grid_counts_stones() {
    let all: Vec<usize> = (0..16).collect();
    assert_eq!(micro_status(&all[..9], &all[9..], 0), Status::Win { player: 0 });
    assert_eq!(micro_status(&all[..8], &all[8..], 1), Status::Draw);
}

#[test]
fn initial_states_of_the_variants() {
    let micro = Reversi::<Micro>::new().initial_state();
    assert_eq!(micro, State::<Micro>::from_indices(&[5, 10], &[6, 9], 0));
    let mini = Reversi::<Mini>::new().initial_state();
    assert_eq!(mini, State::<Mini>::from_indices(&[14, 21], &[15, 20], 0));
    let classic = Reversi::<Classic>::new().initial_state();
    assert_eq!(classic, State::<Classic>::from_indices(&[27, 36], &[28, 35], 0));
}

#[test]
fn test_symmetrys() {
    let ruleset = Reversi::<Mini>::new();
    let mut iterator = SymmetryIterator::new(&ruleset);
    let mut result = HashSet::new();
    while let Some(symmetry) = iterator.next() {
        result.insert(symmetry);
    }
    let expected = (0u8..8)
        .flat_map(|index| {
            std::iter::once(Symmetry {
                grid_symmetry_index: index,
                switched_players: false,
            })
            .chain(std::iter::once(Symmetry {
                grid_symmetry_index: index,
                switched_players: true,
            }))
        })
        .collect::<HashSet<_>>();
    assert_eq!(result, expected);
}

#[test]
fn reversi_permutation_iterators_test_permutations() {
    let ruleset = Reversi::<Mini>::new();
    let mut iterator = PermutationIterator::new(&ruleset);
    let mut result = HashSet::new();
    while let Some(permutation) = iterator.next() {
        result.insert(permutation);
    }
    let expected = (0u8..8)
        .flat_map(|index| {
            std::iter::once(Permutation {
                grid_permutation_index: index,
                switched_players: false,
            })
            .chain(std::iter::once(Permutation {
                grid_permutation_index: index,
                switched_players: true,
            }))
        })
        .collect::<HashSet<_>>();
    assert_eq!(result, expected);
}

#[test]
fn permutation_iterator_order() {
    let ruleset = Reversi::<Micro>::new();
    let mut iterator = PermutationIterator::new(&ruleset);
    let first = iterator.next().unwrap();
    assert_eq!(
        first,
        Permutation {
            grid_permutation_index: 7,
            switched_players: false
        }
    );
    let second = iterator.next().unwrap();
    assert_eq!(
        second,
        Permutation {
            grid_permutation_index: 7,
            switched_players: true
        }
    );
    let mut count = 2;
    while iterator.next().is_some() {
        count += 1;
    }
    assert_eq!(count, 16);
    assert_eq!(ruleset.grid_symmetry_count(), 8);
}

#[test]
fn state_swap_moves_both_grids() {
    let state = State::<Micro>::from_indices(&[0, 1], &[2], 0);
    let permutation: Vec<usize> = (0..16).rev().collect();
    let swapped = state.swap(&permutation, false);
    assert_eq!(swapped, State::<Micro>::from_indices(&[15, 14], &[13], 0));
    let switched = state.swap(&permutation, true);
    assert_eq!(switched, State::<Micro>::from_indices(&[13], &[15, 14], 1));
}

#[test]
fn state_swap_then_inverse_gives_back_the_state() {
    let state = State::<Micro>::from_indices(&[0, 1, 6], &[2, 9], 1);
    let rotation: Vec<usize> = (0..16).map(|cell| (cell % 4) * 4 + 3 - cell / 4).collect();
    let mut inverse = vec![0usize; 16];
    for (cell, &image) in rotation.iter().enumerate() {
        inverse[image] = cell;
    }
    for switched in [false, true] {
        let there = state.swap(&rotation, switched);
        assert_ne!(there, state);
        assert_eq!(there.swap(&inverse, switched), state);
    }
}

#[test]
fn candidates_lie_on_empty_cells() {
    let ruleset = Reversi::<Classic>::new();
    let state = State::<Classic>::from_indices(&[27, 36, 2, 16], &[28, 35, 1, 8], 0);
    let mut iterator = PlyIterator::new(&ruleset, &state);
    while let Some(ply) = iterator.iterate(&ruleset, &state) {
        match ply {
            Ply::Place(index) => assert!(!state.grids[0].isset(index) && !state.grids[1].isset(index)),
            _ => panic!("the iterator only yields placements"),
        }
    }
}
