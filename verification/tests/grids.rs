use board_games::utils::grids::cell_runs::all_runs;
use board_games::utils::grids::compute_strides;
use board_games::utils::grids::strips::iterator::all_strips;
use board_games::utils::grids::strips::{length, Indices, StartIterator, StripIterator};
use board_games::utils::grids::symmetries::table::revert_permutation_indices;
use board_games::utils::grids::symmetries::{convert_position, Symmetries, Symmetry, SymmetryTable};
use board_games::utils::grids::{CellRuns, DirectionIterator, Positions, StripIndices};
use board_games::utils::vectors::dot_product::dot_product;
use std::collections::HashSet;

#[test]
fn cell_runs_test_iteration() {
    let mut iterator = CellRuns::new(vec![3, 3], 3);
    let mut cell_runs = HashSet::new();
    while let Some(run) = iterator.next() {
        cell_runs.insert(run);
    }
    let expected = [
        vec![0, 1, 2],
        vec![3, 4, 5],
        vec![6, 7, 8],
        vec![0, 3, 6],
        vec![1, 4, 7],
        vec![2, 5, 8],
        vec![0, 4, 8],
        vec![2, 4, 6],
    ]
    .iter()
    .cloned()
    .collect::<HashSet<_>>();
    assert_eq!(cell_runs, expected);
}

#[test]
fn test_positions() {
    let mut iterator = Positions::new(vec![3, 3]);
    let mut result = Vec::new();
    while let Some(position) = iterator.next() {
        result.push(position);
    }
    let expected = vec![
        vec![0, 0],
        vec![0, 1],
        vec![0, 2],
        vec![1, 0],
        vec![1, 1],
        vec![1, 2],
        vec![2, 0],
        vec![2, 1],
        vec![2, 2],
    ];
    assert_eq!(result, expected);
}

#[test]
fn strip_indices_test_strip_indices() {
    let mut iterator = StripIndices::new(&vec![3, 3], &vec![1, -1], &vec![0, 1]);
    let mut result = Vec::new();
    while let Some(index) = iterator.next() {
        result.push(index);
    }
    let expected = vec![3, 1];
    assert_eq!(result, expected);
}

#[test]
fn indices_test_strip_indices() {
    let mut iterator = Indices::new(&vec![3, 3], &vec![1, -1], &vec![0, 1]);
    let mut result = Vec::new();
    while let Some(index) = iterator.next() {
        result.push(index);
    }
    let expected = vec![3, 1];
    assert_eq!(result, expected);
}

fn collect_indices(mut strip: Indices) -> Vec<usize> {
    let mut cells = Vec::new();
    while let Some(cell) = strip.next() {
        cells.push(cell);
    }
    cells
}

#[test]
fn iterator_test_iteration() {
    let mut iterator = StripIterator::new(vec![3, 3]);
    let mut strips = HashSet::new();
    while let Some(strip) = iterator.next() {
        strips.insert(collect_indices(strip));
    }
    let expected = [
        vec![0, 1, 2],
        vec![3, 4, 5],
        vec![6, 7, 8],
        vec![0, 3, 6],
        vec![1, 4, 7],
        vec![2, 5, 8],
        vec![6],
        vec![3, 7],
        vec![0, 4, 8],
        vec![1, 5],
        vec![2],
        vec![0],
        vec![1, 3],
        vec![2, 4, 6],
        vec![5, 7],
        vec![8],
    ]
    .iter()
    .cloned()
    .collect::<HashSet<_>>();
    assert_eq!(strips, expected);
}

#[test]
fn test_comnpute_strides() {
    let result = compute_strides(&vec![1, 3, 5, 7]);
    assert_eq!(result, vec![1, 1, 3, 15]);
}

#[test]
fn test_symmetries() {
    let mut symmetries = Symmetries::new(vec![3, 3]);
    let mut result = HashSet::new();
    while let Some(symmetry) = symmetries.next() {
        result.insert(symmetry);
    }
    let expected = [
        Symmetry { destination: vec![false, false], permutation: vec![0, 1] },
        Symmetry { destination: vec![false, false], permutation: vec![1, 0] },
        Symmetry { destination: vec![false, true], permutation: vec![0, 1] },
        Symmetry { destination: vec![false, true], permutation: vec![1, 0] },
        Symmetry { destination: vec![true, false], permutation: vec![0, 1] },
        Symmetry { destination: vec![true, false], permutation: vec![1, 0] },
        Symmetry { destination: vec![true, true], permutation: vec![0, 1] },
        Symmetry { destination: vec![true, true], permutation: vec![1, 0] },
    ]
    .iter()
    .cloned()
    .collect::<HashSet<_>>();
    assert_eq!(result, expected);
}

#[test]
fn symmetries_follow_the_given_permutations() {
    let mut symmetries = Symmetries::with_permutations(vec![3, 3], vec![vec![1, 0]]);
    let mut result = Vec::new();
    while let Some(symmetry) = symmetries.next() {
        result.push(symmetry);
    }
    let expected = vec![
        Symmetry { destination: vec![false, false], permutation: vec![1, 0] },
        Symmetry { destination: vec![true, false], permutation: vec![1, 0] },
        Symmetry { destination: vec![false, true], permutation: vec![1, 0] },
        Symmetry { destination: vec![true, true], permutation: vec![1, 0] },
    ];
    assert_eq!(result, expected);
}

#[test]
fn symmetries_skip_permutations_that_change_dimensions() {
    let mut symmetries = Symmetries::with_permutations(vec![2, 3], vec![vec![0, 1], vec![1, 0]]);
    let mut count = 0;
    while let Some(symmetry) = symmetries.next() {
        assert_eq!(symmetry.permutation, vec![0, 1]);
        count += 1;
    }
    assert_eq!(count, 4);
}

#[test]
fn test_symmetry_table() {
    let table = SymmetryTable::new(&vec![3, 3]);
    let initial: Vec<usize> = (0..9).collect();
    for (index, permutation) in table.permutations.iter().enumerate() {
        let permuted = permutation.iter().map(|&target| initial[target]).collect::<Vec<_>>();
        let reverse_permutation = &table.permutations[table.reverses[index]];
        let reverted = reverse_permutation.iter().map(|&target| permuted[target]).collect::<Vec<_>>();
        assert_eq!(initial, reverted);
    }
}

#[test]
fn symmetry_table_of_square_grid_has_eight_entries() {
    let table = SymmetryTable::new(&vec![4, 4]);
    assert_eq!(table.permutations.len(), 8);
    assert_eq!(table.reverses.len(), 8);
    for permutation in &table.permutations {
        let mut sorted = permutation.clone();
        sorted.sort();
        assert_eq!(sorted, (0..16).collect::<Vec<_>>());
    }
}

#[test]
fn symmetry_table_try_new_on_square_grid() {
    assert!(SymmetryTable::try_new(&vec![3, 3]).is_some());
}

#[test]
fn revert_permutation_indices_inverts() {
    let permutation = vec![2, 0, 3, 1];
    let reverse = revert_permutation_indices(&permutation);
    assert_eq!(reverse, vec![1, 3, 0, 2]);
    for (index, &value) in permutation.iter().enumerate() {
        assert_eq!(reverse[value], index);
    }
}

#[test]
fn convert_position_reflects_and_permutes() {
    let result = convert_position(&[3, 4], &[1, 2], &[true, false], &[1, 0]);
    assert_eq!(result, vec![2, 1]);
    let mirrored = convert_position(&[3, 3], &[0, 2], &[true, true], &[0, 1]);
    assert_eq!(mirrored, vec![2, 0]);
}

#[test]
fn origin_identity() {
    let result = convert_position(&[3, 3], &[0, 0], &[false, false], &[0, 1]);
    assert_eq!(result, vec![0, 0]);
}

#[test]
fn rotation() {
    let result = convert_position(&[3, 3], &[1, 2], &[false, true], &[1, 0]);
    assert_eq!(result, vec![0, 1]);
}

#[test]
fn reflection() {
    let result = convert_position(&[3, 3], &[0, 2], &[false, false], &[1, 0]);
    assert_eq!(result, vec![2, 0]);
}

#[test]
fn dot_product_of_vectors() {
    assert_eq!(dot_product(&[1, 2, 3], &[4, -5, 6]), 4 - 10 + 18);
    assert_eq!(dot_product(&[1, 2], &[3, 4, 5]), 11);
    let empty: [isize; 0] = [];
    assert_eq!(dot_product(&empty, &[3]), 0);
}

#[test]
fn all_runs_match_cell_runs() {
    let mut iterator = CellRuns::new(vec![4, 4], 3);
    let mut expected = Vec::new();
    while let Some(run) = iterator.next() {
        expected.push(run);
    }
    assert_eq!(all_runs(vec![4, 4], 3), expected);
    assert_eq!(all_runs(vec![3, 3], 3).len(), 8);
}

#[test]
fn all_strips_match_strip_iterator() {
    let mut iterator = StripIterator::new(vec![3, 4]);
    let mut expected = Vec::new();
    while let Some(strip) = iterator.next() {
        expected.push(collect_indices(strip));
    }
    let result = all_strips(vec![3, 4]).into_iter().map(collect_indices).collect::<Vec<_>>();
    assert_eq!(result, expected);
}

#[test]
fn direction_iterator_counts_directions() {
    let mut iterator = DirectionIterator::new(2);
    let mut count = 0;
    while iterator.next().is_some() {
        count += 1;
    }
    assert_eq!(count, 4);
}

#[test]
fn symmetry_table_needs_inverses_among_its_entries() {
    // On a 2 x 3 grid the cells are listed with the last axis fastest while linear indices
    // take the first axis fastest, and the inverse of a reflection's cell permutation is
    // not among the table's entries.
    assert!(SymmetryTable::try_new(&vec![2, 3]).is_none());
    assert!(SymmetryTable::try_new(&vec![2, 2, 3]).is_none());
    assert!(SymmetryTable::try_new(&vec![2, 3, 2]).is_some());
    assert!(SymmetryTable::try_new(&vec![3, 3]).is_some());
}

#[test]
fn length_one_dimension() {
    assert_eq!(length(&vec![3], &vec![1], &vec![0]), 3);
}

#[test]
fn length_two_dimensions_orthogonal() {
    assert_eq!(length(&vec![3, 3], &vec![1, 0], &vec![0, 2]), 3);
}

#[test]
fn length_two_dimensions_diagonal() {
    assert_eq!(length(&vec![3, 3], &vec![1, 1], &vec![0, 1]), 2);
}

#[test]
fn length_two_dimensions_reverse_diagonal() {
    assert_eq!(length(&vec![3, 3], &vec![1, -1], &vec![0, 1]), 2);
}

fn strip_starts(dimensions: Vec<isize>, direction: Vec<isize>) -> HashSet<Vec<isize>> {
    let mut iterator = StartIterator::new(dimensions, direction);
    let mut result = HashSet::new();
    while let Some(start) = iterator.next() {
        result.insert(start);
    }
    result
}

#[test]
fn starts_one_dimension() {
    let expected: HashSet<Vec<isize>> = [vec![0]].iter().cloned().collect();
    assert_eq!(strip_starts(vec![1], vec![1]), expected);
}

#[test]
fn starts_two_dimensions_orthogonal() {
    let expected: HashSet<Vec<isize>> = [vec![0, 0], vec![1, 0], vec![2, 0]].iter().cloned().collect();
    assert_eq!(strip_starts(vec![3, 3], vec![0, 1]), expected);
}

#[test]
fn starts_two_dimensions_diagonal() {
    let expected: HashSet<Vec<isize>> =
        [vec![0, 0], vec![1, 0], vec![2, 0], vec![0, 1], vec![0, 2]].iter().cloned().collect();
    assert_eq!(strip_starts(vec![3, 3], vec![1, 1]), expected);
}

#[test]
fn starts_two_dimensions_reverse_diagonal() {
    let expected: HashSet<Vec<isize>> =
        [vec![0, 2], vec![1, 2], vec![2, 2], vec![0, 1], vec![0, 0]].iter().cloned().collect();
    assert_eq!(strip_starts(vec![3, 3], vec![1, -1]), expected);
}

#[test]
fn starts_dimension_size_one() {
    let expected: HashSet<Vec<isize>> = [vec![0, 0], vec![1, 0], vec![2, 0]].iter().cloned().collect();
    assert_eq!(strip_starts(vec![3, 1], vec![1, 1]), expected);
}

fn directions_of(dimensions: usize) -> HashSet<Vec<isize>> {
    let mut iterator = DirectionIterator::new(dimensions);
    let mut result = HashSet::new();
    while let Some(direction) = iterator.next() {
        result.insert(direction);
    }
    result
}

#[test]
fn directions_one() {
    let expected: HashSet<Vec<isize>> = [vec![1]].iter().cloned().collect();
    assert_eq!(directions_of(1), expected);
}

#[test]
fn directions_two() {
    let expected: HashSet<Vec<isize>> =
        [vec![1, 0], vec![1, 1], vec![0, 1], vec![-1, 1]].iter().cloned().collect();
    assert_eq!(directions_of(2), expected);
}
