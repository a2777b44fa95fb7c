use board_games::utils::bitarray::{BitArray225, BitArray9, MaskComparison};

#[test]
fn array9_test_zero() {
    let instance = BitArray9::zero();
    for index in 0..9 {
        assert!(!instance.isset(index));
    }
}

#[test]
fn array9_test_from_positions() {
    let indices = vec![2, 3, 5];
    let instance = BitArray9::from_indices(&indices);
    for index in 0..9 {
        if indices.contains(&index) {
            assert!(instance.isset(index));
        } else {
            assert!(!instance.isset(index));
        }
    }
}

#[test]
fn array9_test_bitor() {
    let array1 = BitArray9::from_indices(&[2, 3, 5]);
    let array2 = BitArray9::from_indices(&[2, 4, 6]);
    let expected = BitArray9::from_indices(&[2, 3, 4, 5, 6]);
    assert_eq!(array1.bitor(&array2), expected);
}

#[test]
fn array9_test_bitxor() {
    let array1 = BitArray9::from_indices(&[1, 3]);
    let array2 = BitArray9::from_indices(&[2, 3]);
    let expected = BitArray9::from_indices(&[1, 2]);
    assert_eq!(array1.bitxor(&array2), expected);
}

#[test]
fn array9_test_bitand() {
    let array1 = BitArray9::from_indices(&[1, 3]);
    let array2 = BitArray9::from_indices(&[2, 3]);
    let expected = BitArray9::from_indices(&[3]);
    assert_eq!(array1.bitand(&array2), expected);
}

#[test]
fn test_swap() {
    let array = BitArray9::from_indices(&[0, 1, 2]);
    let result = array.swap(&[8, 5, 2, 7, 4, 1, 6, 3, 0]);
    let expected = BitArray9::from_indices(&[2, 5, 8]);
    assert_eq!(result, expected);
}

#[test]
fn array225_test_zero() {
    let instance = BitArray225::zero();
    for index in 0..225 {
        assert!(!instance.isset(index));
    }
}

#[test]
fn array225_test_from_positions() {
    let indices = vec![20, 200, 77];
    let instance = BitArray225::from_indices(&indices);
    for index in 0..225 {
        if indices.contains(&index) {
            assert!(instance.isset(index));
        } else {
            assert!(!instance.isset(index));
        }
    }
}

#[test]
fn array225_test_bitor() {
    let array1 = BitArray225::from_indices(&[202, 103, 5]);
    let array2 = BitArray225::from_indices(&[202, 104, 6]);
    let expected = BitArray225::from_indices(&[202, 103, 104, 5, 6]);
    assert_eq!(array1.bitor(&array2), expected);
}

#[test]
fn array225_test_bitxor() {
    let array1 = BitArray225::from_indices(&[101, 203]);
    let array2 = BitArray225::from_indices(&[102, 203]);
    let expected = BitArray225::from_indices(&[101, 102]);
    assert_eq!(array1.bitxor(&array2), expected);
}

#[test]
fn array225_test_bitand() {
    let array1 = BitArray225::from_indices(&[101, 203]);
    let array2 = BitArray225::from_indices(&[102, 203]);
    let expected = BitArray225::from_indices(&[203]);
    assert_eq!(array1.bitand(&array2), expected);
}

#[test]
fn base_test_zero() {
    let instance = BitArray225::zero();
    for index in 0..225 {
        assert!(!instance.isset(index));
    }
}

#[test]
fn test_unset() {
    let mut instance = BitArray225::from_indices(&[6, 10, 100, 120, 220, 222]);
    for index in &[10, 100, 220] {
        assert!(instance.isset(*index));
        instance.unset(*index);
        assert!(!instance.isset(*index));
    }
    for index in &[6, 120, 222] {
        assert!(instance.isset(*index));
    }
}

#[test]
fn base_test_from_positions() {
    let indices = vec![20, 200, 77];
    let instance = BitArray225::from_indices(&indices);
    for index in 0..225 {
        if indices.contains(&index) {
            assert!(instance.isset(index));
        } else {
            assert!(!instance.isset(index));
        }
    }
}

#[test]
fn generic_test_zero() {
    let instance = BitArray225::zero();
    for index in 0..225 {
        assert!(!instance.isset(index));
    }
}

#[test]
fn generic_test_from_positions() {
    let indices = vec![20, 200, 77];
    let instance = BitArray225::from_indices(&indices);
    for index in 0..225 {
        if indices.contains(&index) {
            assert!(instance.isset(index));
        } else {
            assert!(!instance.isset(index));
        }
    }
}

#[test]
fn bitarray_set_then_unset_restores() {
    let before = BitArray225::from_indices(&[3, 64, 130, 224]);
    let mut changed = before;
    changed.set(65);
    assert!(changed.isset(65));
    assert_ne!(changed, before);
    changed.unset(65);
    assert_eq!(changed, before);
}

#[test]
fn bitarray_count_ones() {
    assert_eq!(BitArray225::zero().count_ones(), 0);
    assert_eq!(BitArray225::from_indices(&[0, 63, 64, 127, 128, 224]).count_ones(), 6);
    assert_eq!(BitArray9::from_indices(&[1, 1, 8]).count_ones(), 2);
}

#[test]
fn bitarray_compare_with_mask() {
    let grid = BitArray9::from_indices(&[0, 1, 2, 4]);
    assert_eq!(grid.compare_with_mask(&BitArray9::from_indices(&[0, 1, 2])), MaskComparison::Equal);
    assert_eq!(grid.compare_with_mask(&BitArray9::from_indices(&[3, 5, 6])), MaskComparison::Zero);
    assert_eq!(grid.compare_with_mask(&BitArray9::from_indices(&[2, 5, 8])), MaskComparison::Partial);
}

#[test]
fn bitarray_swap_moves_each_bit() {
    let array = BitArray9::from_indices(&[1, 4]);
    let result = array.swap(&[2, 5, 8, 1, 4, 7, 0, 3, 6]);
    assert_eq!(result, BitArray9::from_indices(&[5, 4]));
}
