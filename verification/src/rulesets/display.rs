use crate::utils::bitarray::{BitArray, BitArraySettings};
use vstd::prelude::*;

verus! {

/// The character of cell `index`: `X` for a stone of player 0, else `O` for one of player
/// 1, else `.`.
pub open spec fn cell_char(first: Seq<bool>, second: Seq<bool>, index: int) -> char {
    if first[index] {
        'X'
    } else if second[index] {
        'O'
    } else {
        '.'
    }
}

/// The text of the first `count` cells of a grid with rows of `row` cells: each cell's
/// character, and a line break after the last cell of each row.
pub open spec fn grid_chars(first: Seq<bool>, second: Seq<bool>, row: int, count: int) -> Seq<char>
    decreases count,
{
    if count <= 0 {
        seq![]
    } else {
        let index = count - 1;
        let cell = grid_chars(first, second, row, index).push(cell_char(first, second, index));
        if index % row == row - 1 {
            cell.push('\n')
        } else {
            cell
        }
    }
}

/// The text of a grid holding the stones of two players, row after row.
pub fn grid_text<Settings: BitArraySettings>(
    first: &BitArray<Settings>,
    second: &BitArray<Settings>,
    row: usize,
) -> (r: Vec<char>)
    requires
        row > 0,
    ensures
        r@ == grid_chars(first@, second@, row as int, Settings::spec_size() as int),
{
    proof {
        first.lemma_len();
        second.lemma_len();
    }
    let count = Settings::size();
    let mut result: Vec<char> = Vec::new();
    let mut index: usize = 0;
    while index < count
        invariant
            index <= count,
            count == Settings::spec_size(),
            row > 0,
            first@.len() == count,
            second@.len() == count,
            result@ == grid_chars(first@, second@, row as int, index as int),
        decreases count - index,
    {
        if first.isset(index) {
            result.push('X');
        } else if second.isset(index) {
            result.push('O');
        } else {
            result.push('.');
        }
        if index % row == row - 1 {
            result.push('\n');
        }
        index = index + 1;
    }
    result
}

/// The row and the column of cell `index` on a grid with rows of `row` cells.
pub fn row_and_column(index: usize, row: usize) -> (r: (usize, usize))
    requires
        row > 0,
    ensures
        r.0 == index / row,
        r.1 == index % row,
        r.0 * row + r.1 == index,
{
    let r = (index / row, index % row);
    assert(r.0 * row + r.1 == index) by (nonlinear_arith)
        requires
            row > 0,
            r.0 == index / row,
            r.1 == index % row,
    ;
    r
}

} // verus!
