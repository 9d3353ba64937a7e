//! Checks on a board: uniqueness within a unit, well-formedness of a whole
//! board, and whether a digit may be placed in a cell.
use std::collections::HashSet;
use vstd::prelude::*;
use crate::grid::{block, cells, column, digit_taken, is_square, no_repeat, valid_grid, values_in_range};

verus! {

broadcast use vstd::std_specs::hash::group_hash_axioms;

/// Whether no non-zero value occurs twice in `vector`.
pub fn is_unique_vector(vector: &Vec<u8>) -> (res: bool)
    ensures
        res == no_repeat(vector@),
{
    let mut unique: HashSet<u8> = HashSet::new();
    let mut i: usize = 0;
    while i < vector.len()
        invariant
            i <= vector@.len(),
            forall|x: u8|
                unique@.contains(x) <==> (x != 0 && exists|k: int|
                    0 <= k < i && #[trigger] vector@[k] == x),
            forall|a: int, b: int|
                0 <= a < b < i && #[trigger] vector@[a] != 0 ==> vector@[a] != #[trigger] vector@[b],
        decreases vector@.len() - i,
    {
        let x = vector[i];
        if x != 0 {
            if !unique.insert(x) {
                let ghost k = choose|k: int| 0 <= k < i && #[trigger] vector@[k] == x;
                assert(vector@[k] != 0 && vector@[k] == vector@[i as int]);
                return false;
            }
        }
        i = i + 1;
    }
    true
}


/// Whether `board` is well-formed: exactly nine rows of exactly nine cells,
/// every value in `0..=9`, and no non-zero value twice in a row, a column or
/// a 3×3 block.
pub fn is_valid_board(board: &[Vec<u8>]) -> (res: bool)
    ensures
        res == valid_grid(cells(board@)),
{
    let ghost g = cells(board@);
    if board.len() != 9 {
        return false;
    }
    let mut i: usize = 0;
    while i < 9
        invariant
            g == cells(board@),
            forall|r: int| 0 <= r < board@.len() ==> #[trigger] board@[r]@ == g[r],
            board@.len() == 9,
            i <= 9,
            forall|r: int| 0 <= r < i ==> #[trigger] g[r].len() == 9,
        decreases 9 - i,
    {
        if board[i].len() != 9 {
            assert(g[i as int].len() != 9);
            return false;
        }
        i = i + 1;
    }
    assert(is_square(g));

    // no repeated digit in a row, and every value at most nine
    let mut i: usize = 0;
    while i < 9
        invariant
            g == cells(board@),
            forall|r: int| 0 <= r < board@.len() ==> #[trigger] board@[r]@ == g[r],
            is_square(g),
            i <= 9,
            forall|r: int| 0 <= r < i ==> no_repeat(#[trigger] g[r]),
            forall|r: int, c: int| 0 <= r < i && 0 <= c < 9 ==> #[trigger] g[r][c] <= 9,
        decreases 9 - i,
    {
        if !is_unique_vector(&board[i]) {
            return false;
        }
        let mut j: usize = 0;
        while j < 9
            invariant
                g == cells(board@),
                forall|r: int| 0 <= r < board@.len() ==> #[trigger] board@[r]@ == g[r],
                is_square(g),
                i < 9,
                j <= 9,
                forall|c: int| 0 <= c < j ==> #[trigger] g[i as int][c] <= 9,
            decreases 9 - j,
        {
            if board[i][j] > 9 {
                assert(!values_in_range(g));
                return false;
            }
            j = j + 1;
        }
        i = i + 1;
    }
    assert(values_in_range(g));

    // no repeated digit in a column
    let mut j: usize = 0;
    while j < 9
        invariant
            g == cells(board@),
            forall|r: int| 0 <= r < board@.len() ==> #[trigger] board@[r]@ == g[r],
            is_square(g),
            j <= 9,
            forall|c: int| 0 <= c < j ==> no_repeat(#[trigger] column(g, c)),
        decreases 9 - j,
    {
        let mut col: Vec<u8> = Vec::new();
        let mut i: usize = 0;
        while i < 9
            invariant
                g == cells(board@),
                forall|r: int| 0 <= r < board@.len() ==> #[trigger] board@[r]@ == g[r],
                is_square(g),
                j < 9,
                i <= 9,
                col@ == column(g, j as int).take(i as int),
            decreases 9 - i,
        {
            col.push(board[i][j]);
            i = i + 1;
        }
        assert(col@ =~= column(g, j as int));
        if !is_unique_vector(&col) {
            return false;
        }
        j = j + 1;
    }

    // no repeated digit in a block
    let mut br: usize = 0;
    while br < 3
        invariant
            g == cells(board@),
            forall|r: int| 0 <= r < board@.len() ==> #[trigger] board@[r]@ == g[r],
            is_square(g),
            br <= 3,
            forall|a: int, b: int|
                0 <= a < br && 0 <= b < 3 ==> no_repeat(#[trigger] block(g, 3 * a, 3 * b)),
        decreases 3 - br,
    {
        let mut bc: usize = 0;
        while bc < 3
            invariant
                g == cells(board@),
                forall|r: int| 0 <= r < board@.len() ==> #[trigger] board@[r]@ == g[r],
                is_square(g),
                br < 3,
                bc <= 3,
                forall|a: int, b: int|
                    0 <= a < br && 0 <= b < 3 ==> no_repeat(#[trigger] block(g, 3 * a, 3 * b)),
                forall|b: int| 0 <= b < bc ==> no_repeat(#[trigger] block(g, 3 * br, 3 * b)),
            decreases 3 - bc,
        {
            let row = 3 * br;
            let col = 3 * bc;
            let mut board_box: Vec<u8> = Vec::new();
            let mut i: usize = 0;
            while i < 3
                invariant
                    g == cells(board@),
                    forall|r: int| 0 <= r < board@.len() ==> #[trigger] board@[r]@ == g[r],
                    is_square(g),
                    br < 3,
                    bc < 3,
                    row == 3 * br,
                    col == 3 * bc,
                    i <= 3,
                    board_box@ == block(g, row as int, col as int).take(3 * i),
                decreases 3 - i,
            {
                let mut k: usize = 0;
                while k < 3
                    invariant
                        g == cells(board@),
                        forall|r: int| 0 <= r < board@.len() ==> #[trigger] board@[r]@ == g[r],
                        is_square(g),
                        br < 3,
                        bc < 3,
                        row == 3 * br,
                        col == 3 * bc,
                        i < 3,
                        k <= 3,
                        board_box@ == block(g, row as int, col as int).take(3 * i + k),
                    decreases 3 - k,
                {
                    board_box.push(board[row + i][col + k]);
                    assert(board_box@ =~= block(g, row as int, col as int).take(3 * i + k + 1));
                    k = k + 1;
                }
                i = i + 1;
            }
            assert(board_box@ =~= block(g, row as int, col as int));
            if !is_unique_vector(&board_box) {
                return false;
            }
            bc = bc + 1;
        }
        br = br + 1;
    }
    true
}

/// Whether `num` may be written at `position`: it stands neither in that
/// row, nor in that column, nor in that 3×3 block. The cell itself is
/// scanned too, so the answer is meaningful for an empty cell.
pub fn is_valid_move(board: &[Vec<u8>], position: &(usize, usize), num: u8) -> (res: bool)
    requires
        is_square(cells(board@)),
        position.0 < 9,
        position.1 < 9,
    ensures
        res == !digit_taken(cells(board@), position.0 as int, position.1 as int, num),
{
    let ghost g = cells(board@);
    let ghost (r, c) = (position.0 as int, position.1 as int);
    // the row and the column
    let mut i: usize = 0;
    while i < board.len()
        invariant
            g == cells(board@),
            forall|x: int| 0 <= x < board@.len() ==> #[trigger] board@[x]@ == g[x],
            is_square(g),
            r == position.0,
            c == position.1,
            r < 9,
            c < 9,
            i <= 9,
            forall|k: int| 0 <= k < i ==> #[trigger] g[r][k] != num,
            forall|k: int| 0 <= k < i ==> #[trigger] g[k][c] != num,
        decreases 9 - i,
    {
        if board[position.0][i] == num || board[i][position.1] == num {
            assert(g[r][i as int] == num || g[i as int][c] == num);
            return false;
        }
        assert(g[r][i as int] != num && g[i as int][c] != num);
        i = i + 1;
    }

    // the block
    let row = position.0 - position.0 % 3;
    let col = position.1 - position.1 % 3;
    let mut i: usize = 0;
    while i < 3
        invariant
            g == cells(board@),
            forall|x: int| 0 <= x < board@.len() ==> #[trigger] board@[x]@ == g[x],
            is_square(g),
            r == position.0,
            c == position.1,
            r < 9,
            c < 9,
            row == r - r % 3,
            col == c - c % 3,
            i <= 3,
            forall|k: int| 0 <= k < 9 ==> #[trigger] g[r][k] != num,
            forall|k: int| 0 <= k < 9 ==> #[trigger] g[k][c] != num,
            forall|a: int, b: int|
                0 <= a < i && 0 <= b < 3 ==> #[trigger] g[r - r % 3 + a][c - c % 3 + b] != num,
        decreases 3 - i,
    {
        let mut j: usize = 0;
        while j < 3
            invariant
                g == cells(board@),
                forall|x: int| 0 <= x < board@.len() ==> #[trigger] board@[x]@ == g[x],
                is_square(g),
                r == position.0,
                c == position.1,
                r < 9,
                c < 9,
                row == r - r % 3,
                col == c - c % 3,
                i < 3,
                j <= 3,
                forall|k: int| 0 <= k < 9 ==> #[trigger] g[r][k] != num,
                forall|k: int| 0 <= k < 9 ==> #[trigger] g[k][c] != num,
                forall|a: int, b: int|
                    0 <= a < i && 0 <= b < 3 ==> #[trigger] g[r - r % 3 + a][c - c % 3 + b] != num,
                forall|b: int| 0 <= b < j ==> #[trigger] g[r - r % 3 + i][c - c % 3 + b] != num,
            decreases 3 - j,
        {
            if board[i + row][j + col] == num {
                assert(g[r - r % 3 + i][c - c % 3 + j] == num);
                return false;
            }
            j = j + 1;
        }
        i = i + 1;
    }
    true
}

} // verus!
