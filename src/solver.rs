//! Depth-first backtracking search for a solution of a board.
use vstd::prelude::*;
use crate::grid::{
    cells, empty_count, first_empty, first_solution, has_empty, is_complete,
    lemma_empty_count_fill, lemma_first_solution_of_complete, lemma_first_solution_of_place,
    lemma_place_keeps_valid, lemma_solves_place, lemma_taken_digit_excluded, place, solvable,
    solves, valid_grid,
};
use crate::validate::{is_valid_board, is_valid_move};

verus! {

/// The first empty cell of `board` in row-major order, if there is one.
/// Positions come back as `u8`, so the board has at most 256 rows of at
/// most 256 cells.
pub fn find_empty(board: &[Vec<u8>]) -> (res: Option<(u8, u8)>)
    requires
        board@.len() <= 256,
        forall|r: int| 0 <= r < board@.len() ==> (#[trigger] board@[r])@.len() <= 256,
    ensures
        match res {
            Some((r, c)) => first_empty(cells(board@), r as int, c as int),
            None => !has_empty(cells(board@)),
        },
{
    let ghost g = cells(board@);
    let mut row: usize = 0;
    while row < board.len()
        invariant
            g == cells(board@),
            forall|x: int| 0 <= x < board@.len() ==> #[trigger] board@[x]@ == g[x],
            board@.len() <= 256,
            forall|r: int| 0 <= r < board@.len() ==> (#[trigger] board@[r])@.len() <= 256,
            row <= board@.len(),
            forall|x: int, y: int| 0 <= x < row && 0 <= y < g[x].len() ==> #[trigger] g[x][y] != 0,
        decreases board@.len() - row,
    {
        let mut col: usize = 0;
        while col < board[row].len()
            invariant
                g == cells(board@),
                forall|x: int| 0 <= x < board@.len() ==> #[trigger] board@[x]@ == g[x],
                board@.len() <= 256,
                forall|r: int| 0 <= r < board@.len() ==> (#[trigger] board@[r])@.len() <= 256,
                row < board@.len(),
                col <= g[row as int].len(),
                forall|x: int, y: int|
                    0 <= x < row && 0 <= y < g[x].len() ==> #[trigger] g[x][y] != 0,
                forall|y: int| 0 <= y < col ==> #[trigger] g[row as int][y] != 0,
            decreases g[row as int].len() - col,
        {
            if board[row][col] == 0 {
                return Some((row as u8, col as u8));
            }
            col = col + 1;
        }
        row = row + 1;
    }
    None
}

/// Writes `v` at `(r, c)`.
fn set_cell(board: &mut Vec<Vec<u8>>, r: usize, c: usize, v: u8)
    requires
        r < old(board)@.len(),
        c < old(board)@[r as int]@.len(),
    ensures
        final(board)@.len() == old(board)@.len(),
        cells(final(board)@) == place(cells(old(board)@), r as int, c as int, v),
{
    board[r][c] = v;
    assert(cells(board@) =~= place(cells(old(board)@), r as int, c as int, v));
}

/// Fills the empty cells of the valid `board` by backtracking: at the first
/// empty cell each digit from 1 to 9 that the cell's row, column and block
/// allow is written in turn, and the rest of the board searched; a digit
/// that leads nowhere is taken back. The solution found is the first one in
/// row-major order.
///
/// Returns `true` with the solved board, or `false` with the board as it
/// was when no solution exists. `solved` has no effect on the search.
pub fn get_solution(solved: bool, board: &mut Vec<Vec<u8>>) -> (res: (bool, &Vec<Vec<u8>>))
    requires
        valid_grid(cells(old(board)@)),
    ensures
        *res.1 == *final(board),
        res.0 ==> first_solution(cells(final(board)@), cells(old(board)@)),
        !res.0 ==> !solvable(cells(old(board)@)) && cells(final(board)@) == cells(old(board)@),
    decreases empty_count(cells(old(board)@)),
{
    let ghost g = cells(board@);
    assert(board@.len() == 9 && forall|x: int| 0 <= x < 9 ==> #[trigger] board@[x]@ == g[x]);
    let find = find_empty(board.as_slice());
    if find.is_none() {
        assert(is_complete(g)) by {
            assert forall|x: int, y: int| 0 <= x < 9 && 0 <= y < 9 implies #[trigger] g[x][y] != 0 by {
                if g[x][y] == 0 {
                    assert(has_empty(g));
                }
            }
        }
        proof {
            lemma_first_solution_of_complete(g);
        }
        return (true, board);
    }
    let row = find.unwrap().0 as usize;
    let col = find.unwrap().1 as usize;
    assert(first_empty(g, row as int, col as int));

    let mut i: u8 = 1;
    while i < 10
        invariant
            cells(board@) == g,
            g == cells(old(board)@),
            board@.len() == 9,
            valid_grid(g),
            row < 9,
            col < 9,
            first_empty(g, row as int, col as int),
            1 <= i <= 10,
            forall|s: Seq<Seq<u8>>| #[trigger] solves(s, g) ==> s[row as int][col as int] >= i,
        decreases 10 - i,
    {
        if is_valid_move(board.as_slice(), &(row, col), i) {
            set_cell(board, row, col, i);
            proof {
                lemma_place_keeps_valid(g, row as int, col as int, i);
                lemma_empty_count_fill(g, row as int, col as int, i);
            }
            if get_solution(solved, board).0 == true {
                proof {
                    lemma_first_solution_of_place(cells(board@), g, row as int, col as int, i);
                }
                return (true, board);
            }
            assert(board@[row as int]@ == cells(board@)[row as int]);
            set_cell(board, row, col, 0);
            assert(cells(board@) =~~= g);
            assert forall|s: Seq<Seq<u8>>| #[trigger] solves(s, g) implies s[row as int][col as int]
                != i by {
                lemma_solves_place(s, g, row as int, col as int, i);
            }
        } else {
            assert forall|s: Seq<Seq<u8>>| #[trigger] solves(s, g) implies s[row as int][col as int]
                != i by {
                lemma_taken_digit_excluded(s, g, row as int, col as int, i);
            }
        }
        i = i + 1;
    }
    assert(!solvable(g)) by {
        if solvable(g) {
            let s = choose|s: Seq<Seq<u8>>| solves(s, g);
            assert(s[row as int][col as int] <= 9);
        }
    }
    (false, board)
}

/// Solves `board` in place and returns it, when it is valid and has a
/// solution; the solution is the first one in row-major order. Otherwise returns `None` and leaves the board's cells as they
/// were: an invalid board is not searched, and the search takes back every
/// digit it wrote when no solution exists.
pub fn solve_puzzle(board: &mut Vec<Vec<u8>>) -> (res: Option<&Vec<Vec<u8>>>)
    ensures
        res is Some <==> valid_grid(cells(old(board)@)) && solvable(cells(old(board)@)),
        match res {
            Some(solution) => {
                &&& *solution == *final(board)
                &&& first_solution(cells(final(board)@), cells(old(board)@))
            },
            None => cells(final(board)@) == cells(old(board)@),
        },
{
    if !is_valid_board(board.as_slice()) {
        return None;
    }
    let (is_solved, solved_board) = get_solution(false, board);
    if !is_solved {
        return None;
    }
    Some(solved_board)
}

} // verus!
