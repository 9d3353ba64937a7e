//! The text form of a board: one line per row, the digits of each block led
//! by `| `, the row closed by ` |`, and a dashed line between bands of three
//! rows. The text is ASCII and is returned as bytes.
use vstd::prelude::*;
use crate::grid::{cells, valid_grid};
use crate::validate::is_valid_board;

verus! {

/// The ASCII digit for `v`.
pub open spec fn digit_byte(v: u8) -> u8 {
    (v + 48) as u8
}

/// The text of the cell holding `v` in column `c`.
pub open spec fn cell_text(v: u8, c: int) -> Seq<u8> {
    if c % 3 == 0 {
        seq![124u8, 32u8, digit_byte(v), 32u8]
    } else if c == 8 {
        seq![digit_byte(v), 32u8, 124u8, 10u8]
    } else {
        seq![digit_byte(v), 32u8]
    }
}

/// The text of the first `n` cells of `row`.
pub open spec fn row_text(row: Seq<u8>, n: int) -> Seq<u8>
    decreases n,
{
    if n <= 0 {
        seq![]
    } else {
        row_text(row, n - 1) + cell_text(row[n - 1], n - 1)
    }
}

/// The line between two bands of three rows: fourteen dashes apart by
/// spaces, then a line break.
pub open spec fn separator_text() -> Seq<u8> {
    Seq::new(27, |k: int| if k % 2 == 0 { 45u8 } else { 32u8 }).push(10u8)
}

/// The text of the first `n` rows of `g`.
pub open spec fn board_text(g: Seq<Seq<u8>>, n: int) -> Seq<u8>
    decreases n,
{
    if n <= 0 {
        seq![]
    } else {
        let before = board_text(g, n - 1) + if (n - 1) % 3 == 0 && n - 1 != 0 {
            separator_text()
        } else {
            seq![]
        };
        before + row_text(g[n - 1], 9)
    }
}

/// The text of a valid `board`, or `None` when the board is not valid.
pub fn render_board(board: &[Vec<u8>]) -> (res: Option<Vec<u8>>)
    ensures
        match res {
            Some(text) => valid_grid(cells(board@)) && text@ == board_text(cells(board@), 9),
            None => !valid_grid(cells(board@)),
        },
{
    if !is_valid_board(board) {
        return None;
    }
    let ghost g = cells(board@);
    let mut out: Vec<u8> = Vec::new();
    let mut row: usize = 0;
    while row < board.len()
        invariant
            g == cells(board@),
            forall|x: int| 0 <= x < board@.len() ==> #[trigger] board@[x]@ == g[x],
            valid_grid(g),
            board@.len() == 9,
            row <= 9,
            out@ == board_text(g, row as int),
        decreases 9 - row,
    {
        if row % 3 == 0 && row != 0 {
            let mut k: usize = 0;
            while k < 27
                invariant
                    k <= 27,
                    out@ == board_text(g, row as int) + separator_text().take(k as int),
                decreases 27 - k,
            {
                if k % 2 == 0 {
                    out.push(45u8);
                } else {
                    out.push(32u8);
                }
                assert(separator_text().take(k + 1) =~= separator_text().take(k as int).push(
                    separator_text()[k as int],
                ));
                k = k + 1;
            }
            out.push(10u8);
            assert(separator_text().take(27).push(10u8) =~= separator_text());
        }
        let ghost before = out@;
        assert(before == board_text(g, row as int) + if row % 3 == 0 && row != 0 {
            separator_text()
        } else {
            seq![]
        });
        let mut col: usize = 0;
        while col < 9
            invariant
                g == cells(board@),
                forall|x: int| 0 <= x < board@.len() ==> #[trigger] board@[x]@ == g[x],
                valid_grid(g),
                row < 9,
                col <= 9,
                out@ == before + row_text(g[row as int], col as int),
            decreases 9 - col,
        {
            let v = board[row][col];
            assert(v <= 9);
            let d = v + 48;
            if col % 3 == 0 {
                out.push(124u8);
                out.push(32u8);
                out.push(d);
                out.push(32u8);
            } else if col == 8 {
                out.push(d);
                out.push(32u8);
                out.push(124u8);
                out.push(10u8);
            } else {
                out.push(d);
                out.push(32u8);
            }
            assert(out@ =~= before + row_text(g[row as int], col + 1));
            col = col + 1;
        }
        row = row + 1;
    }
    Some(out)
}

} // verus!
