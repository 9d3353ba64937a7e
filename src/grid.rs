//! The mathematical model of a board: its cells, its units (rows, columns
//! and 3×3 blocks), and what it means for a board to be valid or solved.
use vstd::prelude::*;
use vstd::set_lib::{lemma_int_range, lemma_subset_equality, set_int_range};

verus! {

/// The cells of a board, row by row.
pub open spec fn cells(board: Seq<Vec<u8>>) -> Seq<Seq<u8>> {
    board.map_values(|row: Vec<u8>| row@)
}

/// Exactly nine rows of exactly nine cells.
pub open spec fn is_square(g: Seq<Seq<u8>>) -> bool {
    &&& g.len() == 9
    &&& forall|r: int| 0 <= r < 9 ==> #[trigger] g[r].len() == 9
}

/// Every cell holds a value in `0..=9`.
pub open spec fn values_in_range(g: Seq<Seq<u8>>) -> bool {
    forall|r: int, c: int| 0 <= r < 9 && 0 <= c < 9 ==> #[trigger] g[r][c] <= 9
}

/// No non-zero value occurs twice in `s`.
pub open spec fn no_repeat(s: Seq<u8>) -> bool {
    forall|i: int, j: int|
        0 <= i < j < s.len() && #[trigger] s[i] != 0 ==> s[i] != #[trigger] s[j]
}

/// Column `c`, top to bottom.
pub open spec fn column(g: Seq<Seq<u8>>, c: int) -> Seq<u8> {
    Seq::new(9, |r: int| g[r][c])
}

/// The 3×3 block whose top-left cell is `(r0, c0)`, row by row.
pub open spec fn block(g: Seq<Seq<u8>>, r0: int, c0: int) -> Seq<u8> {
    Seq::new(9, |k: int| g[r0 + k / 3][c0 + k % 3])
}

/// No row, column or block holds a non-zero value twice.
pub open spec fn units_distinct(g: Seq<Seq<u8>>) -> bool {
    &&& forall|r: int| 0 <= r < 9 ==> no_repeat(#[trigger] g[r])
    &&& forall|c: int| 0 <= c < 9 ==> no_repeat(#[trigger] column(g, c))
    &&& forall|br: int, bc: int|
        0 <= br < 3 && 0 <= bc < 3 ==> no_repeat(#[trigger] block(g, 3 * br, 3 * bc))
}

/// A well-formed board: 9×9, values in `0..=9`, no unit with a repeated digit.
pub open spec fn valid_grid(g: Seq<Seq<u8>>) -> bool {
    &&& is_square(g)
    &&& values_in_range(g)
    &&& units_distinct(g)
}

/// No cell is empty.
pub open spec fn is_complete(g: Seq<Seq<u8>>) -> bool {
    forall|r: int, c: int| 0 <= r < 9 && 0 <= c < 9 ==> #[trigger] g[r][c] != 0
}

/// `s` is a solution of `g`: a valid, complete board that keeps every digit
/// already placed in `g`.
pub open spec fn solves(s: Seq<Seq<u8>>, g: Seq<Seq<u8>>) -> bool {
    &&& valid_grid(s)
    &&& is_complete(s)
    &&& is_square(g)
    &&& forall|r: int, c: int|
        0 <= r < 9 && 0 <= c < 9 && #[trigger] g[r][c] != 0 ==> s[r][c] == g[r][c]
}

/// `g` has at least one solution.
pub open spec fn solvable(g: Seq<Seq<u8>>) -> bool {
    exists|s: Seq<Seq<u8>>| solves(s, g)
}

/// `d` already stands in row `r`, in column `c`, or in the block that holds
/// `(r, c)`.
pub open spec fn digit_taken(g: Seq<Seq<u8>>, r: int, c: int, d: u8) -> bool {
    ||| exists|i: int| 0 <= i < 9 && #[trigger] g[r][i] == d
    ||| exists|i: int| 0 <= i < 9 && #[trigger] g[i][c] == d
    ||| exists|i: int, j: int|
        0 <= i < 3 && 0 <= j < 3 && #[trigger] g[r - r % 3 + i][c - c % 3 + j] == d
}

/// `g` with `d` written at `(r, c)`.
pub open spec fn place(g: Seq<Seq<u8>>, r: int, c: int, d: u8) -> Seq<Seq<u8>> {
    g.update(r, g[r].update(c, d))
}

/// Some cell of `g` is empty.
pub open spec fn has_empty(g: Seq<Seq<u8>>) -> bool {
    exists|x: int, y: int| 0 <= x < g.len() && 0 <= y < g[x].len() && #[trigger] g[x][y] == 0
}

/// `(r, c)` is the first empty cell of `g`, rows scanned top to bottom and
/// each row left to right.
pub open spec fn first_empty(g: Seq<Seq<u8>>, r: int, c: int) -> bool {
    &&& 0 <= r < g.len()
    &&& 0 <= c < g[r].len()
    &&& g[r][c] == 0
    &&& forall|x: int, y: int|
        0 <= x < g.len() && 0 <= y < g[x].len() && (x < r || (x == r && y < c))
            ==> #[trigger] g[x][y] != 0
}

/// The value of the `k`-th cell of `g`, rows read top to bottom and each
/// row left to right.
pub open spec fn cell_at(g: Seq<Seq<u8>>, k: int) -> u8 {
    g[k / 9][k % 9]
}

/// `f` comes no later than `s` in row-major order: wherever the two agree
/// on all earlier cells, `f` holds the smaller or equal value.
pub open spec fn lex_le(f: Seq<Seq<u8>>, s: Seq<Seq<u8>>) -> bool {
    forall|k: int|
        0 <= k < 81 && (forall|j: int| 0 <= j < k ==> cell_at(f, j) == cell_at(s, j)) ==> #[trigger] cell_at(
            f,
            k,
        ) <= cell_at(s, k)
}

/// `f` is the first solution of `g`: a solution that comes no later than any
/// other in row-major order.
pub open spec fn first_solution(f: Seq<Seq<u8>>, g: Seq<Seq<u8>>) -> bool {
    &&& solves(f, g)
    &&& forall|s: Seq<Seq<u8>>| #[trigger] solves(s, g) ==> lex_le(f, s)
}

/// How many cells of `s` are empty.
pub open spec fn zeros_in(s: Seq<u8>) -> nat
    decreases s.len(),
{
    if s.len() == 0 {
        0
    } else {
        zeros_in(s.drop_last()) + if s.last() == 0 {
            1nat
        } else {
            0nat
        }
    }
}

/// How many cells of `g` are empty.
pub open spec fn empty_count(g: Seq<Seq<u8>>) -> nat
    decreases g.len(),
{
    if g.len() == 0 {
        0
    } else {
        empty_count(g.drop_last()) + zeros_in(g.last())
    }
}

/// Filling an empty cell of a row leaves one empty cell fewer.
pub proof fn lemma_zeros_in_fill(s: Seq<u8>, i: int, v: u8)
    requires
        0 <= i < s.len(),
        s[i] == 0,
        v != 0,
    ensures
        zeros_in(s.update(i, v)) + 1 == zeros_in(s),
    decreases s.len(),
{
    if i == s.len() - 1 {
        assert(s.update(i, v).drop_last() =~= s.drop_last());
    } else {
        lemma_zeros_in_fill(s.drop_last(), i, v);
        assert(s.update(i, v).drop_last() =~= s.drop_last().update(i, v));
    }
}

/// Filling an empty cell of a board leaves one empty cell fewer.
pub proof fn lemma_empty_count_fill(g: Seq<Seq<u8>>, r: int, c: int, d: u8)
    requires
        0 <= r < g.len(),
        0 <= c < g[r].len(),
        g[r][c] == 0,
        d != 0,
    ensures
        empty_count(place(g, r, c, d)) + 1 == empty_count(g),
    decreases g.len(),
{
    let h = place(g, r, c, d);
    if r == g.len() - 1 {
        assert(h.drop_last() =~= g.drop_last());
        lemma_zeros_in_fill(g[r], c, d);
    } else {
        lemma_empty_count_fill(g.drop_last(), r, c, d);
        assert(h.drop_last() =~= place(g.drop_last(), r, c, d));
    }
}

/// Where the `k`-th cell of the block at `(3 * br, 3 * bc)` lies.
proof fn lemma_block_index(br: int, bc: int, k: int)
    requires
        0 <= br < 3,
        0 <= bc < 3,
        0 <= k < 9,
    ensures
        0 <= 3 * br + k / 3 < 9,
        0 <= 3 * bc + k % 3 < 9,
        (3 * br + k / 3) % 3 == k / 3,
        (3 * bc + k % 3) % 3 == k % 3,
        (3 * br + k / 3) / 3 == br,
        (3 * bc + k % 3) / 3 == bc,
{
}

/// Each cell `(r, c)` is a cell of the block at `(r - r % 3, c - c % 3)`.
proof fn lemma_cell_in_block(r: int, c: int)
    requires
        0 <= r < 9,
        0 <= c < 9,
    ensures
        r - r % 3 == 3 * (r / 3),
        c - c % 3 == 3 * (c / 3),
        0 <= r / 3 < 3,
        0 <= c / 3 < 3,
        0 <= 3 * (r % 3) + c % 3 < 9,
        (3 * (r % 3) + c % 3) / 3 == r % 3,
        (3 * (r % 3) + c % 3) % 3 == c % 3,
{
}

/// Writing a digit that row `r` does not hold keeps the rows free of repeats.
proof fn lemma_place_keeps_rows(g: Seq<Seq<u8>>, r: int, c: int, d: u8)
    requires
        valid_grid(g),
        0 <= r < 9,
        0 <= c < 9,
        !digit_taken(g, r, c, d),
    ensures
        forall|x: int| 0 <= x < 9 ==> no_repeat(#[trigger] place(g, r, c, d)[x]),
{
    let h = place(g, r, c, d);
    assert forall|x: int| 0 <= x < 9 implies no_repeat(#[trigger] h[x]) by {
        if x != r {
            assert(h[x] == g[x]);
        } else {
            assert(no_repeat(g[x]));
            assert forall|i: int, j: int|
                0 <= i < j < 9 && #[trigger] h[x][i] != 0 implies h[x][i] != #[trigger] h[x][j] by {
                if i == c {
                    assert(g[r][j] != d);
                } else if j == c {
                    assert(g[r][i] != d);
                }
            }
        }
    }
}

/// Writing a digit that column `c` does not hold keeps the columns free of
/// repeats.
proof fn lemma_place_keeps_columns(g: Seq<Seq<u8>>, r: int, c: int, d: u8)
    requires
        valid_grid(g),
        0 <= r < 9,
        0 <= c < 9,
        !digit_taken(g, r, c, d),
    ensures
        forall|y: int| 0 <= y < 9 ==> no_repeat(#[trigger] column(place(g, r, c, d), y)),
{
    let h = place(g, r, c, d);
    assert forall|y: int| 0 <= y < 9 implies no_repeat(#[trigger] column(h, y)) by {
        let col = column(h, y);
        assert(no_repeat(column(g, y)));
        assert forall|i: int, j: int|
            0 <= i < j < 9 && #[trigger] col[i] != 0 implies col[i] != #[trigger] col[j] by {
            assert(column(g, y)[i] == g[i][y] && column(g, y)[j] == g[j][y]);
            if y == c && i == r {
                assert(g[j][c] != d);
            } else if y == c && j == r {
                assert(g[i][c] != d);
            }
        }
    }
}

/// Writing a digit that the block of `(r, c)` does not hold keeps the blocks
/// free of repeats.
proof fn lemma_place_keeps_blocks(g: Seq<Seq<u8>>, r: int, c: int, d: u8)
    requires
        valid_grid(g),
        0 <= r < 9,
        0 <= c < 9,
        !digit_taken(g, r, c, d),
    ensures
        forall|br: int, bc: int|
            0 <= br < 3 && 0 <= bc < 3 ==> no_repeat(
                #[trigger] block(place(g, r, c, d), 3 * br, 3 * bc),
            ),
{
    let h = place(g, r, c, d);
    lemma_cell_in_block(r, c);
    assert forall|br: int, bc: int| 0 <= br < 3 && 0 <= bc < 3 implies no_repeat(
        #[trigger] block(h, 3 * br, 3 * bc),
    ) by {
        let bh = block(h, 3 * br, 3 * bc);
        let bg = block(g, 3 * br, 3 * bc);
        assert(no_repeat(bg));
        assert forall|i: int, j: int|
            0 <= i < j < 9 && #[trigger] bh[i] != 0 implies bh[i] != #[trigger] bh[j] by {
            lemma_block_index(br, bc, i);
            lemma_block_index(br, bc, j);
            let (xi, yi) = (3 * br + i / 3, 3 * bc + i % 3);
            let (xj, yj) = (3 * br + j / 3, 3 * bc + j % 3);
            assert(bg[i] == g[xi][yi] && bg[j] == g[xj][yj]);
            if xi == r && yi == c {
                assert(g[r - r % 3 + j / 3][c - c % 3 + j % 3] != d);
            } else if xj == r && yj == c {
                assert(g[r - r % 3 + i / 3][c - c % 3 + i % 3] != d);
            }
        }
    }
}

/// Writing into an empty cell a digit that its row, column and block do not
/// hold yet keeps a board valid.
pub proof fn lemma_place_keeps_valid(g: Seq<Seq<u8>>, r: int, c: int, d: u8)
    requires
        valid_grid(g),
        0 <= r < 9,
        0 <= c < 9,
        1 <= d <= 9,
        !digit_taken(g, r, c, d),
    ensures
        valid_grid(place(g, r, c, d)),
{
    lemma_place_keeps_rows(g, r, c, d);
    lemma_place_keeps_columns(g, r, c, d);
    lemma_place_keeps_blocks(g, r, c, d);
}

/// No solution of `g` holds at an empty cell a digit that the cell's row,
/// column or block already holds.
pub proof fn lemma_taken_digit_excluded(s: Seq<Seq<u8>>, g: Seq<Seq<u8>>, r: int, c: int, d: u8)
    requires
        solves(s, g),
        0 <= r < 9,
        0 <= c < 9,
        g[r][c] == 0,
        digit_taken(g, r, c, d),
    ensures
        s[r][c] != d,
{
    if s[r][c] == d {
        assert(d != 0);
        if exists|i: int| 0 <= i < 9 && #[trigger] g[r][i] == d {
            let i = choose|i: int| 0 <= i < 9 && #[trigger] g[r][i] == d;
            assert(s[r][i] == d);
            assert(no_repeat(s[r]));
            if i < c {
                assert(s[r][i] != s[r][c]);
            } else {
                assert(s[r][c] != s[r][i]);
            }
        } else if exists|i: int| 0 <= i < 9 && #[trigger] g[i][c] == d {
            let i = choose|i: int| 0 <= i < 9 && #[trigger] g[i][c] == d;
            let col = column(s, c);
            assert(no_repeat(col));
            assert(col[i] == d && col[r] == d);
            if i < r {
                assert(col[i] != col[r]);
            } else {
                assert(col[r] != col[i]);
            }
        } else {
            let (i, j) = choose|i: int, j: int|
                0 <= i < 3 && 0 <= j < 3 && #[trigger] g[r - r % 3 + i][c - c % 3 + j] == d;
            lemma_cell_in_block(r, c);
            let (br, bc) = (r / 3, c / 3);
            let b = block(s, 3 * br, 3 * bc);
            assert(no_repeat(b));
            let k1 = 3 * i + j;
            let k2 = 3 * (r % 3) + c % 3;
            assert(k1 / 3 == i && k1 % 3 == j);
            assert(b[k1] == s[r - r % 3 + i][c - c % 3 + j]);
            assert(b[k2] == s[r][c]);
            assert(b[k1] == d && b[k2] == d);
            assert(k1 != k2);
            if k1 < k2 {
                assert(b[k1] != b[k2]);
            } else {
                assert(b[k2] != b[k1]);
            }
        }
    }
}

/// A solution of `g` that holds `d` at the empty cell `(r, c)` is a solution
/// of `g` with the non-zero `d` written there, and back.
pub proof fn lemma_solves_place(s: Seq<Seq<u8>>, g: Seq<Seq<u8>>, r: int, c: int, d: u8)
    requires
        is_square(g),
        0 <= r < 9,
        0 <= c < 9,
        g[r][c] == 0,
        d != 0,
    ensures
        solves(s, place(g, r, c, d)) <==> solves(s, g) && s[r][c] == d,
{
    let h = place(g, r, c, d);
    if solves(s, h) {
        assert forall|x: int, y: int|
            0 <= x < 9 && 0 <= y < 9 && #[trigger] g[x][y] != 0 implies s[x][y] == g[x][y] by {
            assert(h[x][y] == g[x][y]);
        }
        assert(h[r][c] == d);
    }
}

/// Nine digits from 1 to 9, none repeated, are all nine of them.
proof fn lemma_unit_holds_every_digit(u: Seq<u8>)
    requires
        u.len() == 9,
        no_repeat(u),
        forall|i: int| 0 <= i < 9 ==> 1 <= #[trigger] u[i] <= 9,
    ensures
        forall|d: u8| 1 <= d <= 9 ==> #[trigger] u.contains(d),
{
    let t = u.map_values(|x: u8| x as int);
    assert(t.no_duplicates()) by {
        assert forall|i: int, j: int| 0 <= i < t.len() && 0 <= j < t.len() && i != j implies t[i]
            != t[j] by {
            if i < j {
                assert(u[i] != u[j]);
            } else {
                assert(u[j] != u[i]);
            }
        }
    }
    t.unique_seq_to_set();
    lemma_int_range(1, 10);
    assert(t.to_set().subset_of(set_int_range(1, 10)));
    lemma_subset_equality(t.to_set(), set_int_range(1, 10));
    assert forall|d: u8| 1 <= d <= 9 implies #[trigger] u.contains(d) by {
        assert(set_int_range(1, 10).contains(d as int));
        assert(t.to_set().contains(d as int));
        let i = choose|i: int| 0 <= i < t.len() && t[i] == d as int;
        assert(u[i] == d);
    }
}

/// In a solution every row, every column and every block holds each digit
/// from 1 to 9, and holds no other value and no value twice: each unit is a
/// permutation of 1 to 9.
pub proof fn lemma_solution_units_are_permutations(s: Seq<Seq<u8>>, g: Seq<Seq<u8>>)
    requires
        solves(s, g),
    ensures
        forall|r: int, c: int| 0 <= r < 9 && 0 <= c < 9 ==> 1 <= #[trigger] s[r][c] <= 9,
        forall|r: int, d: u8|
            0 <= r < 9 && 1 <= d <= 9 ==> no_repeat(s[r]) && #[trigger] s[r].contains(d),
        forall|c: int, d: u8|
            0 <= c < 9 && 1 <= d <= 9 ==> no_repeat(column(s, c)) && #[trigger] column(
                s,
                c,
            ).contains(d),
        forall|br: int, bc: int, d: u8|
            0 <= br < 3 && 0 <= bc < 3 && 1 <= d <= 9 ==> no_repeat(block(s, 3 * br, 3 * bc))
                && #[trigger] block(s, 3 * br, 3 * bc).contains(d),
{
    assert forall|r: int, d: u8| 0 <= r < 9 && 1 <= d <= 9 implies #[trigger] s[r].contains(d) by {
        assert(no_repeat(s[r]));
        assert forall|i: int| 0 <= i < 9 implies 1 <= #[trigger] s[r][i] <= 9 by {}
        lemma_unit_holds_every_digit(s[r]);
    }
    assert forall|c: int, d: u8| 0 <= c < 9 && 1 <= d <= 9 implies #[trigger] column(
        s,
        c,
    ).contains(d) by {
        let u = column(s, c);
        assert(no_repeat(u));
        assert forall|i: int| 0 <= i < 9 implies 1 <= #[trigger] u[i] <= 9 by {
            assert(u[i] == s[i][c]);
        }
        lemma_unit_holds_every_digit(u);
    }
    assert forall|br: int, bc: int, d: u8|
        0 <= br < 3 && 0 <= bc < 3 && 1 <= d <= 9 implies #[trigger] block(
        s,
        3 * br,
        3 * bc,
    ).contains(d) by {
        let u = block(s, 3 * br, 3 * bc);
        assert(no_repeat(u));
        assert forall|i: int| 0 <= i < 9 implies 1 <= #[trigger] u[i] <= 9 by {
            lemma_block_index(br, bc, i);
            assert(u[i] == s[3 * br + i / 3][3 * bc + i % 3]);
        }
        lemma_unit_holds_every_digit(u);
    }
}

/// A board with no empty cell is its own first solution.
pub proof fn lemma_first_solution_of_complete(g: Seq<Seq<u8>>)
    requires
        valid_grid(g),
        is_complete(g),
    ensures
        first_solution(g, g),
{
    assert forall|s: Seq<Seq<u8>>| #[trigger] solves(s, g) implies lex_le(g, s) by {
        assert forall|k: int| 0 <= k < 81 implies #[trigger] cell_at(g, k) <= cell_at(s, k) by {
            assert(g[k / 9][k % 9] != 0);
        }
    }
}

/// At the first empty cell `(r, c)` of `g`: the first solution of `g` with
/// `d` written there is the first solution of `g`, when no solution of `g`
/// holds a smaller digit there.
pub proof fn lemma_first_solution_of_place(f: Seq<Seq<u8>>, g: Seq<Seq<u8>>, r: int, c: int, d: u8)
    requires
        valid_grid(g),
        first_empty(g, r, c),
        1 <= d <= 9,
        first_solution(f, place(g, r, c, d)),
        forall|s: Seq<Seq<u8>>| #[trigger] solves(s, g) ==> s[r][c] >= d,
    ensures
        first_solution(f, g),
{
    lemma_solves_place(f, g, r, c, d);
    let n = 9 * r + c;
    assert(n / 9 == r && n % 9 == c);
    assert forall|s: Seq<Seq<u8>>| #[trigger] solves(s, g) implies lex_le(f, s) by {
        lemma_solves_place(s, g, r, c, d);
        if s[r][c] != d {
            assert forall|k: int|
                0 <= k < 81 && (forall|j: int| 0 <= j < k ==> cell_at(f, j) == cell_at(s, j)) implies #[trigger] cell_at(
                f,
                k,
            ) <= cell_at(s, k) by {
                let (x, y) = (k / 9, k % 9);
                if k < n {
                    assert(x < r || (x == r && y < c));
                    assert(g[x][y] != 0);
                } else if k > n {
                    assert(cell_at(f, n) == cell_at(s, n));
                }
            }
        }
    }
}

} // verus!
