use sudoku::render::render_board;
use sudoku::solver::{find_empty, get_solution, solve_puzzle};
use sudoku::validate::{is_unique_vector, is_valid_board, is_valid_move};

fn classic() -> Vec<Vec<u8>> {
    vec![
        vec![0, 0, 0, 0, 0, 2, 7, 3, 4],
        vec![7, 0, 0, 0, 0, 5, 0, 9, 0],
        vec![0, 4, 0, 0, 0, 0, 0, 0, 0],
        vec![0, 0, 0, 0, 0, 1, 0, 0, 0],
        vec![4, 0, 6, 0, 2, 0, 0, 1, 3],
        vec![0, 0, 8, 0, 0, 0, 9, 4, 0],
        vec![9, 0, 0, 0, 0, 7, 0, 0, 0],
        vec![0, 0, 0, 0, 8, 0, 0, 0, 2],
        vec![0, 8, 0, 0, 3, 0, 5, 0, 0],
    ]
}

fn unsolvable() -> Vec<Vec<u8>> {
    vec![
        vec![0, 0, 5, 0, 7, 0, 9, 0, 4],
        vec![0, 9, 0, 0, 4, 0, 2, 3, 1],
        vec![6, 0, 2, 0, 9, 1, 0, 0, 0],
        vec![5, 0, 0, 4, 0, 3, 0, 0, 8],
        vec![0, 1, 6, 5, 0, 2, 0, 0, 0],
        vec![0, 8, 0, 0, 1, 0, 5, 2, 6],
        vec![2, 6, 0, 0, 0, 0, 0, 8, 5],
        vec![3, 0, 0, 8, 0, 7, 0, 1, 0],
        vec![8, 0, 9, 0, 0, 0, 0, 4, 3],
    ]
}

fn is_permutation(unit: &[u8]) -> bool {
    let mut sorted = unit.to_vec();
    sorted.sort();
    sorted == vec![1, 2, 3, 4, 5, 6, 7, 8, 9]
}

fn every_unit_is_permutation(board: &[Vec<u8>]) -> bool {
    for r in 0..9 {
        if !is_permutation(&board[r]) {
            return false;
        }
    }
    for c in 0..9 {
        let col: Vec<u8> = (0..9).map(|r| board[r][c]).collect();
        if !is_permutation(&col) {
            return false;
        }
    }
    for br in 0..3 {
        for bc in 0..3 {
            let b: Vec<u8> = (0..9).map(|k| board[3 * br + k / 3][3 * bc + k % 3]).collect();
            if !is_permutation(&b) {
                return false;
            }
        }
    }
    true
}

fn keeps_givens(puzzle: &[Vec<u8>], solution: &[Vec<u8>]) -> bool {
    (0..9).all(|r| (0..9).all(|c| puzzle[r][c] == 0 || puzzle[r][c] == solution[r][c]))
}

#[test]
fn classic_puzzle_solution() {
    let mut board = classic();
    let solution = solve_puzzle(&mut board).unwrap().clone();
    assert_eq!(solution[0], vec![8, 1, 5, 6, 9, 2, 7, 3, 4]);
    assert!(every_unit_is_permutation(&solution));
    assert!(keeps_givens(&classic(), &solution));
    assert_eq!(board, solution);
}

#[test]
fn unsolvable_puzzle_leaves_board_unchanged() {
    let mut board = unsolvable();
    assert!(is_valid_board(&board));
    assert_eq!(solve_puzzle(&mut board), None);
    assert_eq!(board, unsolvable());
}

#[test]
fn eight_rows_is_invalid() {
    let mut board = classic();
    board.pop();
    assert!(!is_valid_board(&board));
    assert_eq!(solve_puzzle(&mut board), None);
}

#[test]
fn value_ten_is_invalid() {
    let mut board = classic();
    board[8][8] = 10;
    let before = board.clone();
    assert!(!is_valid_board(&board));
    assert_eq!(solve_puzzle(&mut board), None);
    assert_eq!(board, before);
}

#[test]
fn empty_grid_is_invalid() {
    let board: Vec<Vec<u8>> = Vec::new();
    assert!(!is_valid_board(&board));
}

#[test]
fn short_later_row_is_invalid() {
    let mut board = classic();
    board[5].pop();
    assert!(!is_valid_board(&board));
}

#[test]
fn long_later_row_is_invalid() {
    let mut board = classic();
    board[7].push(0);
    assert!(!is_valid_board(&board));
}

#[test]
fn ten_rows_is_invalid() {
    let mut board = classic();
    board.push(vec![0; 9]);
    assert!(!is_valid_board(&board));
}

#[test]
fn valid_boards_pass_validation() {
    assert!(is_valid_board(&classic()));
    assert!(is_valid_board(&vec![vec![0; 9]; 9]));
}

#[test]
fn validation_does_not_change_board() {
    let board = classic();
    assert!(is_valid_board(&board));
    assert!(is_valid_board(&board));
    assert_eq!(board, classic());
}

#[test]
fn empty_board_gets_first_solution() {
    let mut board = vec![vec![0u8; 9]; 9];
    let solution = solve_puzzle(&mut board).unwrap();
    assert!(every_unit_is_permutation(solution));
    let first = vec![
        vec![1, 2, 3, 4, 5, 6, 7, 8, 9],
        vec![4, 5, 6, 7, 8, 9, 1, 2, 3],
        vec![7, 8, 9, 1, 2, 3, 4, 5, 6],
        vec![2, 1, 4, 3, 6, 5, 8, 9, 7],
        vec![3, 6, 5, 8, 9, 7, 2, 1, 4],
        vec![8, 9, 7, 2, 1, 4, 3, 6, 5],
        vec![5, 3, 1, 6, 4, 2, 9, 7, 8],
        vec![6, 4, 2, 9, 7, 8, 5, 3, 1],
        vec![9, 7, 8, 5, 3, 1, 6, 4, 2],
    ];
    assert_eq!(solution, &first);
}

#[test]
fn complete_board_is_its_own_solution() {
    let mut board = classic();
    let solution = solve_puzzle(&mut board).unwrap().clone();
    let mut again = solution.clone();
    assert_eq!(solve_puzzle(&mut again).unwrap(), &solution);
}

#[test]
fn unique_vector_cases() {
    assert!(is_unique_vector(&vec![]));
    assert!(is_unique_vector(&vec![0, 0, 0]));
    assert!(is_unique_vector(&vec![9, 8, 7, 0, 1]));
    assert!(!is_unique_vector(&vec![1, 2, 1]));
    assert!(!is_unique_vector(&vec![0, 5, 0, 5]));
    assert!(!is_unique_vector(&vec![12, 3, 12]));
}

#[test]
fn valid_move_checks_block() {
    let board = classic();
    // 6 stands in the block of (3, 1) but not in its row or column
    assert!(!is_valid_move(&board, &(3, 1), 6));
    assert!(is_valid_move(&board, &(3, 1), 9));
}

#[test]
fn valid_move_checks_row_and_column() {
    let board = classic();
    assert!(!is_valid_move(&board, &(0, 0), 7));
    assert!(!is_valid_move(&board, &(0, 0), 2));
    assert!(is_valid_move(&board, &(0, 0), 8));
}

#[test]
fn find_empty_on_full_board() {
    let mut board = classic();
    solve_puzzle(&mut board).unwrap();
    assert_eq!(find_empty(&board), None);
}

#[test]
fn find_empty_is_row_major() {
    let mut board = vec![vec![1u8; 9]; 9];
    board[4][2] = 0;
    board[2][7] = 0;
    assert_eq!(find_empty(&board), Some((2, 7)));
}

#[test]
fn get_solution_restores_board_when_unsolvable() {
    let mut board = unsolvable();
    let (solved, result) = get_solution(false, &mut board);
    assert!(!solved);
    assert_eq!(result, &unsolvable());
}

#[test]
fn get_solution_fills_board() {
    let mut board = classic();
    let (solved, result) = get_solution(true, &mut board);
    assert!(solved);
    assert!(every_unit_is_permutation(result));
}

#[test]
fn render_solved_classic() {
    let mut board = classic();
    let solution = solve_puzzle(&mut board).unwrap();
    let text = String::from_utf8(render_board(solution).unwrap()).unwrap();
    let expected = "| 8 1 5 | 6 9 2 | 7 3 4 |\n| 7 3 2 | 4 1 5 | 6 9 8 |\n| 6 4 9 | 3 7 8 | 1 2 5 |\n\
- - - - - - - - - - - - - -\n| 3 9 7 | 8 4 1 | 2 5 6 |\n| 4 5 6 | 7 2 9 | 8 1 3 |\n| 1 2 8 | 5 6 3 | 9 4 7 |\n\
- - - - - - - - - - - - - -\n| 9 6 3 | 2 5 7 | 4 8 1 |\n| 5 7 1 | 9 8 4 | 3 6 2 |\n| 2 8 4 | 1 3 6 | 5 7 9 |\n";
    assert_eq!(text, expected);
}

#[test]
fn render_shows_empty_cells_as_zero() {
    let text = String::from_utf8(render_board(&classic()).unwrap()).unwrap();
    assert!(text.starts_with("| 0 0 0 | 0 0 2 | 7 3 4 |\n| 7 0 0 |"));
}

#[test]
fn render_invalid_board() {
    let mut board = classic();
    board[0][0] = 2;
    assert_eq!(render_board(&board), None);
}
