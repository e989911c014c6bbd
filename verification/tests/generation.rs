use sudoku_service::carver::{cell_list, clear_cells, remove_cells};
use sudoku_service::classifier::{classify, SudokuState};
use sudoku_service::generator::{candidates, fill_board, generate_full_board};
use sudoku_service::grid::{empty_grid, SudokuSize};
use sudoku_service::sudoku::Sudoku;

fn shifted_rows(b: usize) -> Vec<Vec<u8>> {
    let n = b * b;
    (0..n)
        .map(|r| (0..n).map(|c| (((r % b) * b + r / b + c) % n + 1) as u8).collect())
        .collect()
}

fn is_permutation(mut line: Vec<u8>) -> bool {
    let n = line.len();
    line.sort();
    line == (1..=n as u8).collect::<Vec<u8>>()
}

/// Checks rows, columns and boxes without the library's help.
fn is_solution(board: &Vec<Vec<u8>>, b: usize) -> bool {
    let n = b * b;
    if board.len() != n || board.iter().any(|row| row.len() != n) {
        return false;
    }
    for i in 0..n {
        let row: Vec<u8> = board[i].clone();
        let col: Vec<u8> = (0..n).map(|r| board[r][i]).collect();
        let boxed: Vec<u8> =
            (0..n).map(|k| board[(i / b) * b + k / b][(i % b) * b + k % b]).collect();
        if !is_permutation(row) || !is_permutation(col) || !is_permutation(boxed) {
            return false;
        }
    }
    true
}

fn zeros(board: &Vec<Vec<u8>>) -> usize {
    board.iter().map(|row| row.iter().filter(|&&v| v == 0).count()).sum()
}

#[test]
fn candidates_are_one_to_n() {
    assert_eq!(candidates(0), Vec::<u8>::new());
    assert_eq!(candidates(4), vec![1, 2, 3, 4]);
    assert_eq!(candidates(9), vec![1, 2, 3, 4, 5, 6, 7, 8, 9]);
    assert_eq!(candidates(255).len(), 255);
    assert_eq!(candidates(255)[254], 255);
}

#[test]
fn full_boards_are_valid_small() {
    for _ in 0..200 {
        let board = generate_full_board(SudokuSize::SUDOKU4X4).unwrap();
        assert!(is_solution(&board, 2));
    }
}

#[test]
fn full_boards_are_valid_medium() {
    for _ in 0..200 {
        let board = generate_full_board(SudokuSize::SUDOKU9X9).unwrap();
        assert!(is_solution(&board, 3));
    }
}

#[test]
fn large_board_is_completed_validly() {
    for _ in 0..50 {
        let mut board = shifted_rows(4);
        for r in 12..16 {
            for c in 0..16 {
                board[r][c] = 0;
            }
        }
        let before = board.clone();
        assert!(fill_board(&mut board, 4));
        assert!(is_solution(&board, 4));
        for r in 0..12 {
            assert_eq!(board[r], before[r]);
        }
    }
}

#[test]
fn generation_is_randomized() {
    let first = generate_full_board(SudokuSize::SUDOKU9X9).unwrap();
    let mut differs = false;
    for _ in 0..20 {
        if generate_full_board(SudokuSize::SUDOKU9X9).unwrap() != first {
            differs = true;
        }
    }
    assert!(differs);
}

#[test]
fn fill_board_keeps_given_cells() {
    let mut board = empty_grid(9);
    board[0][0] = 9;
    board[4][4] = 1;
    board[8][8] = 5;
    assert!(fill_board(&mut board, 3));
    assert!(is_solution(&board, 3));
    assert_eq!(board[0][0], 9);
    assert_eq!(board[4][4], 1);
    assert_eq!(board[8][8], 5);
}

#[test]
fn fill_board_leaves_full_board_alone() {
    let mut board = shifted_rows(3);
    assert!(fill_board(&mut board, 3));
    assert_eq!(board, shifted_rows(3));
}

#[test]
fn fill_board_fails_without_candidate_and_restores() {
    // (0, 3) needs 4, which its column already holds.
    let mut board = vec![vec![1, 2, 3, 0], vec![0, 0, 0, 4], vec![0, 0, 0, 0], vec![0, 0, 0, 0]];
    let before = board.clone();
    assert!(!fill_board(&mut board, 2));
    assert_eq!(board, before);
}

#[test]
fn fill_board_fails_after_backtracking_and_restores() {
    // (0, 2) takes 3 or 4, and either way (0, 3) needs the other one, which
    // its column already holds.
    let mut board = vec![vec![1, 2, 0, 0], vec![0, 0, 0, 0], vec![0, 0, 0, 3], vec![0, 0, 0, 4]];
    let before = board.clone();
    for _ in 0..20 {
        assert!(!fill_board(&mut board, 2));
        assert_eq!(board, before);
    }
}

#[test]
fn fill_board_may_succeed_on_inconsistent_givens() {
    // The two given cells repeat a value in the first row; the search only
    // looks at the cells it fills, so it completes the board around them.
    let mut board = vec![vec![1, 1, 0, 0], vec![0, 0, 0, 0], vec![0, 0, 0, 0], vec![0, 0, 0, 0]];
    if fill_board(&mut board, 2) {
        assert_eq!(board[0][0], 1);
        assert_eq!(board[0][1], 1);
        assert_eq!(zeros(&board), 0);
        assert!(!is_solution(&board, 2));
    } else {
        assert_eq!(board[0], vec![1, 1, 0, 0]);
        assert_eq!(zeros(&board), 14);
    }
}

#[test]
fn cell_list_is_row_major() {
    assert_eq!(cell_list(0), Vec::<(usize, usize)>::new());
    assert_eq!(cell_list(2), vec![(0, 0), (0, 1), (1, 0), (1, 1)]);
    let cells = cell_list(9);
    assert_eq!(cells.len(), 81);
    assert_eq!(cells[10], (1, 1));
    assert_eq!(cells[80], (8, 8));
}

#[test]
fn clear_cells_empties_the_first_named_cells() {
    let mut board = shifted_rows(2);
    let cells = vec![(0, 0), (3, 3), (1, 2), (2, 1)];
    clear_cells(&mut board, &cells, 3);
    let full = shifted_rows(2);
    for r in 0..4 {
        for c in 0..4 {
            let cleared = [(0, 0), (3, 3), (1, 2)].contains(&(r, c));
            assert_eq!(board[r][c], if cleared { 0 } else { full[r][c] });
        }
    }
}

#[test]
fn clear_cells_stops_at_end_of_list() {
    let mut board = shifted_rows(2);
    clear_cells(&mut board, &vec![(1, 1), (2, 2)], 10);
    assert_eq!(zeros(&board), 2);
    assert_eq!(board[1][1], 0);
    assert_eq!(board[2][2], 0);
    let mut board = shifted_rows(2);
    clear_cells(&mut board, &vec![(1, 1), (2, 2)], 0);
    assert_eq!(board, shifted_rows(2));
}

#[test]
fn carve_cardinality() {
    for (b, k) in [(2usize, 6usize), (3, 40), (4, 120), (3, 0), (3, 80), (3, 81)] {
        let full = shifted_rows(b);
        let mut board = full.clone();
        remove_cells(&mut board, k);
        assert_eq!(zeros(&board), k);
        let n = b * b;
        for r in 0..n {
            for c in 0..n {
                assert!(board[r][c] == 0 || board[r][c] == full[r][c]);
            }
        }
    }
}

#[test]
fn carving_more_than_all_cells_empties_the_board() {
    let mut board = shifted_rows(2);
    remove_cells(&mut board, 1000);
    assert_eq!(board, empty_grid(4));
}

#[test]
fn carving_is_randomized() {
    // The first forty cells in row-major order are rows 0 to 3 and four cells of row 4.
    let mut board = shifted_rows(3);
    remove_cells(&mut board, 40);
    let first_forty = (0..40).all(|i| board[i / 9][i % 9] == 0);
    assert!(!first_forty);
}

#[test]
fn carving_counts_only_newly_emptied_cells() {
    // The board has one empty cell already; emptying all but one cell at
    // random leaves fifteen or sixteen empty.
    let mut board = shifted_rows(2);
    board[0][0] = 0;
    remove_cells(&mut board, 15);
    let empty = zeros(&board);
    assert!(empty == 15 || empty == 16);
    assert_eq!(board[0][0], 0);
}

#[test]
fn generated_puzzles_have_prescribed_number_of_empty_cells() {
    for (size, b, k) in [(SudokuSize::SUDOKU4X4, 2usize, 6usize), (SudokuSize::SUDOKU9X9, 3, 40)] {
        for _ in 0..50 {
            let puzzle = Sudoku::generate_sudoku(size).unwrap();
            assert_eq!(puzzle.sudoku_size, size);
            assert_eq!(puzzle.board.len(), b * b);
            assert_eq!(zeros(&puzzle.board), k);
            assert_eq!(puzzle.is_solved(), SudokuState::Incomplete);
            // The cells that are left can be completed again.
            let mut refill = puzzle.board.clone();
            assert!(fill_board(&mut refill, b));
            assert!(is_solution(&refill, b));
        }
    }
}

#[test]
fn end_to_end_small() {
    let full = generate_full_board(SudokuSize::SUDOKU4X4).unwrap();
    assert_eq!(full.len(), 4);
    assert_eq!(zeros(&full), 0);
    assert!(is_solution(&full, 2));

    let mut carved = full.clone();
    remove_cells(&mut carved, SudokuSize::SUDOKU4X4.empty_cells());
    assert_eq!(zeros(&carved), 6);
    assert_eq!(16 - zeros(&carved), 10);

    assert_eq!(classify(&full, SudokuSize::SUDOKU4X4), SudokuState::Solved);
    assert_eq!(classify(&carved, SudokuSize::SUDOKU4X4), SudokuState::Incomplete);
}
