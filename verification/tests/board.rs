use sudoku_service::classifier::{classify, SudokuState};
use sudoku_service::grid::{empty_grid, has_dimension, set_cell, SudokuSize};
use sudoku_service::rules::{is_valid, is_valid_overwrite};
use sudoku_service::sudoku::Sudoku;

fn shifted_rows(b: usize) -> Vec<Vec<u8>> {
    let n = b * b;
    (0..n)
        .map(|r| (0..n).map(|c| (((r % b) * b + r / b + c) % n + 1) as u8).collect())
        .collect()
}

fn solved_small() -> Vec<Vec<u8>> {
    vec![vec![1, 2, 3, 4], vec![3, 4, 1, 2], vec![2, 1, 4, 3], vec![4, 3, 2, 1]]
}

fn solved_medium() -> Vec<Vec<u8>> {
    vec![
        vec![5, 3, 4, 6, 7, 8, 9, 1, 2],
        vec![6, 7, 2, 1, 9, 5, 3, 4, 8],
        vec![1, 9, 8, 3, 4, 2, 5, 6, 7],
        vec![8, 5, 9, 7, 6, 1, 4, 2, 3],
        vec![4, 2, 6, 8, 5, 3, 7, 9, 1],
        vec![7, 1, 3, 9, 2, 4, 8, 5, 6],
        vec![9, 6, 1, 5, 3, 7, 2, 8, 4],
        vec![2, 8, 7, 4, 1, 9, 6, 3, 5],
        vec![3, 4, 5, 2, 8, 6, 1, 7, 9],
    ]
}

#[test]
fn sizes_fix_box_and_board_dimension() {
    assert_eq!(SudokuSize::SUDOKU4X4.box_dimension(), 2);
    assert_eq!(SudokuSize::SUDOKU9X9.box_dimension(), 3);
    assert_eq!(SudokuSize::SUDOKU16X16.box_dimension(), 4);
    assert_eq!(SudokuSize::SUDOKU4X4.dimension(), 4);
    assert_eq!(SudokuSize::SUDOKU9X9.dimension(), 9);
    assert_eq!(SudokuSize::SUDOKU16X16.dimension(), 16);
}

#[test]
fn sizes_fix_number_of_removed_cells() {
    assert_eq!(SudokuSize::SUDOKU4X4.empty_cells(), 6);
    assert_eq!(SudokuSize::SUDOKU9X9.empty_cells(), 40);
    assert_eq!(SudokuSize::SUDOKU16X16.empty_cells(), 120);
}

#[test]
fn empty_grid_is_square_and_all_zero() {
    for n in [0usize, 1, 4, 9, 16] {
        let board = empty_grid(n);
        assert_eq!(board.len(), n);
        for row in &board {
            assert_eq!(row.len(), n);
            assert!(row.iter().all(|&v| v == 0));
        }
    }
}

#[test]
fn has_dimension_accepts_only_square_boards_of_that_size() {
    assert!(has_dimension(&solved_small(), 4));
    assert!(!has_dimension(&solved_small(), 9));
    assert!(has_dimension(&solved_medium(), 9));
    assert!(has_dimension(&Vec::new(), 0));
    let mut ragged = solved_small();
    ragged[2].pop();
    assert!(!has_dimension(&ragged, 4));
    let mut long = solved_small();
    long[3].push(1);
    assert!(!has_dimension(&long, 4));
    let mut short = solved_small();
    short.pop();
    assert!(!has_dimension(&short, 4));
}

#[test]
fn set_cell_changes_one_cell() {
    let mut board = empty_grid(4);
    set_cell(&mut board, 2, 1, 3);
    for r in 0..4 {
        for c in 0..4 {
            assert_eq!(board[r][c], if (r, c) == (2, 1) { 3 } else { 0 });
        }
    }
}

#[test]
fn is_valid_rejects_value_in_row() {
    let mut board = empty_grid(9);
    board[4][8] = 7;
    assert!(!is_valid(&board, 4, 0, 7, 3));
    assert!(is_valid(&board, 4, 0, 6, 3));
}

#[test]
fn is_valid_rejects_value_in_column() {
    let mut board = empty_grid(9);
    board[8][2] = 5;
    assert!(!is_valid(&board, 0, 2, 5, 3));
    assert!(is_valid(&board, 0, 2, 4, 3));
}

#[test]
fn is_valid_rejects_value_in_box() {
    let mut board = empty_grid(9);
    board[5][5] = 9;
    // (3, 3) shares neither row nor column with (5, 5), only the box.
    assert!(!is_valid(&board, 3, 3, 9, 3));
    // (2, 2) lies in another box, row and column.
    assert!(is_valid(&board, 2, 2, 9, 3));
    // (6, 6) lies just past the box's far corner.
    assert!(is_valid(&board, 6, 6, 9, 3));
}

#[test]
fn is_valid_uses_the_box_origin_of_the_cell() {
    let mut board = empty_grid(16);
    board[4][8] = 11;
    for r in 4..8 {
        for c in 8..12 {
            assert!(!is_valid(&board, r, c, 11, 4));
        }
    }
    assert!(is_valid(&board, 3, 7, 11, 4));
    assert!(is_valid(&board, 8, 12, 11, 4));
    assert!(is_valid(&board, 3, 12, 11, 4));
    assert!(is_valid(&board, 8, 7, 11, 4));
}

#[test]
fn is_valid_accepts_anything_on_empty_board() {
    let board = empty_grid(4);
    for r in 0..4 {
        for c in 0..4 {
            for v in 1..=4u8 {
                assert!(is_valid(&board, r, c, v, 2));
            }
        }
    }
}

#[test]
fn is_valid_counts_the_cell_itself() {
    let board = solved_small();
    assert!(!is_valid(&board, 0, 0, 1, 2));
    assert!(is_valid_overwrite(&board, 0, 0, 1, 2));
}

#[test]
fn solved_board_admits_no_placement() {
    for (board, b) in [(solved_small(), 2usize), (solved_medium(), 3), (shifted_rows(4), 4)] {
        let n = b * b;
        for r in 0..n {
            for c in 0..n {
                for v in 1..=n as u8 {
                    assert!(!is_valid(&board, r, c, v, b));
                }
            }
        }
    }
}

#[test]
fn solved_board_admits_only_own_value_on_overwrite() {
    for (board, b) in [(solved_small(), 2usize), (solved_medium(), 3), (shifted_rows(4), 4)] {
        let n = b * b;
        for r in 0..n {
            for c in 0..n {
                for v in 1..=n as u8 {
                    assert_eq!(is_valid_overwrite(&board, r, c, v, b), v == board[r][c]);
                }
            }
        }
    }
}

#[test]
fn overwrite_check_sees_row_column_and_box() {
    let mut board = empty_grid(9);
    board[4][4] = 1;
    board[4][0] = 2;
    board[0][4] = 3;
    board[3][5] = 4;
    assert!(is_valid_overwrite(&board, 4, 4, 1, 3));
    assert!(!is_valid_overwrite(&board, 4, 4, 2, 3));
    assert!(!is_valid_overwrite(&board, 4, 4, 3, 3));
    assert!(!is_valid_overwrite(&board, 4, 4, 4, 3));
    assert!(is_valid_overwrite(&board, 4, 4, 5, 3));
}

#[test]
fn classifier_accepts_solved_boards() {
    assert_eq!(classify(&solved_small(), SudokuSize::SUDOKU4X4), SudokuState::Solved);
    assert_eq!(classify(&solved_medium(), SudokuSize::SUDOKU9X9), SudokuState::Solved);
    assert_eq!(classify(&shifted_rows(2), SudokuSize::SUDOKU4X4), SudokuState::Solved);
    assert_eq!(classify(&shifted_rows(3), SudokuSize::SUDOKU9X9), SudokuState::Solved);
    assert_eq!(classify(&shifted_rows(4), SudokuSize::SUDOKU16X16), SudokuState::Solved);
}

#[test]
fn classifier_reports_incomplete_before_invalid() {
    // One empty cell on an otherwise solved board.
    let mut board = solved_medium();
    board[8][8] = 0;
    assert_eq!(classify(&board, SudokuSize::SUDOKU9X9), SudokuState::Incomplete);
    // An empty cell and a duplicate in the first row: still incomplete.
    let mut board = solved_medium();
    board[0][1] = 5;
    board[8][8] = 0;
    assert_eq!(classify(&board, SudokuSize::SUDOKU9X9), SudokuState::Incomplete);
    // The empty board.
    assert_eq!(classify(&empty_grid(4), SudokuSize::SUDOKU4X4), SudokuState::Incomplete);
    assert_eq!(classify(&empty_grid(16), SudokuSize::SUDOKU16X16), SudokuState::Incomplete);
}

#[test]
fn classifier_rejects_row_swap() {
    for (board, size) in [
        (solved_small(), SudokuSize::SUDOKU4X4),
        (solved_medium(), SudokuSize::SUDOKU9X9),
        (shifted_rows(4), SudokuSize::SUDOKU16X16),
    ] {
        let n = board.len();
        for r in 0..n {
            let mut swapped = board.clone();
            swapped[r].swap(0, n - 1);
            assert_eq!(classify(&swapped, size), SudokuState::Invalid);
        }
    }
}

#[test]
fn classifier_rejects_duplicate_in_row() {
    let mut board = solved_small();
    board[0][0] = 2;
    assert_eq!(classify(&board, SudokuSize::SUDOKU4X4), SudokuState::Invalid);
}

#[test]
fn classifier_rejects_duplicate_in_box_only() {
    // Rows and columns are permutations; the boxes are not.
    let board = vec![vec![1, 2, 3, 4], vec![2, 3, 4, 1], vec![3, 4, 1, 2], vec![4, 1, 2, 3]];
    assert_eq!(classify(&board, SudokuSize::SUDOKU4X4), SudokuState::Invalid);
}

#[test]
fn classifier_rejects_value_above_dimension() {
    // Every 4 replaced by 5: still no duplicates, but 5 is no value of a 4x4 board.
    let board: Vec<Vec<u8>> = solved_small()
        .into_iter()
        .map(|row| row.into_iter().map(|v| if v == 4 { 5 } else { v }).collect())
        .collect();
    assert_eq!(classify(&board, SudokuSize::SUDOKU4X4), SudokuState::Invalid);
}

#[test]
fn puzzle_is_classified_by_its_own_size() {
    let solved = Sudoku { board: solved_medium(), sudoku_size: SudokuSize::SUDOKU9X9 };
    assert_eq!(solved.is_solved(), SudokuState::Solved);
    let mut open = solved.clone();
    open.board[3][3] = 0;
    assert_eq!(open.is_solved(), SudokuState::Incomplete);
    let mut wrong = solved.clone();
    wrong.board[3][3] = wrong.board[3][4];
    assert_eq!(wrong.is_solved(), SudokuState::Invalid);
}
