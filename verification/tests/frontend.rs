use sudoku_service::grid::SudokuSize;
use sudoku_service::input::{menu_choice, parse_number, Command, InputState, Key, MenuChoice};
use sudoku_service::render::{digit_char, push_cell, render_board};
use sudoku_service::sudoku::Sudoku;

fn small_puzzle() -> Sudoku {
    Sudoku {
        board: vec![vec![1, 0, 3, 4], vec![3, 4, 0, 2], vec![0, 1, 4, 3], vec![4, 3, 2, 0]],
        sudoku_size: SudokuSize::SUDOKU4X4,
    }
}

fn press(state: &mut InputState, sudoku: &mut Option<Sudoku>, keys: &str) {
    for c in keys.chars() {
        let key = match c {
            '\n' => Key::Enter,
            '<' => Key::Backspace,
            '!' => Key::Esc,
            other => Key::Char(other),
        };
        state.handle_key(sudoku, key);
    }
}

#[test]
fn digit_chars() {
    for d in 0..10u8 {
        assert_eq!(digit_char(d), (b'0' + d) as char);
    }
}

#[test]
fn cells_are_centred_in_three_columns() {
    for value in 1..=255u8 {
        let mut out = String::from("|");
        push_cell(&mut out, value);
        assert_eq!(out, format!("|{:^3}", value));
    }
    let mut out = String::new();
    push_cell(&mut out, 0);
    assert_eq!(out, " . ");
    let mut out = String::new();
    push_cell(&mut out, 7);
    push_cell(&mut out, 16);
    push_cell(&mut out, 255);
    assert_eq!(out, " 7 16 255");
}

#[test]
fn board_is_rendered_row_by_row() {
    let board = vec![vec![1, 0, 3, 4], vec![0, 4, 1, 2], vec![2, 1, 4, 0], vec![4, 3, 0, 1]];
    assert_eq!(
        render_board(&board),
        " 1  .  3  4 \n .  4  1  2 \n 2  1  4  . \n 4  3  .  1 \n"
    );
    assert_eq!(render_board(&Vec::new()), "");
    assert_eq!(render_board(&vec![vec![], vec![10, 0, 16]]), "\n10  . 16 \n");
}

#[test]
fn numbers_are_parsed_like_u8() {
    let samples = [
        "", "0", "7", "15", "255", "256", "300", "0007", "00000000255", "99999999999999999999",
        "+", "+5", "+255", "+256", "-1", "-0", "1a", "a1", " 1", "1 ", "++1", "1+", "٣", "1.0",
    ];
    for text in samples {
        assert_eq!(parse_number(text), text.parse::<u8>().unwrap_or(0), "{:?}", text);
    }
    assert_eq!(parse_number("15"), 15);
    assert_eq!(parse_number("255"), 255);
    assert_eq!(parse_number("256"), 0);
    assert_eq!(parse_number("+9"), 9);
    assert_eq!(parse_number(""), 0);
}

#[test]
fn menu_choices() {
    assert_eq!(menu_choice("1"), MenuChoice::Hello);
    assert_eq!(menu_choice("2"), MenuChoice::Request(SudokuSize::SUDOKU4X4));
    assert_eq!(menu_choice("3"), MenuChoice::Request(SudokuSize::SUDOKU9X9));
    assert_eq!(menu_choice("4"), MenuChoice::Request(SudokuSize::SUDOKU16X16));
    assert_eq!(menu_choice("5"), MenuChoice::Quit);
    assert_eq!(menu_choice("6"), MenuChoice::Invalid);
    assert_eq!(menu_choice(""), MenuChoice::Invalid);
    assert_eq!(menu_choice("12"), MenuChoice::Invalid);
    assert_eq!(menu_choice("q"), MenuChoice::Invalid);
}

#[test]
fn form_titles_follow_the_stage() {
    let mut state = InputState::new();
    assert_eq!(state.title(), "Fila");
    state.input_stage = 1;
    assert_eq!(state.title(), "Columna");
    state.input_stage = 2;
    assert_eq!(state.title(), "Valor");
    state.input_stage = 3;
    assert_eq!(state.title(), "");
}

#[test]
fn new_form_is_closed_and_empty() {
    let state = InputState::new();
    assert!(!state.input_mode);
    assert_eq!(state.input_stage, 0);
    assert_eq!(state.input_buffer, "");
    assert_eq!(state.input_row, None);
    assert_eq!(state.input_col, None);
    assert_eq!(state.input_value, None);
}

#[test]
fn menu_keys_give_commands() {
    let mut state = InputState::new();
    let mut sudoku: Option<Sudoku> = None;
    assert_eq!(
        state.handle_key(&mut sudoku, Key::Char('1')),
        Command::Request(SudokuSize::SUDOKU4X4)
    );
    assert_eq!(
        state.handle_key(&mut sudoku, Key::Char('2')),
        Command::Request(SudokuSize::SUDOKU9X9)
    );
    assert_eq!(
        state.handle_key(&mut sudoku, Key::Char('3')),
        Command::Request(SudokuSize::SUDOKU16X16)
    );
    assert_eq!(state.handle_key(&mut sudoku, Key::Char('q')), Command::Quit);
    assert_eq!(state.handle_key(&mut sudoku, Key::Char('6')), Command::Quit);
    assert_eq!(state.handle_key(&mut sudoku, Key::Char('x')), Command::Nothing);
    assert_eq!(state.handle_key(&mut sudoku, Key::Enter), Command::Nothing);
    assert_eq!(state.handle_key(&mut sudoku, Key::Esc), Command::Nothing);
    assert_eq!(state.handle_key(&mut sudoku, Key::Backspace), Command::Nothing);
    assert_eq!(state.handle_key(&mut sudoku, Key::Other), Command::Nothing);
    assert!(!state.input_mode);
    assert!(sudoku.is_none());
}

#[test]
fn check_and_entry_need_a_board() {
    let mut state = InputState::new();
    let mut sudoku: Option<Sudoku> = None;
    assert_eq!(state.handle_key(&mut sudoku, Key::Char('5')), Command::Nothing);
    assert_eq!(state.handle_key(&mut sudoku, Key::Char('4')), Command::Nothing);
    assert!(!state.input_mode);

    let mut sudoku = Some(small_puzzle());
    assert_eq!(state.handle_key(&mut sudoku, Key::Char('5')), Command::Check);
    assert_eq!(state.handle_key(&mut sudoku, Key::Char('4')), Command::Nothing);
    assert!(state.input_mode);
    assert_eq!(state.input_stage, 0);
}

#[test]
fn open_form_without_board_is_a_menu() {
    let mut state = InputState::new();
    state.input_mode = true;
    let mut sudoku: Option<Sudoku> = None;
    assert_eq!(
        state.handle_key(&mut sudoku, Key::Char('1')),
        Command::Request(SudokuSize::SUDOKU4X4)
    );
    assert_eq!(state.input_buffer, "");
}

#[test]
fn form_takes_digits_and_backspace() {
    let mut state = InputState::new();
    let mut sudoku = Some(small_puzzle());
    press(&mut state, &mut sudoku, "4");
    assert_eq!(state.handle_key(&mut sudoku, Key::Char('1')), Command::Nothing);
    assert_eq!(state.handle_key(&mut sudoku, Key::Char('q')), Command::Nothing);
    assert_eq!(state.handle_key(&mut sudoku, Key::Char('2')), Command::Nothing);
    assert_eq!(state.input_buffer, "12");
    state.handle_key(&mut sudoku, Key::Backspace);
    assert_eq!(state.input_buffer, "1");
    state.handle_key(&mut sudoku, Key::Backspace);
    state.handle_key(&mut sudoku, Key::Backspace);
    assert_eq!(state.input_buffer, "");
    state.handle_key(&mut sudoku, Key::Other);
    assert!(state.input_mode);
    assert_eq!(state.input_stage, 0);
}

#[test]
fn form_fills_an_empty_cell() {
    let mut state = InputState::new();
    let mut sudoku = Some(small_puzzle());
    press(&mut state, &mut sudoku, "40\n");
    assert_eq!(state.input_stage, 1);
    assert_eq!(state.input_row, Some(0));
    assert_eq!(state.input_buffer, "");
    press(&mut state, &mut sudoku, "1\n");
    assert_eq!(state.input_stage, 2);
    assert_eq!(state.input_col, Some(1));
    assert!(state.input_mode);
    press(&mut state, &mut sudoku, "2\n");
    assert_eq!(state.input_value, Some(2));
    assert!(!state.input_mode);
    assert_eq!(state.input_stage, 0);
    let mut expected = small_puzzle().board;
    expected[0][1] = 2;
    assert_eq!(sudoku.unwrap().board, expected);
}

#[test]
fn form_never_overwrites_a_filled_cell() {
    let mut state = InputState::new();
    let mut sudoku = Some(small_puzzle());
    press(&mut state, &mut sudoku, "40\n0\n9\n");
    assert!(!state.input_mode);
    assert_eq!(sudoku.unwrap().board, small_puzzle().board);
}

#[test]
fn form_ignores_cells_off_the_board() {
    let mut state = InputState::new();
    let mut sudoku = Some(small_puzzle());
    press(&mut state, &mut sudoku, "44\n1\n2\n");
    press(&mut state, &mut sudoku, "40\n4\n2\n");
    press(&mut state, &mut sudoku, "4255\n255\n2\n");
    assert_eq!(sudoku.unwrap().board, small_puzzle().board);
}

#[test]
fn entry_above_255_reads_as_zero() {
    let mut state = InputState::new();
    let mut sudoku = Some(small_puzzle());
    // Row 300 reads as 0, column 1, value 2: the cell (0, 1) is filled.
    press(&mut state, &mut sudoku, "4300\n1\n2\n");
    assert_eq!(state.input_row, Some(0));
    let mut expected = small_puzzle().board;
    expected[0][1] = 2;
    assert_eq!(sudoku.unwrap().board, expected);
}

#[test]
fn empty_entry_reads_as_zero() {
    let mut state = InputState::new();
    let mut sudoku = Some(small_puzzle());
    // Row left empty, column 1, value 2: the cell (0, 1) is filled.
    press(&mut state, &mut sudoku, "4\n1\n2\n");
    assert_eq!(state.input_row, Some(0));
    let mut expected = small_puzzle().board;
    expected[0][1] = 2;
    assert_eq!(sudoku.unwrap().board, expected);
}

#[test]
fn escape_closes_the_form_and_keeps_entries() {
    let mut state = InputState::new();
    let mut sudoku = Some(small_puzzle());
    press(&mut state, &mut sudoku, "42\n3");
    assert_eq!(state.input_stage, 1);
    assert_eq!(state.input_buffer, "3");
    press(&mut state, &mut sudoku, "!");
    assert!(!state.input_mode);
    assert_eq!(state.input_stage, 0);
    assert_eq!(state.input_buffer, "");
    assert_eq!(state.input_row, Some(2));
    assert_eq!(sudoku.unwrap().board, small_puzzle().board);
}

#[test]
fn fill_cell_writes_only_into_empty_cells_on_the_board() {
    let mut puzzle = small_puzzle();
    puzzle.fill_cell(0, 1, 2);
    assert_eq!(puzzle.board[0][1], 2);
    puzzle.fill_cell(0, 1, 3);
    assert_eq!(puzzle.board[0][1], 2);
    puzzle.fill_cell(4, 0, 1);
    puzzle.fill_cell(0, 4, 1);
    puzzle.fill_cell(255, 255, 1);
    let mut expected = small_puzzle().board;
    expected[0][1] = 2;
    assert_eq!(puzzle.board, expected);
    // The value itself is not checked.
    puzzle.fill_cell(3, 3, 200);
    assert_eq!(puzzle.board[3][3], 200);
}
