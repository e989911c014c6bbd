//! The entry form of the interactive front end: how key presses move through
//! row, column and value, and when they change the board or ask for a puzzle.

use vstd::prelude::*;
use vstd::string::StrSliceExecFns;
use crate::grid::{grid, SudokuSize};
use crate::sudoku::{filled, Sudoku};

verus! {

/// `c` is one of the ten decimal digits.
pub open spec fn is_digit(c: char) -> bool {
    '0' <= c <= '9'
}

/// The number that a run of decimal digits writes.
pub open spec fn digits_value(s: Seq<char>) -> nat
    decreases s.len(),
{
    if s.len() == 0 {
        0
    } else {
        digits_value(s.drop_last()) * 10 + (s.last() as nat - 48) as nat
    }
}

/// The text without a leading plus sign.
pub open spec fn unsigned(text: Seq<char>) -> Seq<char> {
    if text.len() > 0 && text[0] == '+' {
        text.skip(1)
    } else {
        text
    }
}

/// The text writes a number from 0 to 255: an optional plus sign, then one or
/// more decimal digits.
pub open spec fn is_number(text: Seq<char>) -> bool {
    &&& unsigned(text).len() > 0
    &&& forall|i: int| 0 <= i < unsigned(text).len() ==> is_digit(#[trigger] unsigned(text)[i])
    &&& digits_value(unsigned(text)) <= 255
}

/// The number that the text writes, or 0 where it writes none.
pub open spec fn parsed_number(text: Seq<char>) -> u8 {
    if is_number(text) {
        digits_value(unsigned(text)) as u8
    } else {
        0
    }
}

/// A longer run of digits writes no smaller a number.
pub proof fn lemma_digits_value_grows(s: Seq<char>, k: int)
    requires
        0 <= k <= s.len(),
    ensures
        digits_value(s.take(k)) <= digits_value(s),
    decreases s.len() - k,
{
    if k == s.len() {
        assert(s.take(k) =~= s);
    } else {
        lemma_digits_value_grows(s, k + 1);
        assert(s.take(k + 1).drop_last() =~= s.take(k));
    }
}

/// Gives the value of a decimal digit.
pub fn digit_value(c: char) -> (d: u8)
    requires
        is_digit(c),
    ensures
        d == c as nat - 48,
{
    match c {
        '0' => 0,
        '1' => 1,
        '2' => 2,
        '3' => 3,
        '4' => 4,
        '5' => 5,
        '6' => 6,
        '7' => 7,
        '8' => 8,
        _ => 9,
    }
}

/// Reads a number from 0 to 255 off the text; anything else reads as 0.
pub fn parse_number(text: &str) -> (value: u8)
    ensures
        value == parsed_number(text@),
{
    let len: usize = text.unicode_len();
    let start: usize = if len > 0 && text.get_char(0) == '+' {
        1
    } else {
        0
    };
    let ghost digits = unsigned(text@);
    assert(digits =~= text@.skip(start as int));
    if start == len {
        return 0;
    }
    let mut acc: u16 = 0;
    let mut i: usize = start;
    assert(digits.take(0) =~= Seq::<char>::empty());
    while i < len
        invariant
            start <= i <= len,
            len == text@.len(),
            digits == text@.skip(start as int),
            digits == unsigned(text@),
            forall|j: int| 0 <= j < i - start ==> is_digit(#[trigger] digits[j]),
            acc == digits_value(digits.take(i - start)),
            acc <= 255,
        decreases len - i,
    {
        let c: char = text.get_char(i);
        assert(digits[i - start] == c);
        if !('0' <= c && c <= '9') {
            return 0;
        }
        let d: u8 = digit_value(c);
        acc = acc * 10 + d as u16;
        proof {
            assert(digits.take(i + 1 - start).drop_last() =~= digits.take(i - start));
            assert(digits.take(i + 1 - start).last() == c);
        }
        if acc > 255 {
            proof {
                lemma_digits_value_grows(digits, i + 1 - start);
            }
            return 0;
        }
        i += 1;
    }
    assert(digits.take(digits.len() as int) =~= digits);
    acc as u8
}

/// A key press, as far as the form tells keys apart.
#[derive(Debug, Clone, Copy, PartialEq, Eq, Structural)]
pub enum Key {
    Char(char),
    Backspace,
    Enter,
    Esc,
    Other,
}

/// What the caller has to do after a key press.
#[derive(Debug, Clone, Copy, PartialEq, Eq, Structural)]
pub enum Command {
    /// Nothing beyond what the form did itself.
    Nothing,
    /// Ask for a new puzzle of the given size.
    Request(SudokuSize),
    /// Submit the board for classification.
    Check,
    /// Leave the program.
    Quit,
}

/// The entry form: whether it is open, which of row, column and value it asks
/// for, what has been typed, and what has been entered so far.
#[derive(Debug, Clone)]
pub struct InputState {
    pub input_mode: bool,
    /// 0 asks for the row, 1 for the column, 2 for the value.
    pub input_stage: u8,
    pub input_buffer: String,
    pub input_row: Option<u8>,
    pub input_col: Option<u8>,
    pub input_value: Option<u8>,
}

/// The entry form with its typed text as a sequence of characters.
pub struct InputView {
    pub input_mode: bool,
    pub input_stage: u8,
    pub input_buffer: Seq<char>,
    pub input_row: Option<u8>,
    pub input_col: Option<u8>,
    pub input_value: Option<u8>,
}

impl View for InputState {
    type V = InputView;

    open spec fn view(&self) -> InputView {
        InputView {
            input_mode: self.input_mode,
            input_stage: self.input_stage,
            input_buffer: self.input_buffer@,
            input_row: self.input_row,
            input_col: self.input_col,
            input_value: self.input_value,
        }
    }
}

/// The form takes the key: it is open and there is a board to fill.
pub open spec fn entering(s: InputView, has_board: bool) -> bool {
    s.input_mode && has_board
}

/// The form after Enter: the typed number goes to the entry that the stage
/// names, the text is cleared, and the form moves to the next stage or, at
/// the last, closes.
pub open spec fn after_enter(s: InputView) -> InputView {
    let number = parsed_number(s.input_buffer);
    InputView {
        input_mode: s.input_mode && s.input_stage < 2,
        input_stage: if s.input_stage < 2 {
            (s.input_stage + 1) as u8
        } else {
            0
        },
        input_buffer: Seq::empty(),
        input_row: if s.input_stage == 0 {
            Some(number)
        } else {
            s.input_row
        },
        input_col: if s.input_stage == 1 {
            Some(number)
        } else {
            s.input_col
        },
        input_value: if s.input_stage == 2 {
            Some(number)
        } else {
            s.input_value
        },
    }
}

/// The form after a key press.
pub open spec fn after_key(s: InputView, has_board: bool, key: Key) -> InputView {
    if entering(s, has_board) {
        match key {
            Key::Char(c) => if is_digit(c) {
                InputView { input_buffer: s.input_buffer.push(c), ..s }
            } else {
                s
            },
            Key::Backspace => if s.input_buffer.len() > 0 {
                InputView { input_buffer: s.input_buffer.drop_last(), ..s }
            } else {
                s
            },
            Key::Enter => after_enter(s),
            Key::Esc => InputView {
                input_mode: false,
                input_stage: 0,
                input_buffer: Seq::empty(),
                ..s
            },
            Key::Other => s,
        }
    } else if key == Key::Char('4') && has_board {
        InputView { input_mode: true, input_stage: 0, input_buffer: Seq::empty(), ..s }
    } else {
        s
    }
}

/// The board after a key press: only Enter at the last stage, with row,
/// column and value all entered, writes to it.
pub open spec fn board_after_key(s: InputView, g: Seq<Seq<u8>>, key: Key) -> Seq<Seq<u8>> {
    let t = after_enter(s);
    if s.input_mode && key == Key::Enter && s.input_stage >= 2 && t.input_row is Some
        && t.input_col is Some && t.input_value is Some {
        filled(g, t.input_row->Some_0, t.input_col->Some_0, t.input_value->Some_0)
    } else {
        g
    }
}

/// What a key press asks of the caller. While the form takes the keys it asks
/// nothing; otherwise `1`, `2` and `3` ask for a puzzle, `5` submits the board
/// if there is one, and `q` or `6` quits.
pub open spec fn command_for(s: InputView, has_board: bool, key: Key) -> Command {
    if entering(s, has_board) {
        Command::Nothing
    } else if key == Key::Char('1') {
        Command::Request(SudokuSize::SUDOKU4X4)
    } else if key == Key::Char('2') {
        Command::Request(SudokuSize::SUDOKU9X9)
    } else if key == Key::Char('3') {
        Command::Request(SudokuSize::SUDOKU16X16)
    } else if key == Key::Char('5') && has_board {
        Command::Check
    } else if key == Key::Char('q') || key == Key::Char('6') {
        Command::Quit
    } else {
        Command::Nothing
    }
}

/// A choice from the line-oriented menu.
#[derive(Debug, Clone, Copy, PartialEq, Eq, Structural)]
pub enum MenuChoice {
    /// Ask the server for a greeting.
    Hello,
    /// Ask for a new puzzle of the given size.
    Request(SudokuSize),
    /// Leave the program.
    Quit,
    /// Anything else.
    Invalid,
}

/// The menu choice that a line of input makes, surrounding blanks removed:
/// `1` greets, `2`, `3` and `4` ask for a puzzle, `5` quits.
pub open spec fn choice_of(line: Seq<char>) -> MenuChoice {
    if line.len() != 1 {
        MenuChoice::Invalid
    } else if line[0] == '1' {
        MenuChoice::Hello
    } else if line[0] == '2' {
        MenuChoice::Request(SudokuSize::SUDOKU4X4)
    } else if line[0] == '3' {
        MenuChoice::Request(SudokuSize::SUDOKU9X9)
    } else if line[0] == '4' {
        MenuChoice::Request(SudokuSize::SUDOKU16X16)
    } else if line[0] == '5' {
        MenuChoice::Quit
    } else {
        MenuChoice::Invalid
    }
}

/// Reads a menu choice off a line of input from which the caller has removed
/// the surrounding blanks.
pub fn menu_choice(line: &str) -> (choice: MenuChoice)
    ensures
        choice == choice_of(line@),
{
    if line.unicode_len() != 1 {
        return MenuChoice::Invalid;
    }
    match line.get_char(0) {
        '1' => MenuChoice::Hello,
        '2' => MenuChoice::Request(SudokuSize::SUDOKU4X4),
        '3' => MenuChoice::Request(SudokuSize::SUDOKU9X9),
        '4' => MenuChoice::Request(SudokuSize::SUDOKU16X16),
        '5' => MenuChoice::Quit,
        _ => MenuChoice::Invalid,
    }
}

/// The heading of the entry form at each stage.
pub open spec fn title_of(stage: u8) -> Seq<char> {
    if stage == 0 {
        "Fila"@
    } else if stage == 1 {
        "Columna"@
    } else if stage == 2 {
        "Valor"@
    } else {
        ""@
    }
}

impl InputState {
    /// The heading to show over the form: what the present stage asks for.
    pub fn title(&self) -> (heading: &'static str)
        ensures
            heading@ == title_of(self.input_stage),
    {
        match self.input_stage {
            0 => "Fila",
            1 => "Columna",
            2 => "Valor",
            _ => "",
        }
    }

    /// The closed form, with nothing typed or entered.
    pub fn new() -> (state: InputState)
        ensures
            state@ == (InputView {
                input_mode: false,
                input_stage: 0,
                input_buffer: Seq::empty(),
                input_row: None,
                input_col: None,
                input_value: None,
            }),
    {
        InputState {
            input_mode: false,
            input_stage: 0,
            input_buffer: String::new(),
            input_row: None,
            input_col: None,
            input_value: None,
        }
    }

    /// Takes Enter while the form is open.
    fn enter(&mut self, sudoku: &mut Option<Sudoku>)
        requires
            *old(sudoku) is Some,
            (*old(sudoku))->Some_0.well_formed(),
        ensures
            final(self)@ == after_enter(old(self)@),
            *final(sudoku) is Some,
            (*final(sudoku))->Some_0.sudoku_size == (*old(sudoku))->Some_0.sudoku_size,
            (*final(sudoku))->Some_0.well_formed(),
            grid(&(*final(sudoku))->Some_0.board) == board_after_key(
                InputView { input_mode: true, ..old(self)@ },
                grid(&(*old(sudoku))->Some_0.board),
                Key::Enter,
            ),
    {
        let number: u8 = parse_number(self.input_buffer.as_str());
        if self.input_stage == 0 {
            self.input_row = Some(number);
        } else if self.input_stage == 1 {
            self.input_col = Some(number);
        } else if self.input_stage == 2 {
            self.input_value = Some(number);
        }
        self.input_buffer.clear();
        if self.input_stage < 2 {
            self.input_stage += 1;
        } else {
            match (self.input_row, self.input_col, self.input_value) {
                (Some(row), Some(col), Some(value)) => {
                    match sudoku {
                        Some(puzzle) => {
                            puzzle.fill_cell(row, col, value);
                        },
                        None => {},
                    }
                },
                _ => {},
            }
            self.input_mode = false;
            self.input_stage = 0;
        }
    }

    /// Takes one key press. While the form is open and there is a board, the
    /// key goes to the form: digits are typed, Backspace deletes, Enter takes
    /// the number and moves on, writing the value into the board after the
    /// last stage, and Esc closes the form. Otherwise the key is a menu
    /// choice, and the result says what the caller has to do.
    pub fn handle_key(&mut self, sudoku: &mut Option<Sudoku>, key: Key) -> (command: Command)
        requires
            *old(sudoku) is Some ==> (*old(sudoku))->Some_0.well_formed(),
        ensures
            final(self)@ == after_key(old(self)@, *old(sudoku) is Some, key),
            command == command_for(old(self)@, *old(sudoku) is Some, key),
            *final(sudoku) is Some <==> *old(sudoku) is Some,
            *old(sudoku) is Some ==> {
                &&& (*final(sudoku))->Some_0.sudoku_size == (*old(sudoku))->Some_0.sudoku_size
                &&& (*final(sudoku))->Some_0.well_formed()
                &&& grid(&(*final(sudoku))->Some_0.board) == board_after_key(
                    old(self)@,
                    grid(&(*old(sudoku))->Some_0.board),
                    key,
                )
            },
    {
        let has_board: bool = sudoku.is_some();
        if self.input_mode && has_board {
            match key {
                Key::Char(c) => {
                    if '0' <= c && c <= '9' {
                        self.input_buffer.push(c);
                    }
                },
                Key::Backspace => {
                    self.input_buffer.pop();
                },
                Key::Enter => {
                    self.enter(sudoku);
                },
                Key::Esc => {
                    self.input_mode = false;
                    self.input_stage = 0;
                    self.input_buffer.clear();
                },
                Key::Other => {},
            }
            Command::Nothing
        } else {
            match key {
                Key::Char('1') => Command::Request(SudokuSize::SUDOKU4X4),
                Key::Char('2') => Command::Request(SudokuSize::SUDOKU9X9),
                Key::Char('3') => Command::Request(SudokuSize::SUDOKU16X16),
                Key::Char('4') => {
                    if has_board {
                        self.input_mode = true;
                        self.input_stage = 0;
                        self.input_buffer.clear();
                    }
                    Command::Nothing
                },
                Key::Char('5') => {
                    if has_board {
                        Command::Check
                    } else {
                        Command::Nothing
                    }
                },
                Key::Char('q') | Key::Char('6') => Command::Quit,
                _ => Command::Nothing,
            }
        }
    }
}

} // verus!
