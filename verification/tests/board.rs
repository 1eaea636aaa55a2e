use sudoku::format::ParseError;
use sudoku::sudoku::{InvalidPlacement, OutOfRange, Sudoku};

const EXAMPLE: &str =
    "980010002007096800603070009078609410409001063500000000030000057005180390000537284";
const SOLVED: &str =
    "984315672257496831613278549378629415429851763561743928832964157745182396196537284";

fn empty_board() -> Sudoku {
    Sudoku::from_string(&"0".repeat(81)).unwrap()
}

#[test]
fn empty_tile_is_zero() {
    assert_eq!(Sudoku::EMPTY_TILE, 0);
}

#[test]
fn get_value_reads_row_major() {
    let board = Sudoku::from_string(EXAMPLE).unwrap();
    assert_eq!(board.get_value(0, 0), Ok(9));
    assert_eq!(board.get_value(0, 1), Ok(8));
    assert_eq!(board.get_value(0, 8), Ok(2));
    assert_eq!(board.get_value(1, 2), Ok(7));
    assert_eq!(board.get_value(8, 8), Ok(4));
    assert_eq!(board.get_value(5, 1), Ok(0));
}

#[test]
fn get_value_out_of_range() {
    let board = empty_board();
    assert_eq!(board.get_value(9, 0), Err(OutOfRange { row: 9, col: 0 }));
    assert_eq!(board.get_value(0, 9), Err(OutOfRange { row: 0, col: 9 }));
    assert_eq!(board.get_value(usize::MAX, usize::MAX), Err(OutOfRange { row: usize::MAX, col: usize::MAX }));
}

#[test]
fn set_value_places_a_legal_digit() {
    let mut board = empty_board();
    assert_eq!(board.set_value(4, 4, 5), Ok(()));
    assert_eq!(board.get_value(4, 4), Ok(5));
    for row in 0..9 {
        for col in 0..9 {
            if (row, col) != (4, 4) {
                assert_eq!(board.get_value(row, col), Ok(0));
            }
        }
    }
}

#[test]
fn set_value_refuses_a_digit_in_the_same_row() {
    let mut board = empty_board();
    board.set_value(2, 0, 7).unwrap();
    assert_eq!(board.set_value(2, 8, 7), Err(InvalidPlacement { row: 2, col: 8, value: 7 }));
    assert_eq!(board.get_value(2, 8), Ok(0));
}

#[test]
fn set_value_refuses_a_digit_in_the_same_column() {
    let mut board = empty_board();
    board.set_value(0, 3, 7).unwrap();
    assert_eq!(board.set_value(8, 3, 7), Err(InvalidPlacement { row: 8, col: 3, value: 7 }));
    assert_eq!(board.get_value(8, 3), Ok(0));
}

#[test]
fn set_value_refuses_a_digit_in_the_same_box() {
    let mut board = empty_board();
    board.set_value(3, 3, 7).unwrap();
    assert_eq!(board.set_value(5, 5, 7), Err(InvalidPlacement { row: 5, col: 5, value: 7 }));
    assert_eq!(board.set_value(4, 4, 7), Err(InvalidPlacement { row: 4, col: 4, value: 7 }));
    assert_eq!(board.set_value(5, 6, 7), Ok(()));
}

#[test]
fn set_value_refuses_what_is_no_digit() {
    let mut board = empty_board();
    assert_eq!(board.set_value(0, 0, 0), Err(InvalidPlacement { row: 0, col: 0, value: 0 }));
    assert_eq!(board.set_value(0, 0, 10), Err(InvalidPlacement { row: 0, col: 0, value: 10 }));
    assert_eq!(board.set_value(0, 0, 255), Err(InvalidPlacement { row: 0, col: 0, value: 255 }));
    assert_eq!(board, empty_board());
}

#[test]
fn set_value_refuses_a_cell_off_the_board() {
    let mut board = empty_board();
    assert_eq!(board.set_value(9, 0, 1), Err(InvalidPlacement { row: 9, col: 0, value: 1 }));
    assert_eq!(board.set_value(0, 9, 1), Err(InvalidPlacement { row: 0, col: 9, value: 1 }));
    assert_eq!(board, empty_board());
}

#[test]
fn set_value_may_replace_a_digit() {
    let mut board = empty_board();
    board.set_value(0, 0, 1).unwrap();
    assert_eq!(board.set_value(0, 0, 2), Ok(()));
    assert_eq!(board.get_value(0, 0), Ok(2));
}

#[test]
fn placing_the_same_digit_twice_changes_nothing() {
    let mut board = Sudoku::from_string(EXAMPLE).unwrap();
    assert_eq!(board.set_value(0, 2, 4), Ok(()));
    let once = board.clone();
    assert_eq!(board.set_value(0, 2, 4), Ok(()));
    assert_eq!(board, once);
}

#[test]
fn placing_the_digit_that_a_clue_holds_is_legal() {
    let mut board = Sudoku::from_string(EXAMPLE).unwrap();
    let before = board.clone();
    assert_eq!(board.set_value(0, 0, 9), Ok(()));
    assert_eq!(board, before);
}

#[test]
fn unset_value_empties_the_cell() {
    let mut board = Sudoku::from_string(EXAMPLE).unwrap();
    assert_eq!(board.unset_value(0, 0), Ok(()));
    assert_eq!(board.get_value(0, 0), Ok(0));
    assert_eq!(board.get_value(0, 1), Ok(8));
    assert_eq!(board.unset_value(0, 0), Ok(()));
    assert_eq!(board.get_value(0, 0), Ok(0));
}

#[test]
fn unset_value_out_of_range() {
    let mut board = Sudoku::from_string(EXAMPLE).unwrap();
    assert_eq!(board.unset_value(9, 3), Err(OutOfRange { row: 9, col: 3 }));
    assert_eq!(board.unset_value(3, 9), Err(OutOfRange { row: 3, col: 9 }));
    assert_eq!(board, Sudoku::from_string(EXAMPLE).unwrap());
}

#[test]
fn is_solved_wants_every_cell_filled() {
    assert!(!empty_board().is_solved());
    assert!(!Sudoku::from_string(EXAMPLE).unwrap().is_solved());
    let mut board = Sudoku::from_string(SOLVED).unwrap();
    assert!(board.is_solved());
    board.unset_value(8, 8).unwrap();
    assert!(!board.is_solved());
    board.set_value(8, 8, 4).unwrap();
    assert!(board.is_solved());
}

#[test]
fn clone_is_equal_and_independent() {
    let board = Sudoku::from_string(EXAMPLE).unwrap();
    let mut copy = board.clone();
    assert_eq!(copy, board);
    copy.unset_value(0, 0).unwrap();
    assert_eq!(board.get_value(0, 0), Ok(9));
    assert_ne!(copy, board);
}

#[test]
fn from_string_reads_the_example() {
    let board = Sudoku::from_string(EXAMPLE).unwrap();
    assert_eq!(board.to_serialized(), EXAMPLE);
}

#[test]
fn from_string_takes_every_empty_glyph() {
    let text = format!("{}{}", ".0-x".repeat(20), "5");
    let board = Sudoku::from_string(&text).unwrap();
    for pos in 0..80 {
        assert_eq!(board.get_value(pos / 9, pos % 9), Ok(0));
    }
    assert_eq!(board.get_value(8, 8), Ok(5));
}

#[test]
fn from_string_skips_white_space() {
    let mut text = String::from(" \t");
    for (i, c) in EXAMPLE.chars().enumerate() {
        text.push(c);
        if i % 9 == 8 {
            text.push_str("\r\n");
        } else if i % 3 == 2 {
            text.push('\u{3000}');
        }
    }
    assert_eq!(Sudoku::from_string(&text), Sudoku::from_string(EXAMPLE));
}

#[test]
fn from_string_counts_the_glyphs() {
    assert_eq!(Sudoku::from_string(""), Err(ParseError::InvalidLength { got: 0 }));
    assert_eq!(Sudoku::from_string("   \n"), Err(ParseError::InvalidLength { got: 0 }));
    assert_eq!(Sudoku::from_string(&EXAMPLE[..80]), Err(ParseError::InvalidLength { got: 80 }));
    let long = format!("{} 1", EXAMPLE);
    assert_eq!(Sudoku::from_string(&long), Err(ParseError::InvalidLength { got: 82 }));
}

#[test]
fn from_string_judges_the_length_before_the_glyphs() {
    let text = format!("{}??", &EXAMPLE[..80]);
    assert_eq!(Sudoku::from_string(&text), Err(ParseError::InvalidLength { got: 82 }));
}

#[test]
fn from_string_names_the_first_bad_glyph() {
    let text = format!("{}a{}b", &EXAMPLE[..40], &EXAMPLE[41..80]);
    assert_eq!(Sudoku::from_string(&text), Err(ParseError::InvalidCharacter { found: 'a' }));
    let text = format!("{}|", &EXAMPLE[..80]);
    assert_eq!(Sudoku::from_string(&text), Err(ParseError::InvalidCharacter { found: '|' }));
    let text = format!("{}\u{0663}", &EXAMPLE[..80]);
    assert_eq!(Sudoku::from_string(&text), Err(ParseError::InvalidCharacter { found: '\u{0663}' }));
}

#[test]
fn from_string_judges_the_glyphs_before_the_clues() {
    let text = format!("11{}?", "0".repeat(78));
    assert_eq!(Sudoku::from_string(&text), Err(ParseError::InvalidCharacter { found: '?' }));
}

#[test]
fn from_string_names_the_first_clue_that_stands_twice() {
    let row = format!("{}7{}7{}", "0".repeat(11), "0".repeat(4), "0".repeat(64));
    assert_eq!(
        Sudoku::from_string(&row),
        Err(ParseError::InvalidPlacement { row: 1, col: 2, value: 7 })
    );
    let column = format!("{}3{}3{}", "0".repeat(5), "0".repeat(62), "0".repeat(12));
    assert_eq!(
        Sudoku::from_string(&column),
        Err(ParseError::InvalidPlacement { row: 0, col: 5, value: 3 })
    );
    let in_box = format!("{}9{}9{}", "0".repeat(30), "0".repeat(19), "0".repeat(30));
    assert_eq!(
        Sudoku::from_string(&in_box),
        Err(ParseError::InvalidPlacement { row: 3, col: 3, value: 9 })
    );
}

#[test]
fn white_space_is_what_the_standard_library_calls_white_space() {
    let mut blanks = String::from(EXAMPLE);
    let mut block = String::from(EXAMPLE);
    let mut in_block = 0;
    for code in 0..=0x10FFFFu32 {
        let Some(c) = char::from_u32(code) else { continue };
        if c.is_whitespace() {
            blanks.push(c);
        } else {
            block.push(c);
            in_block += 1;
            if in_block == 64 {
                assert_eq!(
                    Sudoku::from_string(&block),
                    Err(ParseError::InvalidLength { got: 81 + 64 }),
                    "block ending at {:x}",
                    code
                );
                block.truncate(EXAMPLE.len());
                in_block = 0;
            }
        }
    }
    assert_eq!(
        Sudoku::from_string(&block),
        Err(ParseError::InvalidLength { got: 81 + in_block })
    );
    assert_eq!(blanks.chars().count(), 81 + 25);
    assert_eq!(Sudoku::from_string(&blanks), Sudoku::from_string(EXAMPLE));
}

#[test]
fn to_serialized_writes_one_digit_for_each_cell() {
    let mut board = empty_board();
    assert_eq!(board.to_serialized(), "0".repeat(81));
    board.set_value(0, 0, 1).unwrap();
    board.set_value(8, 8, 9).unwrap();
    assert_eq!(board.to_serialized(), format!("1{}9", "0".repeat(79)));
}

#[test]
fn a_solved_board_comes_back_from_its_line() {
    let board = Sudoku::from_string(SOLVED).unwrap();
    assert!(board.is_solved());
    let line = board.to_serialized();
    assert_eq!(line, SOLVED);
    assert_eq!(Sudoku::from_string(&line), Ok(board));
}

#[test]
fn a_puzzle_comes_back_from_its_line() {
    let board = Sudoku::from_string(&EXAMPLE.replace('0', ".")).unwrap();
    assert_eq!(Sudoku::from_string(&board.to_serialized()), Ok(board));
}

#[test]
fn to_string_draws_the_framed_grid() {
    let board = Sudoku::from_string(EXAMPLE).unwrap();
    let expected = "-------------------------\n\
                    | 9 8 0 | 0 1 0 | 0 0 2 |\n\
                    | 0 0 7 | 0 9 6 | 8 0 0 |\n\
                    | 6 0 3 | 0 7 0 | 0 0 9 |\n\
                    -------------------------\n\
                    | 0 7 8 | 6 0 9 | 4 1 0 |\n\
                    | 4 0 9 | 0 0 1 | 0 6 3 |\n\
                    | 5 0 0 | 0 0 0 | 0 0 0 |\n\
                    -------------------------\n\
                    | 0 3 0 | 0 0 0 | 0 5 7 |\n\
                    | 0 0 5 | 1 8 0 | 3 9 0 |\n\
                    | 0 0 0 | 5 3 7 | 2 8 4 |\n\
                    -------------------------\n";
    assert_eq!(board.to_string(), expected);
}

#[test]
fn the_framed_grid_is_no_puzzle_text() {
    let board = Sudoku::from_string(EXAMPLE).unwrap();
    assert_eq!(
        Sudoku::from_string(&board.to_string()),
        Err(ParseError::InvalidLength { got: 25 * 4 + 13 * 9 })
    );
}
