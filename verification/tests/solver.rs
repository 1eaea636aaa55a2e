use sudoku::sudoku::example_sudokus::{
    ambiguous_easy, ambiguous_sudoku, example_sudoku, extreme_sudoku, one_number_sudoku,
};
use sudoku::sudoku::Sudoku;
use sudoku::sudoku_solver::SudokuSolver;

const EXAMPLE: &str =
    "980010002007096800603070009078609410409001063500000000030000057005180390000537284";
const EXAMPLE_SOLVED: &str =
    "984315672257496831613278549378629415429851763561743928832964157745182396196537284";
const AMBIGUOUS: &str =
    "500000070001003000000009002050040007000100000008000500000500900600010000090002000";
const AMBIGUOUS_FIRST: &str =
    "523461879971283456486759132159348267267195348348627591814576923632914785795832614";
const EASY_FIRST: &str =
    "145327698839654127672918543496185372218473956753296481367542819984761235521839764";
const EASY_SECOND: &str =
    "145327698839654127672918543496285371218473956753196482367542819984761235521839764";
const EMPTY_FIRST: &str =
    "123456789456789123789123456214365897365897214897214365531642978642978531978531642";
const EXTREME_SOLVED: &str =
    "568427931342915678197683245926871354851349762473256819685132497734598126219764583";

fn board(text: &str) -> Sudoku {
    Sudoku::from_string(text).unwrap()
}

fn empty_board() -> Sudoku {
    board(&"0".repeat(81))
}

/// A valid board without a solution: the last cell of the first row sees
/// every digit.
fn dead_board() -> Sudoku {
    board(&format!("12345678{}9{}", "0".repeat(9), "0".repeat(63)))
}

fn each_unit_holds_each_digit_once(solved: &Sudoku) -> bool {
    let cell = |row: usize, col: usize| solved.get_value(row, col).unwrap();
    (0..9).all(|u| {
        (1..=9u8).all(|d| {
            let in_row = (0..9).filter(|&k| cell(u, k) == d).count();
            let in_col = (0..9).filter(|&k| cell(k, u) == d).count();
            let in_box =
                (0..9).filter(|&k| cell(u / 3 * 3 + k / 3, u % 3 * 3 + k % 3) == d).count();
            in_row == 1 && in_col == 1 && in_box == 1
        })
    })
}

#[test]
fn the_example_parses_and_has_a_solution() {
    let puzzle = Sudoku::from_string(EXAMPLE);
    assert!(puzzle.is_ok());
    assert!(SudokuSolver::new().has_solution(&puzzle.unwrap()));
}

#[test]
fn the_ambiguous_puzzle_parses_and_has_more_than_one_solution() {
    let puzzle = Sudoku::from_string(AMBIGUOUS);
    assert!(puzzle.is_ok());
    let puzzle = puzzle.unwrap();
    let solver = SudokuSolver::new();
    assert!(!solver.has_unique_solution(&puzzle));
    assert!(solver.has_solution(&puzzle));
}

#[test]
fn solve_gives_the_least_solution() {
    let solver = SudokuSolver::new();
    assert_eq!(solver.solve(board(EXAMPLE)), board(EXAMPLE_SOLVED));
    assert_eq!(solver.solve(board(AMBIGUOUS)), board(AMBIGUOUS_FIRST));
    assert_eq!(solver.solve(ambiguous_easy()), board(EASY_FIRST));
    assert_eq!(solver.solve(empty_board()), board(EMPTY_FIRST));
}

#[test]
fn solve_leaves_a_board_without_solution_as_it_is() {
    let solver = SudokuSolver::new();
    assert!(!solver.has_solution(&dead_board()));
    assert_eq!(solver.solve(dead_board()), dead_board());
}

#[test]
fn solve_leaves_a_solved_board_as_it_is() {
    let solver = SudokuSolver::new();
    assert_eq!(solver.solve(board(EXAMPLE_SOLVED)), board(EXAMPLE_SOLVED));
}

#[test]
fn solve_does_not_touch_the_board_of_the_caller() {
    let solver = SudokuSolver::new();
    let puzzle = board(EXAMPLE);
    let solved = solver.solve(puzzle.clone());
    assert_eq!(puzzle, board(EXAMPLE));
    assert!(solved.is_solved());
    assert!(solver.has_solution(&puzzle));
    assert!(solver.has_unique_solution(&puzzle));
    assert_eq!(puzzle, board(EXAMPLE));
}

#[test]
fn a_solved_board_holds_each_digit_once_in_each_unit() {
    let solver = SudokuSolver::new();
    for puzzle in [board(EXAMPLE), board(AMBIGUOUS), ambiguous_easy(), empty_board(), one_number_sudoku()] {
        assert!(solver.has_solution(&puzzle));
        let solved = solver.solve(puzzle.clone());
        assert!(solved.is_solved());
        assert!(each_unit_holds_each_digit_once(&solved));
        for pos in 0..81 {
            let clue = puzzle.get_value(pos / 9, pos % 9).unwrap();
            if clue != 0 {
                assert_eq!(solved.get_value(pos / 9, pos % 9), Ok(clue));
            }
        }
    }
}

#[test]
fn the_extreme_puzzle_has_one_solution() {
    let solver = SudokuSolver::new();
    assert!(solver.has_unique_solution(&extreme_sudoku()));
    assert_eq!(solver.solve(extreme_sudoku()), board(EXTREME_SOLVED));
    assert_eq!(SudokuSolver::find_all_solutions(&extreme_sudoku()), vec![board(EXTREME_SOLVED)]);
}

#[test]
fn find_all_solutions_lists_them_in_order() {
    assert_eq!(SudokuSolver::find_all_solutions(&example_sudoku()), vec![board(EXAMPLE_SOLVED)]);
    assert_eq!(
        SudokuSolver::find_all_solutions(&ambiguous_easy()),
        vec![board(EASY_FIRST), board(EASY_SECOND)]
    );
    assert_eq!(
        SudokuSolver::find_all_solutions(&board(EXAMPLE_SOLVED)),
        vec![board(EXAMPLE_SOLVED)]
    );
    assert_eq!(SudokuSolver::find_all_solutions(&dead_board()), Vec::<Sudoku>::new());
}

#[test]
fn find_all_solutions_comes_in_ascending_order_without_repeats() {
    let mut puzzle = board(EXAMPLE_SOLVED);
    for pos in [0, 1, 2, 9, 10, 11, 30, 31, 40, 41, 50, 60, 70, 71, 72, 80, 4, 13, 22, 27, 28, 36, 45] {
        puzzle.unset_value(pos / 9, pos % 9).unwrap();
    }
    let found = SudokuSolver::find_all_solutions(&puzzle);
    assert!(found.contains(&board(EXAMPLE_SOLVED)));
    let lines: Vec<String> = found.iter().map(|b| b.to_serialized()).collect();
    for pair in lines.windows(2) {
        assert!(pair[0] < pair[1]);
    }
    for solved in &found {
        assert!(solved.is_solved());
        assert!(each_unit_holds_each_digit_once(solved));
    }
    assert_eq!(SudokuSolver::new().solve(puzzle.clone()), found[0]);
}

#[test]
fn unique_means_that_there_is_one_solution_to_find() {
    let solver = SudokuSolver::new();
    let mut puzzle = board(EXAMPLE_SOLVED);
    let mut boards = vec![puzzle.clone(), dead_board(), ambiguous_easy(), example_sudoku()];
    for pos in [0, 1, 9, 10, 40, 41, 49, 50, 80, 79, 71, 70, 4, 5, 13, 14] {
        puzzle.unset_value(pos / 9, pos % 9).unwrap();
        boards.push(puzzle.clone());
    }
    let mut unique = 0;
    for b in &boards {
        let found = SudokuSolver::find_all_solutions(b);
        assert_eq!(solver.has_unique_solution(b), found.len() == 1);
        assert_eq!(solver.has_solution(b), !found.is_empty());
        unique += usize::from(found.len() == 1);
    }
    assert!(unique > 2 && unique < boards.len());
}

#[test]
fn a_board_without_clues_has_more_than_one_solution() {
    let solver = SudokuSolver::new();
    assert!(solver.has_solution(&empty_board()));
    assert!(!solver.has_unique_solution(&empty_board()));
    assert!(!solver.has_unique_solution(&one_number_sudoku()));
}

#[test]
fn one_gap_with_one_legal_digit_has_one_solution() {
    let solver = SudokuSolver::new();
    for pos in 0..81 {
        let mut puzzle = board(EXAMPLE_SOLVED);
        puzzle.unset_value(pos / 9, pos % 9).unwrap();
        assert!(solver.has_unique_solution(&puzzle));
        assert_eq!(SudokuSolver::find_all_solutions(&puzzle), vec![board(EXAMPLE_SOLVED)]);
    }
}

#[test]
fn backtrack_stops_on_the_first_solution() {
    let solver = SudokuSolver::new();
    let mut puzzle = board(AMBIGUOUS);
    assert_eq!(solver.backtrack(&mut puzzle, 0, false), 1);
    assert_eq!(puzzle, board(AMBIGUOUS_FIRST));
    let mut puzzle = dead_board();
    assert_eq!(solver.backtrack(&mut puzzle, 0, false), 0);
    assert_eq!(puzzle, dead_board());
}

#[test]
fn backtrack_for_uniqueness_restores_a_board_with_one_solution() {
    let solver = SudokuSolver::new();
    let mut puzzle = board(EXAMPLE);
    assert_eq!(solver.backtrack(&mut puzzle, 0, true), 1);
    assert_eq!(puzzle, board(EXAMPLE));
    let mut puzzle = dead_board();
    assert_eq!(solver.backtrack(&mut puzzle, 0, true), 0);
    assert_eq!(puzzle, dead_board());
}

#[test]
fn backtrack_for_uniqueness_stops_where_a_cell_led_to_two_solutions() {
    let solver = SudokuSolver::new();
    let mut puzzle = ambiguous_easy();
    assert_eq!(solver.backtrack(&mut puzzle, 0, true), 2);
    assert_eq!(
        puzzle.to_serialized(),
        "145327698839654127672918543496285370218473956753096480367542819984761235521839764"
    );
    let mut puzzle = ambiguous_sudoku();
    assert_eq!(solver.backtrack(&mut puzzle, 0, true), 2);
    assert_eq!(
        puzzle.to_serialized(),
        "523461879971283456486759132159348267267195380008000500000500900600010000090002000"
    );
    let mut puzzle = empty_board();
    assert_eq!(solver.backtrack(&mut puzzle, 0, true), 2);
    assert_eq!(
        puzzle.to_serialized(),
        "123456789456789123789123456214365897365897214897214365531642978648000000000000000"
    );
}

#[test]
fn backtrack_past_the_last_cell_counts_a_full_board() {
    let solver = SudokuSolver::new();
    let mut solved = board(EXAMPLE_SOLVED);
    assert_eq!(solver.backtrack(&mut solved, 81, false), 1);
    assert_eq!(solver.backtrack(&mut solved, 81, true), 1);
    assert_eq!(solver.backtrack(&mut solved, 500, true), 1);
    let mut open = board(EXAMPLE);
    assert_eq!(solver.backtrack(&mut open, 81, false), 0);
    assert_eq!(open, board(EXAMPLE));
}

#[test]
fn backtrack_from_a_later_cell_leaves_earlier_gaps_open() {
    let solver = SudokuSolver::new();
    let mut puzzle = board(EXAMPLE);
    assert_eq!(solver.backtrack(&mut puzzle, 40, false), 0);
    assert_eq!(puzzle, board(EXAMPLE));
    let mut puzzle = board(EXAMPLE_SOLVED);
    puzzle.unset_value(8, 0).unwrap();
    assert_eq!(solver.backtrack(&mut puzzle, 40, false), 1);
    assert_eq!(puzzle, board(EXAMPLE_SOLVED));
}

#[test]
fn backtrack_find_all_appends_to_what_is_there() {
    let solver = SudokuSolver::new();
    let mut found = vec![empty_board()];
    let mut puzzle = ambiguous_easy();
    solver.backtrack_find_all(&mut puzzle, 0, &mut found);
    assert_eq!(found, vec![empty_board(), board(EASY_FIRST), board(EASY_SECOND)]);
    assert_eq!(puzzle, ambiguous_easy());
    solver.backtrack_find_all(&mut puzzle, 81, &mut found);
    assert_eq!(found.len(), 3);
}

#[test]
fn the_examples_are_the_puzzles_of_their_texts() {
    assert_eq!(example_sudoku(), board(EXAMPLE));
    assert_eq!(ambiguous_sudoku(), board(AMBIGUOUS));
    assert_eq!(
        extreme_sudoku().to_serialized(),
        "500400030000010600000080040000000000001340000073200009680000007000500020210060000"
    );
    assert_eq!(
        ambiguous_easy().to_serialized(),
        "145327698839654127672918543496085370218473956753096480367542819984761235521839764"
    );
    assert_eq!(one_number_sudoku().to_serialized(), format!("{}5", "0".repeat(80)));
}

#[test]
fn a_search_within_its_steps_tells_whether_there_is_a_solution() {
    let solver = SudokuSolver::new();
    assert_eq!(solver.has_solution_within(&board(EXAMPLE), 719), Some(true));
    assert_eq!(solver.has_solution_within(&board(EXAMPLE), usize::MAX), Some(true));
    assert_eq!(solver.has_solution_within(&ambiguous_easy(), 6), Some(true));
    assert_eq!(solver.has_solution_within(&board(AMBIGUOUS), 19513), Some(true));
    assert_eq!(solver.has_solution_within(&empty_board(), 3195), Some(true));
    assert_eq!(solver.has_solution_within(&dead_board(), 9), Some(false));
    assert_eq!(solver.has_solution_within(&board(EXAMPLE_SOLVED), 0), Some(true));
}

#[test]
fn a_search_that_needs_more_steps_gives_up() {
    let solver = SudokuSolver::new();
    assert_eq!(solver.has_solution_within(&board(EXAMPLE), 718), None);
    assert_eq!(solver.has_solution_within(&board(EXAMPLE), 0), None);
    assert_eq!(solver.has_solution_within(&ambiguous_easy(), 5), None);
    assert_eq!(solver.has_solution_within(&board(AMBIGUOUS), 19512), None);
    assert_eq!(solver.has_solution_within(&empty_board(), 3194), None);
    assert_eq!(solver.has_solution_within(&dead_board(), 8), None);
}

#[test]
fn backtrack_within_takes_its_steps_off_the_budget() {
    let solver = SudokuSolver::new();
    let mut puzzle = board(EXAMPLE);
    let mut steps = 1000;
    assert_eq!(solver.backtrack_within(&mut puzzle, 0, &mut steps), Some(true));
    assert_eq!(steps, 1000 - 719);
    assert_eq!(puzzle, board(EXAMPLE_SOLVED));
    let mut puzzle = dead_board();
    let mut steps = 10;
    assert_eq!(solver.backtrack_within(&mut puzzle, 0, &mut steps), Some(false));
    assert_eq!(steps, 1);
    assert_eq!(puzzle, dead_board());
}

#[test]
fn backtrack_within_restores_the_board_when_it_gives_up() {
    let solver = SudokuSolver::new();
    let mut puzzle = board(EXAMPLE);
    let mut steps = 700;
    assert_eq!(solver.backtrack_within(&mut puzzle, 0, &mut steps), None);
    assert_eq!(steps, 0);
    assert_eq!(puzzle, board(EXAMPLE));
}
