use sudoku::sudoku::generator::TooFewClues;
use sudoku::sudoku::Sudoku;
use sudoku::sudoku_solver::SudokuSolver;

fn clues(board: &Sudoku) -> usize {
    (0..81).filter(|&pos| board.get_value(pos / 9, pos % 9).unwrap() != 0).count()
}

fn revalidates(board: &Sudoku) -> bool {
    let mut copy = Sudoku::from_string(&"0".repeat(81)).unwrap();
    (0..81).all(|pos| {
        let value = board.get_value(pos / 9, pos % 9).unwrap();
        value == 0 || copy.set_value(pos / 9, pos % 9, value).is_ok()
    })
}

fn is_dug_to(puzzle: &Sudoku, least: usize, most: usize) -> bool {
    let solver = SudokuSolver::new();
    let n = clues(puzzle);
    let stuck = || {
        (1..81).all(|pos| {
            let mut less = puzzle.clone();
            less.unset_value(pos / 9, pos % 9).unwrap();
            less == *puzzle || !solver.has_unique_solution(&less)
        })
    };
    revalidates(puzzle)
        && solver.has_unique_solution(puzzle)
        && puzzle.get_value(0, 0).unwrap() != 0
        && n >= least
        && n <= 80
        && (n <= most || stuck())
}

#[test]
fn a_full_grid_is_complete_and_valid() {
    for _ in 0..3 {
        let grid = Sudoku::create_full_random_sudoku();
        assert!(grid.is_solved());
        assert_eq!(clues(&grid), 81);
        assert!(revalidates(&grid));
        assert_eq!(Sudoku::from_string(&grid.to_serialized()), Ok(grid));
    }
}

#[test]
fn full_grids_differ() {
    let first = Sudoku::create_full_random_sudoku();
    let same = (0..4).all(|_| Sudoku::create_full_random_sudoku() == first);
    assert!(!same);
}

#[test]
fn a_custom_puzzle_wants_seventeen_clues() {
    assert_eq!(Sudoku::new_custom_sudoku(16), Err(TooFewClues { requested: 16 }));
    assert_eq!(Sudoku::new_custom_sudoku(0), Err(TooFewClues { requested: 0 }));
}

#[test]
fn a_custom_puzzle_keeps_the_clues_asked_for() {
    let puzzle = Sudoku::new_custom_sudoku(45).unwrap();
    assert!(is_dug_to(&puzzle, 45, 45));
    assert_eq!(clues(&puzzle), 45);
}

#[test]
fn a_custom_puzzle_with_every_clue_is_a_full_grid() {
    let puzzle = Sudoku::new_custom_sudoku(81).unwrap();
    assert!(puzzle.is_solved());
    let puzzle = Sudoku::new_custom_sudoku(1000).unwrap();
    assert!(puzzle.is_solved());
    let puzzle = Sudoku::new_custom_sudoku(80).unwrap();
    assert_eq!(clues(&puzzle), 80);
    assert!(SudokuSolver::new().has_unique_solution(&puzzle));
}

#[test]
fn a_very_easy_puzzle_has_one_solution() {
    let puzzle = Sudoku::new_very_easy();
    assert!(is_dug_to(&puzzle, 35, 40));
}

#[test]
fn an_easy_puzzle_has_one_solution() {
    let puzzle = Sudoku::new_easy();
    assert!(is_dug_to(&puzzle, 30, 34));
}

#[test]
fn clues_are_taken_in_random_order() {
    let first_four_gone = |puzzle: &Sudoku| (1..5).all(|col| puzzle.get_value(0, col) == Ok(0));
    let always = (0..4).all(|_| first_four_gone(&Sudoku::new_custom_sudoku(50).unwrap()));
    assert!(!always);
}
