//! The backtracking solver.
//!
//! One recursive search visits the cells in row-major order and tries the
//! digits of each empty cell in ascending order. It serves to find the first
//! solution, to decide whether there is one, to decide whether there is
//! exactly one, and to list them all.

use vstd::prelude::*;
use crate::grid::{valid_grid, complete, is_solution, occurs_once, lemma_solved_units};
use crate::search::{
    all_solutions, solutions_from, solutions_with_digits, first_solution_search,
    uniqueness_search, uniqueness_digits, search_outcome, count_bound, first_search_steps,
    first_search_digit_steps, lex_less,
};
use crate::search::{lemma_uniqueness_search, lemma_solutions_sound, lemma_all_solutions};
use crate::sudoku::Sudoku;

verus! {

/// The grids of a list of boards.
pub open spec fn grids_of(boards: Seq<Sudoku>) -> Seq<Seq<u8>> {
    Seq::new(boards.len(), |i: int| boards[i]@)
}

pub struct SudokuSolver;

impl SudokuSolver {
    pub fn new() -> Self {
        Self
    }

    /// The least solution of the board in lexicographic order of its cells,
    /// or the board as it was given where it has no solution. A solution has
    /// no empty cell and holds each digit once in every row, column and box.
    pub fn solve(&self, sudoku: Sudoku) -> (r: Sudoku)
        ensures
            all_solutions(sudoku@).len() == 0 ==> r@ == sudoku@,
            all_solutions(sudoku@).len() > 0 ==> r@ == all_solutions(sudoku@)[0],
            all_solutions(sudoku@).len() > 0 ==> is_solution(r@, sudoku@),
            all_solutions(sudoku@).len() > 0 ==> forall|u: int, d: u8|
                0 <= u < 27 && 1 <= d <= 9 ==> #[trigger] occurs_once(r@, u, d),
    {
        let mut sudoku = sudoku;
        proof {
            use_type_invariant(&sudoku);
            if all_solutions(sudoku@).len() > 0 {
                lemma_solvable_board_gets_solved(sudoku@);
            }
        }
        self.backtrack(&mut sudoku, 0, false);
        sudoku
    }

    /// Whether the board has a solution.
    pub fn has_solution(&self, sudoku: &Sudoku) -> (r: bool)
        ensures
            r == (all_solutions(sudoku@).len() > 0),
            r == exists|s: Seq<u8>| is_solution(s, sudoku@),
    {
        let mut csudoku = sudoku.clone();
        proof {
            use_type_invariant(sudoku);
            lemma_all_solutions(sudoku@);
            if all_solutions(sudoku@).len() > 0 {
                let first = all_solutions(sudoku@)[0];
                assert(is_solution(first, sudoku@));
            }
            if exists|s: Seq<u8>| is_solution(s, sudoku@) {
                let s = choose|s: Seq<u8>| is_solution(s, sudoku@);
                assert(all_solutions(sudoku@).contains(s));
            }
        }
        let num_solutions = self.backtrack(&mut csudoku, 0, false);
        if num_solutions == 0 {
            false
        } else {
            true
        }
    }

    /// Whether the board has a solution, as far as a search that tries at most
    /// `max_steps` digits can tell: `None` where the search for the first
    /// solution would try more.
    pub fn has_solution_within(&self, sudoku: &Sudoku, max_steps: usize) -> (r: Option<bool>)
        ensures
            r == if first_search_steps(sudoku@, 0) <= max_steps {
                Some(all_solutions(sudoku@).len() > 0)
            } else {
                None::<bool>
            },
    {
        let mut csudoku = sudoku.clone();
        let mut steps = max_steps;
        self.backtrack_within(&mut csudoku, 0, &mut steps)
    }

    /// Searches for the first solution from cell `pos` on, trying at most
    /// `steps` digits, and takes the digits tried off `steps`. A search that
    /// ends in time tells whether there is a solution, and leaves the first
    /// one on the board. A search that would try more gives up with `None`,
    /// leaves the board as it found it and `steps` at zero.
    pub fn backtrack_within(&self, sudoku: &mut Sudoku, pos: usize, steps: &mut usize) -> (r:
        Option<bool>)
        ensures
            first_search_steps(old(sudoku)@, pos as nat) <= *old(steps) ==> r == Some(
                solutions_from(old(sudoku)@, pos as nat).len() > 0,
            ) && *final(steps) == *old(steps) - first_search_steps(old(sudoku)@, pos as nat)
                && final(sudoku)@ == first_solution_search(old(sudoku)@, pos as nat).1,
            first_search_steps(old(sudoku)@, pos as nat) > *old(steps) ==> r is None
                && *final(steps) == 0 && final(sudoku)@ == old(sudoku)@,
        decreases 81 - pos,
    {
        let ghost g = sudoku@;
        let ghost budget = *steps;
        proof {
            use_type_invariant(&*sudoku);
        }
        if pos >= 81 {
            return Some(sudoku.is_solved());
        }
        if sudoku.get_value(pos / 9, pos % 9).unwrap() != 0 {
            return self.backtrack_within(sudoku, pos + 1, steps);
        }
        let mut tile: u8 = 1;
        while tile <= 9
            invariant
                1 <= tile <= 10,
                pos < 81,
                g.len() == 81,
                g[pos as int] == 0,
                sudoku@ == g,
                old(sudoku)@ == g,
                *old(steps) == budget,
                solutions_from(g, pos as nat) == solutions_with_digits(g, pos as nat, 1),
                first_search_steps(g, pos as nat) == first_search_digit_steps(g, pos as nat, 1),
                solutions_with_digits(g, pos as nat, 1) == solutions_with_digits(
                    g,
                    pos as nat,
                    tile as int,
                ),
                *steps <= budget,
                first_search_digit_steps(g, pos as nat, 1) == (budget - *steps)
                    + first_search_digit_steps(g, pos as nat, tile as int),
            decreases 10 - tile,
        {
            if *steps == 0 {
                return None;
            }
            *steps -= 1;
            if let Ok(()) = sudoku.set_value(pos / 9, pos % 9, tile) {
                match self.backtrack_within(sudoku, pos + 1, steps) {
                    None => {
                        sudoku.unset_value(pos / 9, pos % 9).unwrap();
                        assert(sudoku@ =~= g);
                        return None;
                    },
                    Some(true) => {
                        return Some(true);
                    },
                    Some(false) => {
                        sudoku.unset_value(pos / 9, pos % 9).unwrap();
                        assert(sudoku@ =~= g);
                        assert(solutions_with_digits(g, pos as nat, tile as int)
                            =~= solutions_with_digits(g, pos as nat, tile + 1));
                    },
                }
            }
            tile += 1;
        }
        Some(false)
    }

    /// Whether the board has exactly one solution.
    pub fn has_unique_solution(&self, sudoku: &Sudoku) -> (r: bool)
        ensures
            r == (uniqueness_search(sudoku@, 0).0 == 1),
            r == (all_solutions(sudoku@).len() == 1),
    {
        let mut csudoku = sudoku.clone();
        proof {
            lemma_uniqueness_search(sudoku@, 0);
        }
        let num_solutions = self.backtrack(&mut csudoku, 0, true);
        if num_solutions == 1 {
            true
        } else {
            false
        }
    }

    /// Searches from cell `pos` on and returns the number of solutions counted.
    ///
    /// Without `check_for_uniqueness` the search stops on the first solution
    /// and leaves it on the board. With it, the search stops as soon as the
    /// digits of one cell have led to more than one solution. A search that
    /// runs to its end leaves the board as it found it.
    pub fn backtrack(&self, sudoku: &mut Sudoku, pos: usize, check_for_uniqueness: bool) -> (count:
        usize)
        ensures
            (count as nat, final(sudoku)@) == search_outcome(
                old(sudoku)@,
                pos as nat,
                check_for_uniqueness,
            ),
            count == 0 <==> solutions_from(old(sudoku)@, pos as nat).len() == 0,
            count == 1 <==> if check_for_uniqueness {
                solutions_from(old(sudoku)@, pos as nat).len() == 1
            } else {
                solutions_from(old(sudoku)@, pos as nat).len() >= 1
            },
            count <= count_bound(pos as nat),
        decreases 81 - pos,
    {
        let ghost g = sudoku@;
        proof {
            use_type_invariant(&*sudoku);
            lemma_uniqueness_search(g, pos as nat);
        }
        let mut num_solutions: usize = 0;
        if pos >= 81 {
            if sudoku.is_solved() {
                return 1;
            } else {
                return 0;
            }
        }
        if sudoku.get_value(pos / 9, pos % 9).unwrap() != 0 {
            return self.backtrack(sudoku, pos + 1, check_for_uniqueness);
        } else {
            let mut tile: u8 = 1;
            while tile <= 9
                invariant
                    1 <= tile <= 10,
                    pos < 81,
                    g.len() == 81,
                    g[pos as int] == 0,
                    sudoku@ == g,
                    old(sudoku)@ == g,
                    solutions_from(g, pos as nat) == solutions_with_digits(g, pos as nat, 1),
                    uniqueness_search(g, pos as nat) == uniqueness_digits(g, pos as nat, 1, 0),
                    num_solutions <= 1,
                    check_for_uniqueness ==> uniqueness_digits(g, pos as nat, 1, 0)
                        == uniqueness_digits(g, pos as nat, tile as int, num_solutions as nat),
                    !check_for_uniqueness ==> num_solutions == 0 && solutions_with_digits(
                        g,
                        pos as nat,
                        1,
                    ) == solutions_with_digits(g, pos as nat, tile as int),
                decreases 10 - tile,
            {
                let ghost h = g.update(pos as int, tile);
                if let Ok(()) = sudoku.set_value(pos / 9, pos % 9, tile) {
                    proof {
                        lemma_uniqueness_search(h, (pos + 1) as nat);
                        lemma_uniqueness_search(g, pos as nat);
                    }
                    let below = self.backtrack(sudoku, pos + 1, check_for_uniqueness);
                    num_solutions += below;
                    if check_for_uniqueness && num_solutions > 1 {
                        return num_solutions;
                    }
                    if !check_for_uniqueness && num_solutions == 1 {
                        return num_solutions;
                    }
                    sudoku.unset_value(pos / 9, pos % 9).unwrap();
                    assert(sudoku@ =~= g);
                    assert(!check_for_uniqueness ==> solutions_with_digits(
                        g,
                        pos as nat,
                        tile as int,
                    ) =~= solutions_with_digits(g, pos as nat, tile + 1));
                }
                tile += 1;
            }
            return num_solutions;
        }
    }

    /// Every solution of the board, in lexicographic order of the cells, which
    /// is the order in which the search finds them.
    pub fn find_all_solutions(sudoku: &Sudoku) -> (r: Vec<Sudoku>)
        ensures
            grids_of(r@) == all_solutions(sudoku@),
            forall|s: Seq<u8>| grids_of(r@).contains(s) <==> is_solution(s, sudoku@),
            forall|i: int, j: int|
                0 <= i < j < r@.len() ==> lex_less(#[trigger] r@[i]@, #[trigger] r@[j]@),
    {
        proof {
            use_type_invariant(sudoku);
            lemma_all_solutions(sudoku@);
        }
        let mut csudoku = sudoku.clone();
        let mut solutions = Vec::new();
        let solver = SudokuSolver::new();
        solver.backtrack_find_all(&mut csudoku, 0, &mut solutions);
        assert(grids_of(solutions@) =~= all_solutions(sudoku@));
        assert forall|i: int, j: int| 0 <= i < j < solutions@.len() implies lex_less(
            #[trigger] solutions@[i]@,
            #[trigger] solutions@[j]@,
        ) by {
            assert(solutions@[i]@ == grids_of(solutions@)[i]);
            assert(solutions@[j]@ == grids_of(solutions@)[j]);
        }
        solutions
    }

    /// Searches from cell `pos` on without stopping early, appends every
    /// solution found to `solutions`, and leaves the board as it found it.
    pub fn backtrack_find_all(&self, sudoku: &mut Sudoku, pos: usize, solutions: &mut Vec<Sudoku>)
        ensures
            final(sudoku)@ == old(sudoku)@,
            grids_of(final(solutions)@) == grids_of(old(solutions)@) + solutions_from(
                old(sudoku)@,
                pos as nat,
            ),
        decreases 81 - pos,
    {
        let ghost g = sudoku@;
        let ghost before = grids_of(solutions@);
        proof {
            use_type_invariant(&*sudoku);
        }
        if pos >= 81 {
            if sudoku.is_solved() {
                solutions.push(sudoku.clone());
            } else {
            }
            return ;
        }
        if sudoku.get_value(pos / 9, pos % 9).unwrap() != 0 {
            return self.backtrack_find_all(sudoku, pos + 1, solutions);
        } else {
            let mut tile: u8 = 1;
            while tile <= 9
                invariant
                    1 <= tile <= 10,
                    pos < 81,
                    g.len() == 81,
                    g[pos as int] == 0,
                    sudoku@ == g,
                    grids_of(solutions@) + solutions_with_digits(g, pos as nat, tile as int)
                        == before + solutions_with_digits(g, pos as nat, 1),
                decreases 10 - tile,
            {
                let ghost sofar = grids_of(solutions@);
                if let Ok(()) = sudoku.set_value(pos / 9, pos % 9, tile) {
                    self.backtrack_find_all(sudoku, pos + 1, solutions);
                    sudoku.unset_value(pos / 9, pos % 9).unwrap();
                    assert(sudoku@ =~= g);
                    assert(grids_of(solutions@) + solutions_with_digits(g, pos as nat, tile + 1)
                        =~= sofar + solutions_with_digits(g, pos as nat, tile as int));
                }
                tile += 1;
            }
            assert(grids_of(solutions@) =~= grids_of(solutions@) + solutions_with_digits(
                g,
                pos as nat,
                10,
            ));
        }
    }
}

/// Where `has_solution` says that there is a solution, what `solve` returns is
/// a board without an empty cell on which every row, every column and every
/// box holds each of the digits 1 to 9 exactly once.
pub proof fn lemma_solvable_board_gets_solved(g: Seq<u8>)
    requires
        valid_grid(g),
        all_solutions(g).len() > 0,
    ensures
        is_solution(all_solutions(g)[0], g),
        complete(all_solutions(g)[0]),
        forall|u: int, d: u8|
            0 <= u < 27 && 1 <= d <= 9 ==> #[trigger] occurs_once(all_solutions(g)[0], u, d),
{
    lemma_solutions_sound(g, 0);
    lemma_solved_units(all_solutions(g)[0]);
}

/// `has_unique_solution` says yes exactly where `find_all_solutions` finds one
/// solution.
pub proof fn lemma_unique_iff_one_found(g: Seq<u8>)
    ensures
        uniqueness_search(g, 0).0 == 1 <==> all_solutions(g).len() == 1,
{
    lemma_uniqueness_search(g, 0);
}

} // verus!
