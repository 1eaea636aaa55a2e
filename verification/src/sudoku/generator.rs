//! Making puzzles: a full grid is filled at random, then clues are taken out
//! one at a time for as long as the puzzle keeps a single solution.

use vstd::prelude::*;
use crate::grid::{valid_grid, complete, is_solution, clue_count};
use crate::grid::{
    lemma_pattern_grid_solved, lemma_clues_of_complete, lemma_clues_after_clear,
    lemma_clues_bounded, lemma_clear_then_restore, lemma_all_clues,
};
use crate::random::{random_in, choose_one, shuffle};
use crate::search::{
    all_solutions, lemma_solved_board, lemma_all_solutions, lemma_solved_grid_spares_a_clue,
};
use crate::sudoku::Sudoku;
use crate::sudoku_solver::SudokuSolver;

verus! {

/// How many clues a puzzle is to keep.
#[derive(Debug, Clone, Copy)]
pub enum Difficulty {
    VeryEasy,
    Easy,
    Medium,
    Hard,
    VeryHard,
}

/// Fewer clues were asked for than a puzzle with one solution can have.
#[derive(Debug, Clone, Copy, PartialEq, Eq, Structural)]
pub struct TooFewClues {
    pub requested: usize,
}

/// No puzzle with fewer clues has a single solution.
pub const MIN_CLUES: usize = 17;

/// How often the full-grid constructor draws a cell and a digit before it
/// completes the grid with the solver.
pub const MAX_FILL_ATTEMPTS: usize = 10_000;

/// How many digits the search may try to show that a board can still be
/// solved after a draw.
pub const FORWARD_CHECK_STEPS: usize = 20_000;

/// The least number of clues that a puzzle of this difficulty aims at.
pub open spec fn fewest_clues(difficulty: Difficulty) -> int {
    match difficulty {
        Difficulty::VeryEasy => 35,
        Difficulty::Easy => 30,
        Difficulty::Medium => 25,
        Difficulty::Hard => 20,
        Difficulty::VeryHard => 17,
    }
}

/// The greatest number of clues that a puzzle of this difficulty aims at.
pub open spec fn most_clues(difficulty: Difficulty) -> int {
    match difficulty {
        Difficulty::VeryEasy => 40,
        Difficulty::Easy => 34,
        Difficulty::Medium => 29,
        Difficulty::Hard => 24,
        Difficulty::VeryHard => 22,
    }
}

/// The clue at `p`, if there is one, cannot be spared: without it the board
/// has no longer exactly one solution.
pub open spec fn clue_needed(g: Seq<u8>, p: int) -> bool {
    g[p] != 0 ==> all_solutions(g.update(p, 0)).len() != 1
}

/// No clue but that of the first cell, which is never taken, can be spared.
pub open spec fn no_clue_to_spare(g: Seq<u8>) -> bool {
    forall|p: int| 1 <= p < 81 ==> #[trigger] clue_needed(g, p)
}

/// `g` is a puzzle dug down towards `target` clues: it has exactly one
/// solution and keeps the clue of its first cell; it has `target` clues (81
/// where more were asked for), or more where no further clue can be spared.
pub open spec fn dug_to(g: Seq<u8>, target: int) -> bool {
    &&& valid_grid(g)
    &&& all_solutions(g).len() == 1
    &&& g[0] != 0
    &&& clue_count(g) >= target || clue_count(g) == 81
    &&& clue_count(g) > target ==> no_clue_to_spare(g)
}

/// A puzzle dug towards fewer than 81 clues has an empty cell: the first clue
/// tried can always be spared.
pub proof fn lemma_dug_puzzle_has_a_gap(g: Seq<u8>, target: int)
    requires
        dug_to(g, target),
        target < 81,
    ensures
        clue_count(g) <= 80,
{
    lemma_clues_bounded(g, 81);
    if clue_count(g) == 81 {
        lemma_all_clues(g, 81);
        lemma_solved_grid_spares_a_clue(g, 1);
        assert(clue_needed(g, 1));
    }
}

/// Two sequences with the same elements, each as often, have the same length
/// and the same members.
proof fn lemma_same_members(a: Seq<usize>, b: Seq<usize>)
    requires
        a.to_multiset() == b.to_multiset(),
    ensures
        a.len() == b.len(),
        forall|x: usize| a.contains(x) <==> b.contains(x),
{
    a.to_multiset_ensures();
    b.to_multiset_ensures();
    assert forall|x: usize| a.contains(x) <==> b.contains(x) by {
        assert(b.contains(x) <==> b.to_multiset().count(x) > 0);
    }
}

/// The cells from which a clue may be taken: all but the first.
fn candidate_positions() -> (r: Vec<usize>)
    ensures
        r@.len() == 80,
        forall|i: int| 0 <= i < 80 ==> r@[i] == i + 1,
{
    let mut idxs: Vec<usize> = Vec::new();
    let mut p: usize = 1;
    while p < 81
        invariant
            1 <= p <= 81,
            idxs@.len() == p - 1,
            forall|i: int| 0 <= i < p - 1 ==> idxs@[i] == i + 1,
        decreases 81 - p,
    {
        idxs.push(p);
        p += 1;
    }
    idxs
}

impl Sudoku {
    /// A puzzle of the given difficulty, or with `prefilled_cells` clues where
    /// that is given.
    fn new(difficulty: Difficulty, prefilled_cells: Option<usize>) -> (r: Sudoku)
        ensures
            match prefilled_cells {
                Some(n) => dug_to(r@, n as int),
                None => exists|k: int|
                    fewest_clues(difficulty) <= k <= most_clues(difficulty) && dug_to(r@, k),
            },
    {
        Self::create_sudoku(difficulty, prefilled_cells)
    }

    /// A puzzle with one solution and `prefilled_cells` clues, or more where
    /// no further clue can be spared. Fewer than 17 clues are refused.
    pub fn new_custom_sudoku(prefilled_cells: usize) -> (r: Result<Sudoku, TooFewClues>)
        ensures
            prefilled_cells < 17 ==> r == Err::<Sudoku, TooFewClues>(
                TooFewClues { requested: prefilled_cells },
            ),
            prefilled_cells >= 17 ==> r is Ok && dug_to(r->Ok_0@, prefilled_cells as int),
    {
        if prefilled_cells < MIN_CLUES {
            return Err(TooFewClues { requested: prefilled_cells });
        }
        Ok(Self::new(Difficulty::Easy, Some(prefilled_cells)))
    }

    /// A puzzle with one solution that aims at 35 to 40 clues.
    pub fn new_very_easy() -> (r: Sudoku)
        ensures
            exists|k: int| 35 <= k <= 40 && dug_to(r@, k),
    {
        Self::new(Difficulty::VeryEasy, None)
    }

    /// A puzzle with one solution that aims at 30 to 34 clues.
    pub fn new_easy() -> (r: Sudoku)
        ensures
            exists|k: int| 30 <= k <= 34 && dug_to(r@, k),
    {
        Self::new(Difficulty::Easy, None)
    }

    /// A puzzle with one solution that aims at 25 to 29 clues.
    pub fn new_medium() -> (r: Sudoku)
        ensures
            exists|k: int| 25 <= k <= 29 && dug_to(r@, k),
    {
        Self::new(Difficulty::Medium, None)
    }

    /// A puzzle with one solution that aims at 20 to 24 clues.
    pub fn new_hard() -> (r: Sudoku)
        ensures
            exists|k: int| 20 <= k <= 24 && dug_to(r@, k),
    {
        Self::new(Difficulty::Hard, None)
    }

    /// A puzzle with one solution that aims at 17 to 22 clues.
    pub fn new_very_hard() -> (r: Sudoku)
        ensures
            exists|k: int| 17 <= k <= 22 && dug_to(r@, k),
    {
        Self::new(Difficulty::VeryHard, None)
    }

    /// Fills a grid at random and takes clues out of it, in random order and
    /// never from the first cell, for as long as the puzzle keeps exactly one
    /// solution and has more clues than aimed at. It ends when the aim is
    /// reached or when a whole round has taken no clue.
    fn create_sudoku(difficulty: Difficulty, prefilled_cells: Option<usize>) -> (r: Sudoku)
        ensures
            match prefilled_cells {
                Some(n) => dug_to(r@, n as int),
                None => exists|k: int|
                    fewest_clues(difficulty) <= k <= most_clues(difficulty) && dug_to(r@, k),
            },
    {
        let mut rng = rand::rng();
        let target: usize = if let Some(n) = prefilled_cells {
            n
        } else {
            match difficulty {
                Difficulty::VeryEasy => random_in(&mut rng, 35, 41) as usize,
                Difficulty::Easy => random_in(&mut rng, 30, 35) as usize,
                Difficulty::Medium => random_in(&mut rng, 25, 30) as usize,
                Difficulty::Hard => random_in(&mut rng, 20, 25) as usize,
                Difficulty::VeryHard => random_in(&mut rng, 17, 23) as usize,
            }
        };
        let solver = SudokuSolver::new();
        let mut filled_sudoku = Self::create_full_random_sudoku();
        proof {
            lemma_solved_board(filled_sudoku@);
            lemma_clues_of_complete(filled_sudoku@, 81);
        }
        let mut removed_tiles: usize = 0;
        let mut stuck = false;
        while !stuck && 81 - removed_tiles > target
            invariant
                removed_tiles <= 81,
                clue_count(filled_sudoku@) == 81 - removed_tiles,
                all_solutions(filled_sudoku@).len() == 1,
                filled_sudoku@[0] != 0,
                81 - removed_tiles >= target || removed_tiles == 0,
                stuck ==> no_clue_to_spare(filled_sudoku@),
            decreases
                    81 - removed_tiles,
                    if stuck {
                        0int
                    } else {
                        1int
                    },
        {
            let removed_before = removed_tiles;
            let mut idxs = candidate_positions();
            let ghost ordered = idxs@;
            shuffle(&mut idxs, &mut rng);
            proof {
                lemma_same_members(idxs@, ordered);
                assert forall|j: int| 0 <= j < idxs@.len() implies 1 <= #[trigger] idxs@[j]
                    < 81 by {
                    assert(idxs@.contains(idxs@[j]));
                    let k = choose|k: int| 0 <= k < ordered.len() && ordered[k] == idxs@[j];
                    assert(ordered[k] == k + 1);
                }
                assert forall|p: usize| 1 <= p < 81 implies idxs@.contains(p) by {
                    assert(ordered[p - 1] == p);
                }
            }
            let ghost start = filled_sudoku@;
            let mut i: usize = 0;
            while i < idxs.len() && 81 - removed_tiles > target
                invariant
                    i <= idxs@.len(),
                    forall|j: int| 0 <= j < idxs@.len() ==> 1 <= #[trigger] idxs@[j] < 81,
                    removed_before <= removed_tiles <= 81,
                    clue_count(filled_sudoku@) == 81 - removed_tiles,
                    all_solutions(filled_sudoku@).len() == 1,
                    filled_sudoku@[0] != 0,
                    81 - removed_tiles >= target || removed_tiles == 0,
                    removed_tiles == removed_before ==> filled_sudoku@ == start && forall|j: int|
                        0 <= j < i ==> clue_needed(start, #[trigger] idxs@[j] as int),
                decreases idxs@.len() - i,
            {
                let idx = idxs[i];
                let ghost before = filled_sudoku@;
                proof {
                    use_type_invariant(&filled_sudoku);
                }
                let tile_value = filled_sudoku.get_value(idx / 9, idx % 9).unwrap();
                if tile_value != Self::EMPTY_TILE {
                    filled_sudoku.unset_value(idx / 9, idx % 9).unwrap();
                    if !solver.has_unique_solution(&filled_sudoku) {
                        proof {
                            lemma_clear_then_restore(before, idx as int);
                        }
                        filled_sudoku.set_value(idx / 9, idx % 9, tile_value).unwrap();
                    } else {
                        proof {
                            lemma_clues_after_clear(before, idx as int, 81);
                            lemma_clues_bounded(filled_sudoku@, 81);
                        }
                        removed_tiles += 1;
                    }
                }
                i += 1;
            }
            if removed_tiles == removed_before {
                stuck = true;
                proof {
                    assert forall|p: int| 1 <= p < 81 implies #[trigger] clue_needed(start, p) by {
                        assert(idxs@.contains(p as usize));
                        let j = choose|j: int| 0 <= j < idxs@.len() && idxs@[j] == p as usize;
                        assert(clue_needed(start, idxs@[j] as int));
                    }
                }
            }
        }
        proof {
            use_type_invariant(&filled_sudoku);
            assert(dug_to(filled_sudoku@, target as int));
        }
        filled_sudoku
    }

    /// A solved grid filled at random: again and again a random digit is
    /// written into a random empty cell, and kept if a search of at most
    /// `FORWARD_CHECK_STEPS` steps shows that the board can still be solved.
    /// Once no empty cell is left, or after `MAX_FILL_ATTEMPTS` draws, what
    /// is still empty is filled in by the solver.
    pub fn create_full_random_sudoku() -> (r: Sudoku)
        ensures
            valid_grid(r@),
            complete(r@),
    {
        let mut sudoku = Sudoku::empty();
        let solver = SudokuSolver::new();
        let mut rng = rand::rng();
        proof {
            lemma_pattern_grid_solved();
        }
        let mut attempts: usize = 0;
        let mut full = false;
        while !full && attempts < MAX_FILL_ATTEMPTS
            invariant
                attempts <= MAX_FILL_ATTEMPTS,
                exists|s: Seq<u8>| is_solution(s, sudoku@),
            decreases MAX_FILL_ATTEMPTS - attempts,
        {
            attempts += 1;
            let ghost before = sudoku@;
            proof {
                use_type_invariant(&sudoku);
            }
            let rand_num = random_in(&mut rng, 1, 10) as u8;
            let open = sudoku.empty_positions();
            match choose_one(&open, &mut rng) {
                None => {
                    full = true;
                },
                Some(rand_pos) => {
                    if sudoku.set_value(rand_pos / 9, rand_pos % 9, rand_num).is_ok() {
                        let solvable = solver.has_solution_within(&sudoku, FORWARD_CHECK_STEPS);
                        if solvable != Some(true) {
                            sudoku.unset_value(rand_pos / 9, rand_pos % 9).unwrap();
                            assert(sudoku@ =~= before);
                        } else {
                            proof {
                                use_type_invariant(&sudoku);
                                lemma_all_solutions(sudoku@);
                                let first = all_solutions(sudoku@)[0];
                                assert(is_solution(first, sudoku@));
                            }
                        }
                    }
                },
            }
        }
        proof {
            use_type_invariant(&sudoku);
            lemma_all_solutions(sudoku@);
            let s = choose|s: Seq<u8>| is_solution(s, sudoku@);
            assert(all_solutions(sudoku@).contains(s));
        }
        let solved = solver.solve(sudoku);
        proof {
            use_type_invariant(&solved);
        }
        solved
    }
}

} // verus!
