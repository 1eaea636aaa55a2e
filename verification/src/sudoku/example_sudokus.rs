//! A few puzzles to try the solver on.

use vstd::prelude::*;
use crate::format::{ParseError, parse_board, cells_of, is_cell_glyph, is_blank};
use crate::format::{lemma_meaningful_without_blanks, lemma_valid_iff_no_collision};
use crate::grid::{valid_grid, sees, unit_cell};
use crate::sudoku::Sudoku;

verus! {

/// The first `n` glyphs of `text` stand for cells.
pub open spec fn glyphs_checked(text: Seq<char>, n: int) -> bool
    decreases n,
{
    n <= 0 || (is_cell_glyph(text[n - 1]) && glyphs_checked(text, n - 1))
}

/// Cell `i` of unit `u` holds no clue that one of the cells `j..9` of the unit
/// holds too.
pub open spec fn cell_checked(g: Seq<u8>, u: int, i: int, j: int) -> bool
    decreases 9 - j,
{
    j >= 9 || ((i == j || g[unit_cell(u, i)] == 0 || g[unit_cell(u, i)] != g[unit_cell(u, j)])
        && cell_checked(g, u, i, j + 1))
}

/// None of the cells `i..9` of unit `u` holds a clue that another cell of the
/// unit holds too.
pub open spec fn unit_checked(g: Seq<u8>, u: int, i: int) -> bool
    decreases 9 - i,
{
    i >= 9 || (cell_checked(g, u, i, 0) && unit_checked(g, u, i + 1))
}

/// In none of the units `u..27` does a clue stand twice.
pub open spec fn units_checked(g: Seq<u8>, u: int) -> bool
    decreases 27 - u,
{
    u >= 27 || (unit_checked(g, u, 0) && units_checked(g, u + 1))
}

/// Each of the first `n` glyphs of a checked text stands for a cell.
proof fn lemma_glyphs_checked(text: Seq<char>, n: int, i: int)
    requires
        glyphs_checked(text, n),
        0 <= i < n,
    ensures
        is_cell_glyph(text[i]),
    decreases n,
{
    if i < n - 1 {
        lemma_glyphs_checked(text, n - 1, i);
    }
}

/// A clue in a checked cell differs from every later cell of its unit.
proof fn lemma_cell_checked(g: Seq<u8>, u: int, i: int, from: int, j: int)
    requires
        cell_checked(g, u, i, from),
        0 <= from <= j < 9,
        i != j,
        g[unit_cell(u, i)] != 0,
    ensures
        g[unit_cell(u, i)] != g[unit_cell(u, j)],
    decreases j - from,
{
    if from < j {
        lemma_cell_checked(g, u, i, from + 1, j);
    }
}

/// Every cell of a checked unit is checked.
proof fn lemma_unit_checked(g: Seq<u8>, u: int, from: int, i: int)
    requires
        unit_checked(g, u, from),
        0 <= from <= i < 9,
    ensures
        cell_checked(g, u, i, 0),
    decreases i - from,
{
    if from < i {
        lemma_unit_checked(g, u, from + 1, i);
    }
}

/// Every unit from a checked unit on is checked.
proof fn lemma_units_checked(g: Seq<u8>, from: int, u: int)
    requires
        units_checked(g, from),
        0 <= from <= u < 27,
    ensures
        unit_checked(g, u, 0),
    decreases u - from,
{
    if from < u {
        lemma_units_checked(g, from + 1, u);
    }
}

/// Two cells that see each other are two cells of one unit.
proof fn lemma_shared_unit(p: int, q: int) -> (r: (int, int, int))
    requires
        0 <= p < 81,
        0 <= q < 81,
        sees(p, q),
    ensures
        0 <= r.0 < 27,
        0 <= r.1 < 9,
        0 <= r.2 < 9,
        r.1 != r.2,
        unit_cell(r.0, r.1) == p,
        unit_cell(r.0, r.2) == q,
{
    let a = p / 9;
    let b = p % 9;
    let c = q / 9;
    let d = q % 9;
    if a == c {
        (a, b, d)
    } else if b == d {
        (9 + b, a, c)
    } else {
        let band = a / 3;
        let stack = b / 3;
        assert(c / 3 == band && d / 3 == stack);
        let i = (a % 3) * 3 + b % 3;
        let j = (c % 3) * 3 + d % 3;
        assert(i / 3 == a % 3 && i % 3 == b % 3);
        assert(j / 3 == c % 3 && j % 3 == d % 3);
        let u = 18 + band * 3 + stack;
        assert((u - 18) / 3 == band && (u - 18) % 3 == stack);
        (u, i, j)
    }
}

/// A text of 81 cell glyphs in whose units no clue stands twice is a puzzle.
pub proof fn lemma_checked_text_parses(text: Seq<char>)
    requires
        text.len() == 81,
        glyphs_checked(text, 81),
        units_checked(cells_of(text), 0),
    ensures
        parse_board(text) == Ok::<Seq<u8>, ParseError>(cells_of(text)),
        valid_grid(cells_of(text)),
{
    let g = cells_of(text);
    assert forall|i: int| 0 <= i < text.len() implies !is_blank(#[trigger] text[i])
        && is_cell_glyph(text[i]) by {
        lemma_glyphs_checked(text, 81, i);
    }
    lemma_meaningful_without_blanks(text);
    assert forall|p: int, q: int|
        0 <= p < 81 && 0 <= q < 81 && sees(p, q) && g[p] != 0 implies #[trigger] g[p]
        != #[trigger] g[q] by {
        let (u, i, j) = lemma_shared_unit(p, q);
        lemma_units_checked(g, 0, u);
        lemma_unit_checked(g, u, 0, i);
        lemma_cell_checked(g, u, i, 0, j);
    }
    lemma_valid_iff_no_collision(g);
}

pub const EXAMPLE_SUDOKU: &'static str =
    "980010002007096800603070009078609410409001063500000000030000057005180390000537284";

pub const AMBIGUOUS_SUDOKU: &'static str =
    "500000070001003000000009002050040007000100000008000500000500900600010000090002000";

pub const EXTREME_SUDOKU: &'static str =
    "500400030000010600000080040000000000001340000073200009680000007000500020210060000";

pub const AMBIGUOUS_EASY: &'static str =
    "145327698839654127672918543496085370218473956753096480367542819984761235521839764";

pub const ONE_NUMBER_SUDOKU: &'static str =
    "000000000000000000000000000000000000000000000000000000000000000000000000000000005";

/// A puzzle with a single solution.
pub fn example_sudoku() -> (r: Sudoku)
    ensures
        r@ == cells_of(EXAMPLE_SUDOKU@),
        parse_board(EXAMPLE_SUDOKU@) == Ok::<Seq<u8>, ParseError>(r@),
{
    proof {
        reveal_strlit(
            "980010002007096800603070009078609410409001063500000000030000057005180390000537284",
        );
        let text = EXAMPLE_SUDOKU@;
        assert(glyphs_checked(text, 81)) by {
            reveal_with_fuel(glyphs_checked, 82);
        }
        assert(units_checked(cells_of(text), 18)) by {
            reveal_with_fuel(units_checked, 10);
            reveal_with_fuel(unit_checked, 10);
            reveal_with_fuel(cell_checked, 10);
        }
        assert(units_checked(cells_of(text), 9)) by {
            reveal_with_fuel(units_checked, 10);
            reveal_with_fuel(unit_checked, 10);
            reveal_with_fuel(cell_checked, 10);
        }
        assert(units_checked(cells_of(text), 0)) by {
            reveal_with_fuel(units_checked, 10);
            reveal_with_fuel(unit_checked, 10);
            reveal_with_fuel(cell_checked, 10);
        }
        lemma_checked_text_parses(text);
    }
    Sudoku::from_string(EXAMPLE_SUDOKU).unwrap()
}

/// A puzzle with more than one solution.
pub fn ambiguous_sudoku() -> (r: Sudoku)
    ensures
        r@ == cells_of(AMBIGUOUS_SUDOKU@),
        parse_board(AMBIGUOUS_SUDOKU@) == Ok::<Seq<u8>, ParseError>(r@),
{
    proof {
        reveal_strlit(
            "500000070001003000000009002050040007000100000008000500000500900600010000090002000",
        );
        let text = AMBIGUOUS_SUDOKU@;
        assert(glyphs_checked(text, 81)) by {
            reveal_with_fuel(glyphs_checked, 82);
        }
        assert(units_checked(cells_of(text), 18)) by {
            reveal_with_fuel(units_checked, 10);
            reveal_with_fuel(unit_checked, 10);
            reveal_with_fuel(cell_checked, 10);
        }
        assert(units_checked(cells_of(text), 9)) by {
            reveal_with_fuel(units_checked, 10);
            reveal_with_fuel(unit_checked, 10);
            reveal_with_fuel(cell_checked, 10);
        }
        assert(units_checked(cells_of(text), 0)) by {
            reveal_with_fuel(units_checked, 10);
            reveal_with_fuel(unit_checked, 10);
            reveal_with_fuel(cell_checked, 10);
        }
        lemma_checked_text_parses(text);
    }
    Sudoku::from_string(AMBIGUOUS_SUDOKU).unwrap()
}

/// A puzzle on which the search takes long.
pub fn extreme_sudoku() -> (r: Sudoku)
    ensures
        r@ == cells_of(EXTREME_SUDOKU@),
        parse_board(EXTREME_SUDOKU@) == Ok::<Seq<u8>, ParseError>(r@),
{
    proof {
        reveal_strlit(
            "500400030000010600000080040000000000001340000073200009680000007000500020210060000",
        );
        let text = EXTREME_SUDOKU@;
        assert(glyphs_checked(text, 81)) by {
            reveal_with_fuel(glyphs_checked, 82);
        }
        assert(units_checked(cells_of(text), 18)) by {
            reveal_with_fuel(units_checked, 10);
            reveal_with_fuel(unit_checked, 10);
            reveal_with_fuel(cell_checked, 10);
        }
        assert(units_checked(cells_of(text), 9)) by {
            reveal_with_fuel(units_checked, 10);
            reveal_with_fuel(unit_checked, 10);
            reveal_with_fuel(cell_checked, 10);
        }
        assert(units_checked(cells_of(text), 0)) by {
            reveal_with_fuel(units_checked, 10);
            reveal_with_fuel(unit_checked, 10);
            reveal_with_fuel(cell_checked, 10);
        }
        lemma_checked_text_parses(text);
    }
    Sudoku::from_string(EXTREME_SUDOKU).unwrap()
}

/// A nearly full board that still has more than one solution.
pub fn ambiguous_easy() -> (r: Sudoku)
    ensures
        r@ == cells_of(AMBIGUOUS_EASY@),
        parse_board(AMBIGUOUS_EASY@) == Ok::<Seq<u8>, ParseError>(r@),
{
    proof {
        reveal_strlit(
            "145327698839654127672918543496085370218473956753096480367542819984761235521839764",
        );
        let text = AMBIGUOUS_EASY@;
        assert(glyphs_checked(text, 81)) by {
            reveal_with_fuel(glyphs_checked, 82);
        }
        assert(units_checked(cells_of(text), 18)) by {
            reveal_with_fuel(units_checked, 10);
            reveal_with_fuel(unit_checked, 10);
            reveal_with_fuel(cell_checked, 10);
        }
        assert(units_checked(cells_of(text), 9)) by {
            reveal_with_fuel(units_checked, 10);
            reveal_with_fuel(unit_checked, 10);
            reveal_with_fuel(cell_checked, 10);
        }
        assert(units_checked(cells_of(text), 0)) by {
            reveal_with_fuel(units_checked, 10);
            reveal_with_fuel(unit_checked, 10);
            reveal_with_fuel(cell_checked, 10);
        }
        lemma_checked_text_parses(text);
    }
    Sudoku::from_string(AMBIGUOUS_EASY).unwrap()
}

/// A board with a single clue, in its last cell.
pub fn one_number_sudoku() -> (r: Sudoku)
    ensures
        r@ == cells_of(ONE_NUMBER_SUDOKU@),
        parse_board(ONE_NUMBER_SUDOKU@) == Ok::<Seq<u8>, ParseError>(r@),
{
    proof {
        reveal_strlit(
            "000000000000000000000000000000000000000000000000000000000000000000000000000000005",
        );
        let text = ONE_NUMBER_SUDOKU@;
        assert(glyphs_checked(text, 81)) by {
            reveal_with_fuel(glyphs_checked, 82);
        }
        assert(units_checked(cells_of(text), 18)) by {
            reveal_with_fuel(units_checked, 10);
            reveal_with_fuel(unit_checked, 10);
            reveal_with_fuel(cell_checked, 10);
        }
        assert(units_checked(cells_of(text), 9)) by {
            reveal_with_fuel(units_checked, 10);
            reveal_with_fuel(unit_checked, 10);
            reveal_with_fuel(cell_checked, 10);
        }
        assert(units_checked(cells_of(text), 0)) by {
            reveal_with_fuel(units_checked, 10);
            reveal_with_fuel(unit_checked, 10);
            reveal_with_fuel(cell_checked, 10);
        }
        lemma_checked_text_parses(text);
    }
    Sudoku::from_string(ONE_NUMBER_SUDOKU).unwrap()
}

} // verus!
