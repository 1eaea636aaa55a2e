//! The board: 81 cells that never hold a digit twice in a row, column or box.

pub mod example_sudokus;
pub mod generator;

use vstd::prelude::*;
use crate::grid::{valid_grid, complete, conflicts, placeable, sees, empty_grid, cell_index};
use crate::grid::lemma_sees_by_coordinates;
use crate::format::{
    ParseError, parse_board, meaningful, cells_of, is_blank, is_cell_glyph, glyph_value,
    digit_glyph, first_bad_glyph, first_collision, collides, serialized, rendered, rule_text,
    cell_text, group_text, row_text, band_text,
};
use crate::format::{lemma_meaningful_push, lemma_valid_iff_no_collision, push_char};
use crate::grid::{lemma_place_keeps_valid, lemma_clear_keeps_valid, lemma_held_digit_placeable};

verus! {

/// A placement was refused: the value is no digit, the cell does not exist, or
/// a cell in the same row, column or box already holds the value.
#[derive(Debug, Clone, Copy, PartialEq, Eq, Structural)]
pub struct InvalidPlacement {
    pub row: usize,
    pub col: usize,
    pub value: u8,
}

/// The coordinates name no cell of the board.
#[derive(Debug, Clone, Copy, PartialEq, Eq, Structural)]
pub struct OutOfRange {
    pub row: usize,
    pub col: usize,
}

/// A 9x9 Sudoku board.
#[derive(Debug, PartialEq, Eq)]
pub struct Sudoku {
    grid: [u8; 81],
}

impl View for Sudoku {
    type V = Seq<u8>;

    /// The 81 cells in row-major order, `0` for an empty cell.
    closed spec fn view(&self) -> Seq<u8> {
        self.grid@
    }
}

/// `value` may be written at (`row`, `col`) of grid `g`.
pub open spec fn can_place(g: Seq<u8>, row: int, col: int, value: u8) -> bool {
    0 <= row < 9 && 0 <= col < 9 && placeable(g, row * 9 + col, value)
}

/// Writing a digit where it may be written, and at once writing it there
/// again, succeeds both times, and the second writing leaves the board as the
/// first left it.
pub proof fn lemma_place_twice(g: Seq<u8>, row: int, col: int, value: u8)
    requires
        valid_grid(g),
        can_place(g, row, col, value),
    ensures
        can_place(g.update(row * 9 + col, value), row, col, value),
        g.update(row * 9 + col, value).update(row * 9 + col, value) == g.update(
            row * 9 + col,
            value,
        ),
{
    lemma_place_keeps_valid(g, row * 9 + col, value);
    lemma_held_digit_placeable(g.update(row * 9 + col, value), row * 9 + col);
}

impl Sudoku {
    pub const EMPTY_TILE: u8 = 0;

    /// Holds of every board at all times: its cells form a valid grid.
    #[verifier::type_invariant]
    pub open spec fn wf(&self) -> bool {
        valid_grid(self@)
    }

    /// The board with no clue.
    pub(crate) fn empty() -> (r: Sudoku)
        ensures
            r@ == empty_grid(),
    {
        Sudoku { grid: [Self::EMPTY_TILE;81] }
    }

    /// Reads a puzzle from its text: 81 glyphs in row-major order, white space
    /// aside. Fails on a wrong number of glyphs, else on the first glyph that
    /// stands for no cell, else on the first clue that stands twice in its row,
    /// column or box.
    pub fn from_string(s: &str) -> (r: Result<Sudoku, ParseError>)
        ensures
            match r {
                Ok(board) => parse_board(s@) == Ok::<Seq<u8>, ParseError>(board@),
                Err(e) => parse_board(s@) == Err::<Seq<u8>, ParseError>(e),
            },
    {
        let mut glyphs: Vec<char> = Vec::new();
        proof {
            reveal(Seq::filter);
        }
        for c in it: s.chars()
            invariant
                it.seq() == s@,
                glyphs@ == meaningful(s@.take(it.index())),
        {
            proof {
                let read = s@.take(it.index());
                lemma_meaningful_push(read, c);
                assert(s@.take(it.index() + 1) =~= read.push(c));
            }
            if !is_blank_char(c) {
                glyphs.push(c);
            }
        }
        assert(s@.take(s@.len() as int) =~= s@);
        if glyphs.len() != 81 {
            return Err(ParseError::InvalidLength { got: glyphs.len() });
        }
        let mut grid = [Self::EMPTY_TILE;81];
        let mut i: usize = 0;
        while i < 81
            invariant
                i <= 81,
                glyphs@.len() == 81,
                glyphs@ == meaningful(s@),
                forall|j: int| 0 <= j < i ==> is_cell_glyph(#[trigger] glyphs@[j]),
                forall|j: int| 0 <= j < i ==> #[trigger] grid@[j] == glyph_value(glyphs@[j]),
            decreases 81 - i,
        {
            let c = glyphs[i];
            if c == '.' || c == '0' || c == '-' || c == 'x' {
                grid[i] = Self::EMPTY_TILE;
            } else if '1' <= c && c <= '9' {
                grid[i] = (c as u32 - '0' as u32) as u8;
            } else {
                assert(first_bad_glyph(glyphs@, i as int));
                proof {
                    let k = choose|k: int| first_bad_glyph(glyphs@, k);
                    assert(k == i);
                }
                return Err(ParseError::InvalidCharacter { found: c });
            }
            i += 1;
        }
        assert(!exists|k: int| first_bad_glyph(glyphs@, k)) by {
            if exists|k: int| first_bad_glyph(glyphs@, k) {
                let k = choose|k: int| first_bad_glyph(glyphs@, k);
                assert(is_cell_glyph(glyphs@[k]));
            }
        }
        let mut pos: usize = 0;
        while pos < 81
            invariant
                pos <= 81,
                glyphs@.len() == 81,
                glyphs@ == meaningful(s@),
                grid@ == cells_of(glyphs@),
                !exists|k: int| first_bad_glyph(glyphs@, k),
                forall|q: int| 0 <= q < pos ==> !#[trigger] collides(grid@, q),
            decreases 81 - pos,
        {
            let tile = grid[pos];
            if tile != Self::EMPTY_TILE && seen_by_other(&grid, pos / 9, pos % 9, tile) {
                assert(first_collision(grid@, pos as int));
                proof {
                    let p = choose|p: int| first_collision(grid@, p);
                    assert(p == pos);
                }
                return Err(
                    ParseError::InvalidPlacement { row: pos / 9, col: pos % 9, value: tile },
                );
            }
            pos += 1;
        }
        proof {
            assert forall|p: int| 0 <= p < 81 implies #[trigger] grid@[p] <= 9 by {}
            lemma_valid_iff_no_collision(grid@);
            assert(!exists|p: int| first_collision(grid@, p)) by {
                if exists|p: int| first_collision(grid@, p) {
                    let p = choose|p: int| first_collision(grid@, p);
                    assert(!collides(grid@, p));
                }
            }
        }
        Ok(Sudoku { grid })
    }

    /// The cell at (`row`, `col`), or `OutOfRange` when there is no such cell.
    pub fn get_value(&self, row: usize, col: usize) -> (r: Result<u8, OutOfRange>)
        ensures
            row < 9 && col < 9 ==> r == Ok::<u8, OutOfRange>(self@[row * 9 + col]),
            !(row < 9 && col < 9) ==> r == Err::<u8, OutOfRange>(OutOfRange { row, col }),
    {
        if row > 8 || col > 8 {
            return Err(OutOfRange { row, col });
        }
        Ok(self.grid[row * 9 + col])
    }

    /// Writes `value` at (`row`, `col`) if that is legal, and refuses otherwise,
    /// leaving the board as it was. Writing again the digit that a cell holds is
    /// legal.
    pub fn set_value(&mut self, row: usize, col: usize, value: u8) -> (r: Result<(), InvalidPlacement>)
        ensures
            r is Ok <==> can_place(old(self)@, row as int, col as int, value),
            r is Ok ==> final(self)@ == old(self)@.update(row * 9 + col, value),
            r is Err ==> final(self)@ == old(self)@ && r == Err::<(), InvalidPlacement>(
                InvalidPlacement { row, col, value },
            ),
    {
        proof {
            use_type_invariant(&*self);
        }
        if self.is_valid_placement(row, col, value) {
            proof {
                lemma_place_keeps_valid(self@, row * 9 + col, value);
            }
            self.grid[row * 9 + col] = value;
            Ok(())
        } else {
            Err(InvalidPlacement { row, col, value })
        }
    }

    /// Empties the cell at (`row`, `col`); fails only when there is no such cell.
    pub fn unset_value(&mut self, row: usize, col: usize) -> (r: Result<(), OutOfRange>)
        ensures
            row < 9 && col < 9 ==> r is Ok && final(self)@ == old(self)@.update(row * 9 + col, 0),
            !(row < 9 && col < 9) ==> final(self)@ == old(self)@ && r == Err::<(), OutOfRange>(
                OutOfRange { row, col },
            ),
    {
        proof {
            use_type_invariant(&*self);
        }
        if row > 8 || col > 8 {
            return Err(OutOfRange { row, col });
        }
        proof {
            lemma_clear_keeps_valid(self@, row * 9 + col);
        }
        self.grid[row * 9 + col] = Self::EMPTY_TILE;
        Ok(())
    }

    /// Whether no cell is empty. Since every board is a valid grid, a board
    /// without an empty cell is a solved one.
    pub fn is_solved(&self) -> (r: bool)
        ensures
            r == complete(self@),
    {
        let mut pos: usize = 0;
        while pos < 81
            invariant
                pos <= 81,
                forall|p: int| 0 <= p < pos ==> #[trigger] self@[p] != 0,
            decreases 81 - pos,
        {
            if self.grid[pos] == Self::EMPTY_TILE {
                return false;
            }
            pos += 1;
        }
        true
    }

    /// The board as one line of 81 digits, `0` for an empty cell. Reading the
    /// line gives the board back.
    pub fn to_serialized(&self) -> (r: String)
        ensures
            r@ == serialized(self@),
    {
        proof {
            use_type_invariant(self);
        }
        let mut out = String::new();
        let mut pos: usize = 0;
        while pos < 81
            invariant
                pos <= 81,
                self.wf(),
                out@ == serialized(self@).take(pos as int),
            decreases 81 - pos,
        {
            push_char(&mut out, digit_char(self.grid[pos]));
            assert(out@ =~= serialized(self@).take(pos + 1));
            pos += 1;
        }
        assert(out@ =~= serialized(self@));
        out
    }

    /// The board as a framed grid of nine rows, `0` for an empty cell.
    pub fn to_string(&self) -> (r: String)
        ensures
            r@ == rendered(self@),
    {
        let mut out = String::new();
        self.push_band(&mut out, 0);
        self.push_band(&mut out, 1);
        self.push_band(&mut out, 2);
        push_rule(&mut out);
        assert(out@ =~= rendered(self@));
        out
    }

    /// Appends a rule and the three rows of band `band`.
    fn push_band(&self, out: &mut String, band: usize)
        requires
            band < 3,
        ensures
            final(out)@ == old(out)@ + band_text(self@, band as int),
    {
        push_rule(out);
        self.push_row(out, band * 3);
        self.push_row(out, band * 3 + 1);
        self.push_row(out, band * 3 + 2);
        assert(out@ =~= old(out)@ + band_text(self@, band as int));
    }

    /// Appends row `row` between its bars.
    fn push_row(&self, out: &mut String, row: usize)
        requires
            row < 9,
        ensures
            final(out)@ == old(out)@ + row_text(self@, row as int),
    {
        self.push_group(out, row, 0);
        self.push_group(out, row, 1);
        self.push_group(out, row, 2);
        push_char(out, '|');
        push_char(out, '\n');
        assert(out@ =~= old(out)@ + row_text(self@, row as int));
    }

    /// Appends a bar and the three cells of row `row` in stack `stack`.
    fn push_group(&self, out: &mut String, row: usize, stack: usize)
        requires
            row < 9,
            stack < 3,
        ensures
            final(out)@ == old(out)@ + group_text(self@, row as int, stack as int),
    {
        push_char(out, '|');
        push_char(out, ' ');
        self.push_cell(out, row, stack * 3);
        self.push_cell(out, row, stack * 3 + 1);
        self.push_cell(out, row, stack * 3 + 2);
        assert(out@ =~= old(out)@ + group_text(self@, row as int, stack as int));
    }

    /// Appends the cell at (`row`, `col`) and a space.
    fn push_cell(&self, out: &mut String, row: usize, col: usize)
        requires
            row < 9,
            col < 9,
        ensures
            final(out)@ == old(out)@ + cell_text(self@, row as int, col as int),
    {
        proof {
            use_type_invariant(self);
        }
        push_char(out, digit_char(self.grid[row * 9 + col]));
        push_char(out, ' ');
        assert(out@ =~= old(out)@ + cell_text(self@, row as int, col as int));
    }

    /// The empty cells, in row-major order.
    pub(crate) fn empty_positions(&self) -> (r: Vec<usize>)
        ensures
            forall|p: usize| r@.contains(p) <==> p < 81 && self@[p as int] == 0,
    {
        let mut open: Vec<usize> = Vec::new();
        let mut pos: usize = 0;
        while pos < 81
            invariant
                pos <= 81,
                forall|p: usize| open@.contains(p) <==> p < pos && self@[p as int] == 0,
            decreases 81 - pos,
        {
            if self.grid[pos] == Self::EMPTY_TILE {
                let ghost sofar = open@;
                open.push(pos);
                assert forall|p: usize| open@.contains(p) <==> p < pos + 1 && self@[p as int]
                    == 0 by {
                    if p == pos {
                        assert(open@[sofar.len() as int] == p);
                    } else if sofar.contains(p) {
                        let k = choose|k: int| 0 <= k < sofar.len() && sofar[k] == p;
                        assert(open@[k] == p);
                    }
                }
            }
            pos += 1;
        }
        open
    }

    /// Whether `value` may be written at (`row`, `col`).
    fn is_valid_placement(&self, row: usize, col: usize, value: u8) -> (r: bool)
        ensures
            r == can_place(self@, row as int, col as int, value),
    {
        proof {
            use_type_invariant(self);
        }
        if value < 1 || value > 9 || row > 8 || col > 8 {
            return false;
        }
        if value == self.grid[row * 9 + col] {
            proof {
                lemma_held_digit_placeable(self@, row * 9 + col);
            }
            return true;
        }
        !seen_by_other(&self.grid, row, col, value)
    }
}

impl Clone for Sudoku {
    fn clone(&self) -> (r: Self)
        ensures
            r@ == self@,
    {
        proof {
            use_type_invariant(self);
        }
        Sudoku { grid: self.grid }
    }
}

/// The glyph of a cell.
fn digit_char(v: u8) -> (c: char)
    requires
        v <= 9,
    ensures
        c == digit_glyph(v),
{
    (v + 48) as char
}

/// Appends a line of 25 dashes.
fn push_rule(out: &mut String)
    ensures
        final(out)@ == old(out)@ + rule_text(),
{
    let mut n: usize = 0;
    while n < 25
        invariant
            n <= 25,
            out@ == old(out)@ + Seq::new(n as nat, |i: int| '-'),
        decreases 25 - n,
    {
        push_char(out, '-');
        assert(out@ =~= old(out)@ + Seq::new((n + 1) as nat, |i: int| '-'));
        n += 1;
    }
    push_char(out, '\n');
    assert(out@ =~= old(out)@ + rule_text());
}

/// Whether `c` is white space.
fn is_blank_char(c: char) -> (b: bool)
    ensures
        b == is_blank(c),
{
    let u = c as u32;
    (0x09 <= u && u <= 0x0D) || u == 0x20 || u == 0x85 || u == 0xA0 || u == 0x1680 || (0x2000 <= u
        && u <= 0x200A) || u == 0x2028 || u == 0x2029 || u == 0x202F || u == 0x205F || u == 0x3000
}

/// Whether a cell other than (`row`, `col`) in its row, column or box holds
/// `value`: 24 comparisons.
fn seen_by_other(cells: &[u8; 81], row: usize, col: usize, value: u8) -> (r: bool)
    requires
        row < 9,
        col < 9,
    ensures
        r == conflicts(cells@, row * 9 + col, value),
{
    let ghost p: int = cell_index(row as int, col as int);
    let mut r: usize = 0;
    while r < 9
        invariant
            r <= 9,
            row < 9,
            col < 9,
            p == cell_index(row as int, col as int),
            forall|a: int|
                0 <= a < r && a != row ==> cells@[#[trigger] cell_index(a, col as int)] != value,
        decreases 9 - r,
    {
        if r != row && cells[r * 9 + col] == value {
            proof {
                lemma_sees_by_coordinates(row as int, col as int, r as int, col as int);
            }
            return true;
        }
        r += 1;
    }
    let mut c: usize = 0;
    while c < 9
        invariant
            c <= 9,
            row < 9,
            col < 9,
            p == cell_index(row as int, col as int),
            forall|b: int|
                0 <= b < c && b != col ==> cells@[#[trigger] cell_index(row as int, b)] != value,
        decreases 9 - c,
    {
        if c != col && cells[row * 9 + c] == value {
            proof {
                lemma_sees_by_coordinates(row as int, col as int, row as int, c as int);
            }
            return true;
        }
        c += 1;
    }
    let top = (row / 3) * 3;
    let left = (col / 3) * 3;
    let mut i: usize = 0;
    while i < 3
        invariant
            i <= 3,
            row < 9,
            col < 9,
            p == cell_index(row as int, col as int),
            top == (row / 3) * 3,
            left == (col / 3) * 3,
            forall|a: int, b: int|
                top <= a < top + i && left <= b < left + 3 && !(a == row && b == col)
                    ==> cells@[#[trigger] cell_index(a, b)] != value,
        decreases 3 - i,
    {
        let mut j: usize = 0;
        while j < 3
            invariant
                i < 3,
                j <= 3,
                row < 9,
                col < 9,
                p == cell_index(row as int, col as int),
                top == (row / 3) * 3,
                left == (col / 3) * 3,
                forall|a: int, b: int|
                    top <= a < top + i && left <= b < left + 3 && !(a == row && b == col)
                        ==> cells@[#[trigger] cell_index(a, b)] != value,
                forall|b: int|
                    left <= b < left + j && !(top + i == row && b == col)
                        ==> cells@[#[trigger] cell_index(top + i, b)] != value,
            decreases 3 - j,
        {
            if !(top + i == row && left + j == col) && cells[(top + i) * 9 + left + j] == value {
                proof {
                    lemma_sees_by_coordinates(row as int, col as int, top + i, left + j);
                }
                return true;
            }
            j += 1;
        }
        i += 1;
    }
    assert forall|q: int| 0 <= q < 81 && sees(p, q) implies #[trigger] cells@[q] != value by {
        lemma_sees_by_coordinates(row as int, col as int, q / 9, q % 9);
    }
    false
}

} // verus!
