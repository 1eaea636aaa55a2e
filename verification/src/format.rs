//! The text forms of a board.
//!
//! A puzzle is read from 81 glyphs in row-major order, a digit `1`-`9` for a
//! clue and one of `0`, `.`, `-`, `x` for an empty cell; white space between
//! the glyphs does not count. A board is written either as one line of 81
//! digits or as a framed grid.

use vstd::prelude::*;
use crate::grid::{valid_grid, conflicts, sees};

verus! {

/// Why a text is no puzzle.
#[derive(Debug, Clone, Copy, PartialEq, Eq)]
pub enum ParseError {
    /// The text holds `got` glyphs, not 81.
    InvalidLength { got: usize },
    /// `found` is the first glyph that is neither a digit nor an empty cell.
    InvalidCharacter { found: char },
    /// The clue `value` at (`row`, `col`) is the first, in row-major order,
    /// that stands twice in its row, column or box.
    InvalidPlacement { row: usize, col: usize, value: u8 },
}

/// White space: the code points with the Unicode property `White_Space`.
pub open spec fn is_blank(c: char) -> bool {
    let u = c as u32;
    ||| 0x09 <= u <= 0x0D
    ||| u == 0x20
    ||| u == 0x85
    ||| u == 0xA0
    ||| u == 0x1680
    ||| 0x2000 <= u <= 0x200A
    ||| u == 0x2028
    ||| u == 0x2029
    ||| u == 0x202F
    ||| u == 0x205F
    ||| u == 0x3000
}

/// A glyph for an empty cell.
pub open spec fn is_empty_glyph(c: char) -> bool {
    c == '.' || c == '0' || c == '-' || c == 'x'
}

/// A glyph for a clue.
pub open spec fn is_clue_glyph(c: char) -> bool {
    '1' <= c <= '9'
}

/// A glyph that stands for a cell.
pub open spec fn is_cell_glyph(c: char) -> bool {
    is_empty_glyph(c) || is_clue_glyph(c)
}

/// The cell that a glyph stands for.
pub open spec fn glyph_value(c: char) -> u8 {
    if is_clue_glyph(c) {
        (c as u32 - '0' as u32) as u8
    } else {
        0
    }
}

/// The glyph written for a cell: its digit, `0` for an empty cell.
pub open spec fn digit_glyph(v: u8) -> char {
    (v + 48) as char
}

/// The text without its white space.
pub open spec fn meaningful(text: Seq<char>) -> Seq<char> {
    text.filter(|c: char| !is_blank(c))
}

/// The cells that a row of glyphs stands for.
pub open spec fn cells_of(glyphs: Seq<char>) -> Seq<u8> {
    Seq::new(glyphs.len(), |i: int| glyph_value(glyphs[i]))
}

/// Glyph `i` is the first that stands for no cell.
pub open spec fn first_bad_glyph(glyphs: Seq<char>, i: int) -> bool {
    &&& 0 <= i < glyphs.len()
    &&& !is_cell_glyph(glyphs[i])
    &&& forall|j: int| 0 <= j < i ==> is_cell_glyph(#[trigger] glyphs[j])
}

/// Cell `p` holds a clue that another cell in its row, column or box holds too.
pub open spec fn collides(g: Seq<u8>, p: int) -> bool {
    g[p] != 0 && conflicts(g, p, g[p])
}

/// Cell `p` is the first in row-major order whose clue collides.
pub open spec fn first_collision(g: Seq<u8>, p: int) -> bool {
    &&& 0 <= p < 81
    &&& collides(g, p)
    &&& forall|q: int| 0 <= q < p ==> !#[trigger] collides(g, q)
}

/// What reading a text gives: the grid it stands for, or the first thing that
/// is wrong with it. The number of glyphs is judged first, then the glyphs
/// from left to right, then the clues in row-major order.
pub open spec fn parse_board(text: Seq<char>) -> Result<Seq<u8>, ParseError> {
    let glyphs = meaningful(text);
    let cells = cells_of(glyphs);
    if glyphs.len() != 81 {
        Err(ParseError::InvalidLength { got: glyphs.len() as usize })
    } else if exists|i: int| first_bad_glyph(glyphs, i) {
        let i = choose|i: int| first_bad_glyph(glyphs, i);
        Err(ParseError::InvalidCharacter { found: glyphs[i] })
    } else if exists|p: int| first_collision(cells, p) {
        let p = choose|p: int| first_collision(cells, p);
        Err(
            ParseError::InvalidPlacement {
                row: (p / 9) as usize,
                col: (p % 9) as usize,
                value: cells[p],
            },
        )
    } else {
        Ok(cells)
    }
}

/// The board as one line: the 81 cells in row-major order, a digit each.
pub open spec fn serialized(g: Seq<u8>) -> Seq<char> {
    Seq::new(81, |p: int| digit_glyph(g[p]))
}

/// A line of 25 dashes.
pub open spec fn rule_text() -> Seq<char> {
    Seq::new(25, |i: int| '-').push('\n')
}

/// One cell and the space behind it.
pub open spec fn cell_text(g: Seq<u8>, row: int, col: int) -> Seq<char> {
    seq![digit_glyph(g[row * 9 + col]), ' ']
}

/// A bar and the three cells behind it.
pub open spec fn group_text(g: Seq<u8>, row: int, stack: int) -> Seq<char> {
    seq!['|', ' '] + cell_text(g, row, stack * 3) + cell_text(g, row, stack * 3 + 1) + cell_text(
        g,
        row,
        stack * 3 + 2,
    )
}

/// One row of the board between bars.
pub open spec fn row_text(g: Seq<u8>, row: int) -> Seq<char> {
    group_text(g, row, 0) + group_text(g, row, 1) + group_text(g, row, 2) + seq!['|', '\n']
}

/// A rule and the three rows below it.
pub open spec fn band_text(g: Seq<u8>, band: int) -> Seq<char> {
    rule_text() + row_text(g, band * 3) + row_text(g, band * 3 + 1) + row_text(g, band * 3 + 2)
}

/// The board as a framed grid: a rule above every third row and one below the
/// last, bars beside every third column, `0` for an empty cell.
pub open spec fn rendered(g: Seq<u8>) -> Seq<char> {
    band_text(g, 0) + band_text(g, 1) + band_text(g, 2) + rule_text()
}

/// A grid on which no clue collides is valid, and the other way round.
pub proof fn lemma_valid_iff_no_collision(g: Seq<u8>)
    requires
        g.len() == 81,
        forall|p: int| 0 <= p < 81 ==> #[trigger] g[p] <= 9,
    ensures
        valid_grid(g) <==> forall|p: int| 0 <= p < 81 ==> !#[trigger] collides(g, p),
{
    if valid_grid(g) {
        assert forall|p: int| 0 <= p < 81 implies !#[trigger] collides(g, p) by {
            if collides(g, p) {
                let q = choose|q: int| 0 <= q < 81 && sees(p, q) && #[trigger] g[q] == g[p];
                assert(g[p] != g[q]);
            }
        }
    }
    if forall|p: int| 0 <= p < 81 ==> !#[trigger] collides(g, p) {
        assert forall|p: int, q: int|
            0 <= p < 81 && 0 <= q < 81 && sees(p, q) && g[p] != 0 implies #[trigger] g[p]
            != #[trigger] g[q] by {
            assert(!collides(g, p));
        }
    }
}

/// Reading one more character: it is kept unless it is white space.
pub proof fn lemma_meaningful_push(text: Seq<char>, c: char)
    ensures
        meaningful(text.push(c)) == if is_blank(c) {
            meaningful(text)
        } else {
            meaningful(text).push(c)
        },
{
    reveal(Seq::filter);
    assert(text.push(c).drop_last() =~= text);
}

/// Text without white space is all meaningful.
pub proof fn lemma_meaningful_without_blanks(text: Seq<char>)
    requires
        forall|i: int| 0 <= i < text.len() ==> !is_blank(#[trigger] text[i]),
    ensures
        meaningful(text) == text,
    decreases text.len(),
{
    if text.len() > 0 {
        lemma_meaningful_without_blanks(text.drop_last());
        lemma_meaningful_push(text.drop_last(), text.last());
        assert(text.drop_last().push(text.last()) =~= text);
    } else {
        reveal(Seq::filter);
    }
}

/// Reading the line that a valid board is written as gives the board back.
pub proof fn lemma_serialized_round_trip(g: Seq<u8>)
    requires
        valid_grid(g),
    ensures
        parse_board(serialized(g)) == Ok::<Seq<u8>, ParseError>(g),
{
    let text = serialized(g);
    assert forall|i: int| 0 <= i < text.len() implies !is_blank(#[trigger] text[i])
        && is_cell_glyph(text[i]) && glyph_value(text[i]) == g[i] by {}
    lemma_meaningful_without_blanks(text);
    assert(cells_of(text) =~= g);
    lemma_valid_iff_no_collision(g);
}

/// `String::push`: appends one character to the end of the string.
#[verifier::external_body]
pub(crate) fn push_char(out: &mut String, c: char)
    ensures
        final(out)@ == old(out)@.push(c),
{
    out.push(c);
}

} // verus!
