//! The mathematical model of a Sudoku grid.
//!
//! A grid is a `Seq<u8>` of 81 cells in row-major order. Cell `p` lies in row
//! `p / 9` and column `p % 9`; `0` stands for an empty cell.

use vstd::prelude::*;
use vstd::set_lib::{set_int_range, lemma_int_range, lemma_subset_equality};

verus! {

/// The row of cell `p`.
pub open spec fn row_of(p: int) -> int {
    p / 9
}

/// The column of cell `p`.
pub open spec fn col_of(p: int) -> int {
    p % 9
}

/// The 3x3 box of cell `p`, numbered row-major from 0 to 8.
pub open spec fn box_of(p: int) -> int {
    (row_of(p) / 3) * 3 + col_of(p) / 3
}

/// Two distinct cells see each other when they share a row, a column or a box.
pub open spec fn sees(p: int, q: int) -> bool {
    p != q && (row_of(p) == row_of(q) || col_of(p) == col_of(q) || box_of(p) == box_of(q))
}

/// The index of the cell at (`row`, `col`).
pub open spec fn cell_index(row: int, col: int) -> int {
    row * 9 + col
}

/// Row and column of the cell at (`a`, `b`) are `a` and `b`.
pub proof fn lemma_cell_coordinates(a: int, b: int)
    requires
        0 <= a < 9,
        0 <= b < 9,
    ensures
        0 <= cell_index(a, b) < 81,
        row_of(cell_index(a, b)) == a,
        col_of(cell_index(a, b)) == b,
{
}

/// Two cells given by row and column see each other exactly when they differ
/// and share the row, the column, or both the band of rows and the stack of
/// columns.
pub proof fn lemma_sees_by_coordinates(a: int, b: int, c: int, d: int)
    requires
        0 <= a < 9,
        0 <= b < 9,
        0 <= c < 9,
        0 <= d < 9,
    ensures
        0 <= cell_index(a, b) < 81,
        0 <= cell_index(c, d) < 81,
        sees(cell_index(a, b), cell_index(c, d)) <==> !(a == c && b == d) && (a == c || b == d || (a
            / 3 == c / 3 && b / 3 == d / 3)),
{
    lemma_cell_coordinates(a, b);
    lemma_cell_coordinates(c, d);
    let p = cell_index(a, b);
    let q = cell_index(c, d);
    assert(box_of(p) == (a / 3) * 3 + b / 3);
    assert(box_of(q) == (c / 3) * 3 + d / 3);
    assert(0 <= b / 3 < 3 && 0 <= d / 3 < 3);
    assert(box_of(p) == box_of(q) <==> (a / 3 == c / 3 && b / 3 == d / 3));
    assert(p == q <==> (a == c && b == d));
}

/// Some cell that `p` sees already holds `v`.
pub open spec fn conflicts(g: Seq<u8>, p: int, v: u8) -> bool {
    exists|q: int| 0 <= q < 81 && sees(p, q) && #[trigger] g[q] == v
}

/// The board invariant: 81 cells, each empty or a digit, and no digit twice
/// among cells that see each other.
pub open spec fn valid_grid(g: Seq<u8>) -> bool {
    &&& g.len() == 81
    &&& forall|p: int| 0 <= p < 81 ==> #[trigger] g[p] <= 9
    &&& forall|p: int, q: int|
        0 <= p < 81 && 0 <= q < 81 && sees(p, q) && g[p] != 0 ==> #[trigger] g[p] != #[trigger] g[q]
}

/// No cell is empty.
pub open spec fn complete(g: Seq<u8>) -> bool {
    forall|p: int| 0 <= p < 81 ==> #[trigger] g[p] != 0
}

/// `s` keeps every clue of `g`.
pub open spec fn extends(s: Seq<u8>, g: Seq<u8>) -> bool {
    forall|p: int| 0 <= p < 81 && g[p] != 0 ==> #[trigger] s[p] == g[p]
}

/// `s` is a solved grid that keeps every clue of `g`.
pub open spec fn is_solution(s: Seq<u8>, g: Seq<u8>) -> bool {
    valid_grid(s) && complete(s) && extends(s, g)
}

/// Digit `v` may be written into cell `p`: it is a digit, the cell exists, and
/// no other cell that `p` sees holds `v`.
pub open spec fn placeable(g: Seq<u8>, p: int, v: u8) -> bool {
    1 <= v <= 9 && 0 <= p < 81 && !conflicts(g, p, v)
}

/// The grid with no clue at all.
pub open spec fn empty_grid() -> Seq<u8> {
    Seq::new(81, |p: int| 0u8)
}

/// Writing a placeable digit keeps the board invariant.
pub proof fn lemma_place_keeps_valid(g: Seq<u8>, p: int, v: u8)
    requires
        valid_grid(g),
        placeable(g, p, v),
    ensures
        valid_grid(g.update(p, v)),
{
    let h = g.update(p, v);
    assert forall|a: int, b: int|
        0 <= a < 81 && 0 <= b < 81 && sees(a, b) && h[a] != 0 implies #[trigger] h[a]
        != #[trigger] h[b] by {}
}

/// Emptying a cell keeps the board invariant.
pub proof fn lemma_clear_keeps_valid(g: Seq<u8>, p: int)
    requires
        valid_grid(g),
        0 <= p < 81,
    ensures
        valid_grid(g.update(p, 0)),
{
    let h = g.update(p, 0);
    assert forall|a: int, b: int|
        0 <= a < 81 && 0 <= b < 81 && sees(a, b) && h[a] != 0 implies #[trigger] h[a]
        != #[trigger] h[b] by {}
}

/// On a valid board the digit that a cell already holds is placeable there.
pub proof fn lemma_held_digit_placeable(g: Seq<u8>, p: int)
    requires
        valid_grid(g),
        0 <= p < 81,
        g[p] != 0,
    ensures
        placeable(g, p, g[p]),
        g.update(p, g[p]) == g,
{
    if conflicts(g, p, g[p]) {
        let q = choose|q: int| 0 <= q < 81 && sees(p, q) && #[trigger] g[q] == g[p];
        assert(g[p] != g[q]);
    }
}

/// Cell `k` of unit `u`. The units `0..9` are the rows, `9..18` the columns
/// and `18..27` the boxes; each has nine cells.
pub open spec fn unit_cell(u: int, k: int) -> int {
    if u < 9 {
        cell_index(u, k)
    } else if u < 18 {
        cell_index(k, u - 9)
    } else {
        cell_index(((u - 18) / 3) * 3 + k / 3, ((u - 18) % 3) * 3 + k % 3)
    }
}

/// Digit `d` stands in exactly one cell of unit `u`.
pub open spec fn occurs_once(g: Seq<u8>, u: int, d: u8) -> bool {
    exists|k: int|
        0 <= k < 9 && #[trigger] g[unit_cell(u, k)] == d && forall|j: int|
            0 <= j < 9 && #[trigger] g[unit_cell(u, j)] == d ==> j == k
}

/// Two different cells of one unit are cells of the board that see each other.
pub proof fn lemma_unit_cells_see(u: int, i: int, j: int)
    requires
        0 <= u < 27,
        0 <= i < 9,
        0 <= j < 9,
        i != j,
    ensures
        0 <= unit_cell(u, i) < 81,
        0 <= unit_cell(u, j) < 81,
        sees(unit_cell(u, i), unit_cell(u, j)),
{
    if u < 9 {
        lemma_sees_by_coordinates(u, i, u, j);
    } else if u < 18 {
        lemma_sees_by_coordinates(i, u - 9, j, u - 9);
    } else {
        let band = (u - 18) / 3;
        let stack = (u - 18) % 3;
        let a = band * 3 + i / 3;
        let b = stack * 3 + i % 3;
        let c = band * 3 + j / 3;
        let d = stack * 3 + j % 3;
        assert(0 <= band < 3 && 0 <= stack < 3);
        assert(a / 3 == band && c / 3 == band);
        assert(b / 3 == stack && d / 3 == stack);
        assert(!(a == c && b == d)) by {
            assert(i == (i / 3) * 3 + i % 3);
            assert(j == (j / 3) * 3 + j % 3);
        }
        lemma_sees_by_coordinates(a, b, c, d);
    }
}

/// Nine different digits are all the digits.
proof fn lemma_nine_distinct_digits(vals: Seq<int>)
    requires
        vals.len() == 9,
        forall|k: int| 0 <= k < 9 ==> 1 <= #[trigger] vals[k] <= 9,
        vals.no_duplicates(),
    ensures
        forall|d: int| 1 <= d <= 9 ==> vals.contains(d),
{
    broadcast use vstd::seq_lib::seq_to_set_is_finite;

    let digits = set_int_range(1, 10);
    vals.unique_seq_to_set();
    lemma_int_range(1, 10);
    assert(vals.to_set().subset_of(digits)) by {
        assert forall|d: int| vals.to_set().contains(d) implies digits.contains(d) by {
            let k = choose|k: int| 0 <= k < vals.len() && vals[k] == d;
            assert(1 <= vals[k] <= 9);
        }
    }
    lemma_subset_equality(vals.to_set(), digits);
    assert forall|d: int| 1 <= d <= 9 implies vals.contains(d) by {
        assert(vals.to_set().contains(d));
    }
}

/// On a solved grid every row, every column and every box holds each of the
/// digits 1 to 9 exactly once.
pub proof fn lemma_solved_units(g: Seq<u8>)
    requires
        valid_grid(g),
        complete(g),
    ensures
        forall|u: int, d: u8| 0 <= u < 27 && 1 <= d <= 9 ==> #[trigger] occurs_once(g, u, d),
{
    assert forall|u: int, d: u8| 0 <= u < 27 && 1 <= d <= 9 implies #[trigger] occurs_once(
        g,
        u,
        d,
    ) by {
        let vals = Seq::new(9, |k: int| g[unit_cell(u, k)] as int);
        assert forall|k: int| 0 <= k < 9 implies 1 <= #[trigger] vals[k] <= 9 by {
            lemma_unit_cells_see(u, k, (k + 1) % 9);
        }
        assert forall|i: int, j: int| 0 <= i < 9 && 0 <= j < 9 && i != j implies vals[i]
            != vals[j] by {
            lemma_unit_cells_see(u, i, j);
        }
        lemma_nine_distinct_digits(vals);
        assert(vals.contains(d as int));
        let k = choose|k: int| 0 <= k < vals.len() && vals[k] == d as int;
        assert forall|j: int| 0 <= j < 9 && #[trigger] g[unit_cell(u, j)] == d implies j == k by {
            if j != k {
                assert(vals[j] != vals[k]);
            }
        }
    }
}

/// The digit that the pattern grid holds at (`row`, `col`): the first row
/// counts from 1 to 9, each further row of a band is shifted by three, each
/// further band by one.
pub open spec fn pattern_digit(row: int, col: int) -> int {
    ((row % 3) * 3 + row / 3 + col) % 9 + 1
}

/// A solved grid built by shifting the row `1..=9`.
pub open spec fn pattern_grid() -> Seq<u8> {
    Seq::new(81, |p: int| pattern_digit(p / 9, p % 9) as u8)
}

/// Two cells of the pattern grid that see each other hold different digits.
proof fn lemma_pattern_digits_differ(a: int, b: int, c: int, d: int)
    requires
        0 <= a < 9,
        0 <= b < 9,
        0 <= c < 9,
        0 <= d < 9,
        !(a == c && b == d),
        a == c || b == d || (a / 3 == c / 3 && b / 3 == d / 3),
    ensures
        pattern_digit(a, b) != pattern_digit(c, d),
        1 <= pattern_digit(a, b) <= 9,
{
    let x = (a % 3) * 3 + a / 3;
    let y = (c % 3) * 3 + c / 3;
    assert(0 <= x < 9 && 0 <= y < 9);
    assert(a != c ==> x != y);
    if a / 3 == c / 3 && b / 3 == d / 3 {
        assert(x - y == 3 * (a % 3 - c % 3));
        assert(-2 <= b - d <= 2);
        assert(x + b != y + d);
        assert(-8 <= (x + b) - (y + d) <= 8);
    }
    assert(x + b != y + d);
    assert(-9 < (x + b) - (y + d) < 9);
}

/// The pattern grid is a solved grid, so the empty board has a solution.
pub proof fn lemma_pattern_grid_solved()
    ensures
        is_solution(pattern_grid(), empty_grid()),
{
    let g = pattern_grid();
    assert forall|p: int| 0 <= p < 81 implies 1 <= #[trigger] g[p] <= 9 by {
        lemma_pattern_digits_differ(p / 9, p % 9, p / 9, (p % 9 + 1) % 9);
    }
    assert forall|p: int, q: int|
        0 <= p < 81 && 0 <= q < 81 && sees(p, q) && g[p] != 0 implies #[trigger] g[p]
        != #[trigger] g[q] by {
        assert(p == cell_index(p / 9, p % 9));
        lemma_sees_by_coordinates(p / 9, p % 9, q / 9, q % 9);
        lemma_pattern_digits_differ(p / 9, p % 9, q / 9, q % 9);
        lemma_pattern_digits_differ(q / 9, q % 9, p / 9, p % 9);
    }
}

/// The pattern grid with the digits 1 and 2 exchanged.
pub open spec fn second_pattern_grid() -> Seq<u8> {
    Seq::new(
        81,
        |p: int|
            if pattern_grid()[p] == 1 {
                2u8
            } else if pattern_grid()[p] == 2 {
                1u8
            } else {
                pattern_grid()[p]
            },
    )
}

/// The empty board has two solved grids that differ.
pub proof fn lemma_two_pattern_grids()
    ensures
        is_solution(pattern_grid(), empty_grid()),
        is_solution(second_pattern_grid(), empty_grid()),
        pattern_grid() != second_pattern_grid(),
{
    lemma_pattern_grid_solved();
    let g = pattern_grid();
    let h = second_pattern_grid();
    assert forall|p: int, q: int|
        0 <= p < 81 && 0 <= q < 81 && sees(p, q) && h[p] != 0 implies #[trigger] h[p]
        != #[trigger] h[q] by {}
    assert forall|p: int| 0 <= p < 81 implies #[trigger] h[p] != 0 && h[p] <= 9 by {}
    assert(g[0] == 1 && h[0] == 2);
}

/// The number of clues among the first `n` cells.
pub open spec fn clues_before(g: Seq<u8>, n: int) -> int
    decreases n,
{
    if n <= 0 {
        0
    } else {
        clues_before(g, n - 1) + if g[n - 1] != 0 {
            1int
        } else {
            0int
        }
    }
}

/// The number of clues on the board.
pub open spec fn clue_count(g: Seq<u8>) -> int {
    clues_before(g, 81)
}

/// Among `n` cells there are between none and `n` clues.
pub proof fn lemma_clues_bounded(g: Seq<u8>, n: int)
    requires
        0 <= n,
    ensures
        0 <= clues_before(g, n) <= n,
    decreases n,
{
    if n > 0 {
        lemma_clues_bounded(g, n - 1);
    }
}

/// A board without an empty cell has 81 clues.
pub proof fn lemma_clues_of_complete(g: Seq<u8>, n: int)
    requires
        complete(g),
        0 <= n <= 81,
    ensures
        clues_before(g, n) == n,
    decreases n,
{
    if n > 0 {
        lemma_clues_of_complete(g, n - 1);
    }
}

/// Where each of the first `n` cells counts as a clue, none of them is empty.
pub proof fn lemma_all_clues(g: Seq<u8>, n: int)
    requires
        0 <= n,
        clues_before(g, n) == n,
    ensures
        forall|p: int| 0 <= p < n ==> #[trigger] g[p] != 0,
    decreases n,
{
    if n > 0 {
        lemma_clues_bounded(g, n - 1);
        lemma_all_clues(g, n - 1);
    }
}

/// Emptying a cell that holds a clue leaves one clue less.
pub proof fn lemma_clues_after_clear(g: Seq<u8>, p: int, n: int)
    requires
        0 <= p < g.len(),
        0 <= n <= g.len(),
        g[p] != 0,
    ensures
        clues_before(g.update(p, 0), n) == clues_before(g, n) - if p < n {
            1int
        } else {
            0int
        },
    decreases n,
{
    if n > 0 {
        lemma_clues_after_clear(g, p, n - 1);
    }
}

/// On a valid board a clue that was taken out may be written back, and the
/// board is then as before.
pub proof fn lemma_clear_then_restore(g: Seq<u8>, p: int)
    requires
        valid_grid(g),
        0 <= p < 81,
        g[p] != 0,
    ensures
        placeable(g.update(p, 0), p, g[p]),
        g.update(p, 0).update(p, g[p]) == g,
{
    let h = g.update(p, 0);
    if conflicts(h, p, g[p]) {
        let q = choose|q: int| 0 <= q < 81 && sees(p, q) && #[trigger] h[q] == g[p];
        assert(g[p] != g[q]);
    }
}

} // verus!
