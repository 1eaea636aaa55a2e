//! What the backtracking search computes, stated over grids.
//!
//! The search visits the cells in row-major order and tries the digits of an
//! empty cell in ascending order. `solutions_from` lists every solved grid it
//! reaches, in the order in which it reaches them; the lemmas below show that
//! this is every solution of the board, in lexicographic order.

use vstd::prelude::*;
use crate::grid::{
    valid_grid, complete, is_solution, placeable, conflicts, sees, empty_grid,
    pattern_grid, second_pattern_grid, occurs_once, unit_cell,
};
use crate::grid::{
    lemma_place_keeps_valid, lemma_two_pattern_grids, lemma_clear_keeps_valid,
    lemma_clear_then_restore, lemma_solved_units, lemma_sees_by_coordinates,
};

verus! {

/// The solved grids that the search reaches from `g` when the cells before
/// `pos` are settled, in the order of discovery.
pub open spec fn solutions_from(g: Seq<u8>, pos: nat) -> Seq<Seq<u8>>
    decreases 81 - pos, 10int,
{
    if pos >= 81 {
        if complete(g) {
            seq![g]
        } else {
            Seq::empty()
        }
    } else if g[pos as int] != 0 {
        solutions_from(g, pos + 1)
    } else {
        solutions_with_digits(g, pos, 1)
    }
}

/// The solved grids reached by writing one of the digits `d..=9` into the
/// empty cell `pos`, smaller digits first.
pub open spec fn solutions_with_digits(g: Seq<u8>, pos: nat, d: int) -> Seq<Seq<u8>>
    decreases 81 - pos, 10 - d,
{
    if pos >= 81 || d < 1 || d > 9 {
        Seq::empty()
    } else if placeable(g, pos as int, d as u8) {
        solutions_from(g.update(pos as int, d as u8), pos + 1) + solutions_with_digits(
            g,
            pos,
            d + 1,
        )
    } else {
        solutions_with_digits(g, pos, d + 1)
    }
}

/// Every solution of `g`, in lexicographic order of the 81 cells.
pub open spec fn all_solutions(g: Seq<u8>) -> Seq<Seq<u8>> {
    solutions_from(g, 0)
}

/// Grid `a` and grid `b` agree on the cells before `k`, and `a` holds the
/// smaller digit at cell `k`.
pub open spec fn first_differ_at(a: Seq<u8>, b: Seq<u8>, k: int) -> bool {
    &&& 0 <= k < 81
    &&& a[k] < b[k]
    &&& forall|p: int| 0 <= p < k ==> #[trigger] a[p] == b[p]
}

/// `a` comes before `b` in lexicographic order of the cells.
pub open spec fn lex_less(a: Seq<u8>, b: Seq<u8>) -> bool {
    exists|k: int| first_differ_at(a, b, k)
}

/// Every cell before `pos` holds a digit.
pub open spec fn filled_before(g: Seq<u8>, pos: nat) -> bool {
    forall|p: int| 0 <= p < pos && p < 81 ==> #[trigger] g[p] != 0
}

/// `s` and `g` hold the same on every cell before `pos`.
pub open spec fn agree_before(s: Seq<u8>, g: Seq<u8>, pos: nat) -> bool {
    forall|p: int| 0 <= p < pos && p < 81 ==> #[trigger] s[p] == g[p]
}

/// Everything that the search reaches from `pos` is a solution of `g` that
/// leaves the cells before `pos` as they are.
pub proof fn lemma_solutions_sound(g: Seq<u8>, pos: nat)
    requires
        valid_grid(g),
    ensures
        forall|i: int|
            0 <= i < solutions_from(g, pos).len() ==> is_solution(
                #[trigger] solutions_from(g, pos)[i],
                g,
            ) && agree_before(solutions_from(g, pos)[i], g, pos),
    decreases 81 - pos, 10int,
{
    if pos < 81 {
        if g[pos as int] != 0 {
            lemma_solutions_sound(g, pos + 1);
            assert(solutions_from(g, pos) == solutions_from(g, pos + 1));
        } else {
            lemma_digit_solutions_sound(g, pos, 1);
            assert(solutions_from(g, pos) == solutions_with_digits(g, pos, 1));
        }
    }
}

/// Everything reached through a digit `d..=9` at the empty cell `pos` is a
/// solution of `g` that holds one of these digits there.
pub proof fn lemma_digit_solutions_sound(g: Seq<u8>, pos: nat, d: int)
    requires
        valid_grid(g),
        pos < 81,
        g[pos as int] == 0,
        1 <= d <= 10,
    ensures
        forall|i: int|
            0 <= i < solutions_with_digits(g, pos, d).len() ==> {
                let s = #[trigger] solutions_with_digits(g, pos, d)[i];
                is_solution(s, g) && agree_before(s, g, pos) && d <= s[pos as int]
            },
    decreases 81 - pos, 10 - d,
{
    if d <= 9 {
        lemma_digit_solutions_sound(g, pos, d + 1);
        let rest = solutions_with_digits(g, pos, d + 1);
        if placeable(g, pos as int, d as u8) {
            let h = g.update(pos as int, d as u8);
            let here = solutions_from(h, pos + 1);
            lemma_place_keeps_valid(g, pos as int, d as u8);
            lemma_solutions_sound(h, pos + 1);
            assert forall|i: int| 0 <= i < (here + rest).len() implies {
                let s = #[trigger] (here + rest)[i];
                is_solution(s, g) && agree_before(s, g, pos) && d <= s[pos as int]
            } by {
                let s = (here + rest)[i];
                if i < here.len() {
                    assert forall|p: int| 0 <= p < 81 && g[p] != 0 implies #[trigger] s[p]
                        == g[p] by {}
                    assert forall|p: int| 0 <= p < pos && p < 81 implies #[trigger] s[p]
                        == g[p] by {}
                }
            }
        }
    }
}

/// Every solution of `g` is reached from `pos`, provided the cells before
/// `pos` are filled.
pub proof fn lemma_solutions_complete(g: Seq<u8>, pos: nat, s: Seq<u8>)
    requires
        valid_grid(g),
        filled_before(g, pos),
        is_solution(s, g),
    ensures
        solutions_from(g, pos).contains(s),
    decreases 81 - pos,
{
    if pos >= 81 {
        assert(complete(g)) by {
            assert forall|p: int| 0 <= p < 81 implies #[trigger] g[p] != 0 by {}
        }
        assert(solutions_from(g, pos)[0] == s);
    } else if g[pos as int] != 0 {
        lemma_solutions_complete(g, pos + 1, s);
    } else {
        let d = s[pos as int];
        if conflicts(g, pos as int, d) {
            let q = choose|q: int| 0 <= q < 81 && sees(pos as int, q) && #[trigger] g[q] == d;
            assert(s[pos as int] != s[q]);
        }
        let h = g.update(pos as int, d);
        lemma_place_keeps_valid(g, pos as int, d);
        assert forall|p: int| 0 <= p < 81 && h[p] != 0 implies #[trigger] s[p] == h[p] by {}
        assert forall|p: int| 0 <= p < pos + 1 && p < 81 implies #[trigger] h[p] != 0 by {}
        lemma_solutions_complete(h, pos + 1, s);
        lemma_digit_branch_included(g, pos, 1, d as int, s);
    }
}

/// What the search reaches through digit `d` is among what it reaches through
/// the digits `from..=9`, for `from <= d`.
proof fn lemma_digit_branch_included(g: Seq<u8>, pos: nat, from: int, d: int, s: Seq<u8>)
    requires
        pos < 81,
        1 <= from <= d <= 9,
        placeable(g, pos as int, d as u8),
        solutions_from(g.update(pos as int, d as u8), pos + 1).contains(s),
    ensures
        solutions_with_digits(g, pos, from).contains(s),
    decreases d - from,
{
    let rest = solutions_with_digits(g, pos, from + 1);
    if from == d {
        let here = solutions_from(g.update(pos as int, d as u8), pos + 1);
        let i = choose|i: int| 0 <= i < here.len() && here[i] == s;
        assert((here + rest)[i] == s);
    } else {
        lemma_digit_branch_included(g, pos, from + 1, d, s);
        let j = choose|j: int| 0 <= j < rest.len() && rest[j] == s;
        if placeable(g, pos as int, from as u8) {
            let here = solutions_from(g.update(pos as int, from as u8), pos + 1);
            assert((here + rest)[here.len() + j] == s);
        }
    }
}

/// The search reaches its solutions in strictly ascending lexicographic order.
pub proof fn lemma_solutions_ordered(g: Seq<u8>, pos: nat)
    requires
        valid_grid(g),
    ensures
        forall|i: int, j: int|
            0 <= i < j < solutions_from(g, pos).len() ==> lex_less(
                #[trigger] solutions_from(g, pos)[i],
                #[trigger] solutions_from(g, pos)[j],
            ),
    decreases 81 - pos, 10int,
{
    if pos < 81 {
        if g[pos as int] != 0 {
            lemma_solutions_ordered(g, pos + 1);
            assert(solutions_from(g, pos) == solutions_from(g, pos + 1));
        } else {
            lemma_digit_solutions_ordered(g, pos, 1);
            assert(solutions_from(g, pos) == solutions_with_digits(g, pos, 1));
        }
    }
}

/// The same for the digits `d..=9` at the empty cell `pos`.
pub proof fn lemma_digit_solutions_ordered(g: Seq<u8>, pos: nat, d: int)
    requires
        valid_grid(g),
        pos < 81,
        g[pos as int] == 0,
        1 <= d <= 10,
    ensures
        forall|i: int, j: int|
            0 <= i < j < solutions_with_digits(g, pos, d).len() ==> lex_less(
                #[trigger] solutions_with_digits(g, pos, d)[i],
                #[trigger] solutions_with_digits(g, pos, d)[j],
            ),
    decreases 81 - pos, 10 - d,
{
    if d <= 9 {
        lemma_digit_solutions_ordered(g, pos, d + 1);
        lemma_digit_solutions_sound(g, pos, d + 1);
        let rest = solutions_with_digits(g, pos, d + 1);
        if placeable(g, pos as int, d as u8) {
            let h = g.update(pos as int, d as u8);
            let here = solutions_from(h, pos + 1);
            lemma_place_keeps_valid(g, pos as int, d as u8);
            lemma_solutions_sound(h, pos + 1);
            lemma_solutions_ordered(h, pos + 1);
            let all = here + rest;
            assert forall|i: int, j: int| 0 <= i < j < all.len() implies lex_less(
                #[trigger] all[i],
                #[trigger] all[j],
            ) by {
                if i < here.len() && here.len() <= j {
                    let a = here[i];
                    let b = rest[j - here.len()];
                    assert forall|p: int| 0 <= p < pos implies #[trigger] a[p] == b[p] by {}
                    assert(first_differ_at(a, b, pos as int));
                }
            }
        }
    }
}

/// The solutions of a board are exactly what `all_solutions` lists, and it
/// lists them in strictly ascending lexicographic order, so none twice.
pub proof fn lemma_all_solutions(g: Seq<u8>)
    requires
        valid_grid(g),
    ensures
        forall|s: Seq<u8>| all_solutions(g).contains(s) <==> is_solution(s, g),
        forall|i: int, j: int|
            0 <= i < j < all_solutions(g).len() ==> lex_less(
                #[trigger] all_solutions(g)[i],
                #[trigger] all_solutions(g)[j],
            ),
{
    lemma_solutions_sound(g, 0);
    lemma_solutions_ordered(g, 0);
    assert forall|s: Seq<u8>| is_solution(s, g) implies all_solutions(g).contains(s) by {
        lemma_solutions_complete(g, 0, s);
    }
}

/// What a search for the first solution leaves behind: it counts one and
/// stops on the first solution, which is the least one; without a solution it
/// counts none and leaves the grid as it was.
pub open spec fn first_solution_search(g: Seq<u8>, pos: nat) -> (nat, Seq<u8>) {
    let found = solutions_from(g, pos);
    if found.len() > 0 {
        (1, found[0])
    } else {
        (0, g)
    }
}

/// What a search for a second solution leaves behind: the number of solutions
/// counted until, at some cell, the count within that cell's digits exceeded
/// one, and the grid as it stood at that moment. A search that counts at most
/// one solution runs to its end and leaves the grid as it was.
pub open spec fn uniqueness_search(g: Seq<u8>, pos: nat) -> (nat, Seq<u8>)
    decreases 81 - pos, 10int,
{
    if pos >= 81 {
        (
            if complete(g) {
                1nat
            } else {
                0nat
            },
            g,
        )
    } else if g[pos as int] != 0 {
        uniqueness_search(g, pos + 1)
    } else {
        uniqueness_digits(g, pos, 1, 0)
    }
}

/// The same for the digits `d..=9` at the empty cell `pos`, after `found`
/// solutions were counted through smaller digits.
pub open spec fn uniqueness_digits(g: Seq<u8>, pos: nat, d: int, found: nat) -> (nat, Seq<u8>)
    decreases 81 - pos, 10 - d,
{
    if pos >= 81 || d < 1 || d > 9 {
        (found, g)
    } else if placeable(g, pos as int, d as u8) {
        let below = uniqueness_search(g.update(pos as int, d as u8), pos + 1);
        if found + below.0 > 1 {
            (found + below.0, below.1)
        } else {
            uniqueness_digits(g, pos, d + 1, found + below.0)
        }
    } else {
        uniqueness_digits(g, pos, d + 1, found)
    }
}

/// The count and the grid that a search from `pos` leaves, in either mode.
pub open spec fn search_outcome(g: Seq<u8>, pos: nat, check_for_uniqueness: bool) -> (
    nat,
    Seq<u8>,
) {
    if check_for_uniqueness {
        uniqueness_search(g, pos)
    } else {
        first_solution_search(g, pos)
    }
}

/// The largest count that a search for a second solution can return from `pos`.
pub open spec fn count_bound(pos: nat) -> nat {
    if pos < 81 {
        (82 - pos) as nat
    } else {
        1
    }
}

/// A search for a second solution counts none exactly when there is no
/// solution and one exactly when there is one; it never counts more than there
/// are, and where it counts at most one it leaves the grid as it was.
pub proof fn lemma_uniqueness_search(g: Seq<u8>, pos: nat)
    ensures
        uniqueness_search(g, pos).0 == 0 <==> solutions_from(g, pos).len() == 0,
        uniqueness_search(g, pos).0 == 1 <==> solutions_from(g, pos).len() == 1,
        uniqueness_search(g, pos).0 <= solutions_from(g, pos).len(),
        uniqueness_search(g, pos).0 <= count_bound(pos),
        uniqueness_search(g, pos).0 <= 1 ==> uniqueness_search(g, pos).1 == g,
    decreases 81 - pos, 10int,
{
    if pos < 81 {
        if g[pos as int] != 0 {
            lemma_uniqueness_search(g, pos + 1);
        } else {
            lemma_uniqueness_digits(g, pos, 1, 0);
        }
    }
}

/// The same for the digits `d..=9` at the empty cell `pos`.
pub proof fn lemma_uniqueness_digits(g: Seq<u8>, pos: nat, d: int, found: nat)
    requires
        pos < 81,
        1 <= d <= 10,
        found <= 1,
    ensures
        uniqueness_digits(g, pos, d, found).0 == 0 <==> found + solutions_with_digits(
            g,
            pos,
            d,
        ).len() == 0,
        uniqueness_digits(g, pos, d, found).0 == 1 <==> found + solutions_with_digits(
            g,
            pos,
            d,
        ).len() == 1,
        uniqueness_digits(g, pos, d, found).0 <= found + solutions_with_digits(g, pos, d).len(),
        uniqueness_digits(g, pos, d, found).0 <= count_bound(pos),
        uniqueness_digits(g, pos, d, found).0 <= 1 ==> uniqueness_digits(g, pos, d, found).1 == g,
    decreases 81 - pos, 10 - d,
{
    if d <= 9 {
        if placeable(g, pos as int, d as u8) {
            let h = g.update(pos as int, d as u8);
            lemma_uniqueness_search(h, pos + 1);
            let below = uniqueness_search(h, pos + 1);
            if found + below.0 <= 1 {
                lemma_uniqueness_digits(g, pos, d + 1, found + below.0);
            }
        } else {
            lemma_uniqueness_digits(g, pos, d + 1, found);
        }
    }
}

/// A board whose every solution is `only` has exactly that one solution.
pub proof fn lemma_only_solution(g: Seq<u8>, only: Seq<u8>)
    requires
        valid_grid(g),
        is_solution(only, g),
        forall|s: Seq<u8>| is_solution(s, g) ==> s == only,
    ensures
        all_solutions(g) == seq![only],
{
    let found = all_solutions(g);
    lemma_all_solutions(g);
    assert forall|i: int| 0 <= i < found.len() implies #[trigger] found[i] == only by {
        assert(is_solution(found[i], g));
    }
    if found.len() >= 2 {
        let k = choose|k: int| first_differ_at(found[0], found[1], k);
        assert(found[0][k] < found[1][k]);
    }
}

/// A solved board is its own and only solution.
pub proof fn lemma_solved_board(g: Seq<u8>)
    requires
        valid_grid(g),
        complete(g),
    ensures
        all_solutions(g) == seq![g],
{
    assert forall|s: Seq<u8>| is_solution(s, g) implies s == g by {}
    lemma_only_solution(g, g);
}

/// A board with one empty cell, where exactly one digit may be written, has
/// exactly one solution: the board with that digit written.
pub proof fn lemma_single_gap(g: Seq<u8>, p: int, d: u8)
    requires
        valid_grid(g),
        0 <= p < 81,
        g[p] == 0,
        forall|q: int| 0 <= q < 81 && q != p ==> #[trigger] g[q] != 0,
        placeable(g, p, d),
        forall|e: u8| placeable(g, p, e) ==> e == d,
    ensures
        all_solutions(g) == seq![g.update(p, d)],
{
    let only = g.update(p, d);
    lemma_place_keeps_valid(g, p, d);
    assert(is_solution(only, g)) by {
        assert forall|q: int| 0 <= q < 81 implies #[trigger] only[q] != 0 by {}
    }
    assert forall|s: Seq<u8>| is_solution(s, g) implies s == only by {
        assert forall|q: int| 0 <= q < 81 && q != p implies s[q] == g[q] by {}
        let e = s[p];
        if conflicts(g, p, e) {
            let q = choose|q: int| 0 <= q < 81 && sees(p, q) && #[trigger] g[q] == e;
            assert(s[q] == g[q]);
            assert(s[p] != s[q]);
        }
        assert(placeable(g, p, e));
    }
    lemma_only_solution(g, only);
}

/// The number of digits that a search for the first solution tries from
/// `pos` on, fitting or not, until it stops.
pub open spec fn first_search_steps(g: Seq<u8>, pos: nat) -> nat
    decreases 81 - pos, 10int,
{
    if pos >= 81 {
        0
    } else if g[pos as int] != 0 {
        first_search_steps(g, pos + 1)
    } else {
        first_search_digit_steps(g, pos, 1)
    }
}

/// The same for the digits `d..=9` at the empty cell `pos`.
pub open spec fn first_search_digit_steps(g: Seq<u8>, pos: nat, d: int) -> nat
    decreases 81 - pos, 10 - d,
{
    if pos >= 81 || d < 1 || d > 9 {
        0
    } else if placeable(g, pos as int, d as u8) {
        let h = g.update(pos as int, d as u8);
        if solutions_from(h, pos + 1).len() > 0 {
            1 + first_search_steps(h, pos + 1)
        } else {
            1 + first_search_steps(h, pos + 1) + first_search_digit_steps(g, pos, d + 1)
        }
    } else {
        1 + first_search_digit_steps(g, pos, d + 1)
    }
}

/// A board without clues has more than one solution.
pub proof fn lemma_empty_board_ambiguous()
    ensures
        all_solutions(empty_grid()).len() > 1,
{
    let found = all_solutions(empty_grid());
    lemma_two_pattern_grids();
    lemma_all_solutions(empty_grid());
    let i = choose|i: int| 0 <= i < found.len() && found[i] == pattern_grid();
    let j = choose|j: int| 0 <= j < found.len() && found[j] == second_pattern_grid();
    assert(i != j);
}

/// A solved grid can spare any one of its clues: without it the board still
/// has the grid as its only solution.
pub proof fn lemma_solved_grid_spares_a_clue(g: Seq<u8>, p: int)
    requires
        valid_grid(g),
        complete(g),
        0 <= p < 81,
    ensures
        all_solutions(g.update(p, 0)) == seq![g],
{
    let h = g.update(p, 0);
    lemma_clear_keeps_valid(g, p);
    lemma_clear_then_restore(g, p);
    lemma_solved_units(g);
    assert forall|e: u8| placeable(h, p, e) implies e == g[p] by {
        let row = p / 9;
        assert(occurs_once(g, row, e));
        let k = choose|k: int| 0 <= k < 9 && #[trigger] g[unit_cell(row, k)] == e;
        let q = unit_cell(row, k);
        if q != p {
            lemma_sees_by_coordinates(row, p % 9, row, k);
            assert(h[q] == e);
        }
    }
    assert forall|q: int| 0 <= q < 81 && q != p implies #[trigger] h[q] != 0 by {
        assert(g[q] != 0);
    }
    lemma_single_gap(h, p, g[p]);
}

} // verus!
