//! What holds of the press rules on every grid.

use crate::morajai::grid::{in_grid, lemma_grid_ext, PuzzleGrid};
use crate::morajai::rules::{
    activate,
    around,
    effective,
    in_cross,
    is_mode,
    lemma_ring_cells,
    ring,
    shift_row,
    toggled,
};
use crate::morajai::square::Square;
use vstd::prelude::*;

verus! {

/// The nine squares of a grid, row by row.
pub open spec fn cells(g: PuzzleGrid) -> Seq<Square> {
    g[0]@ + g[1]@ + g[2]@
}

/// A press on a square whose rule is that of a neutral square changes
/// nothing: a neutral square, or a blue one while the centre is neutral.
pub proof fn lemma_neutral_changes_nothing(g: PuzzleGrid, r: int, c: int)
    requires
        in_grid(r, c),
        effective(g, r, c) == Square::Neutral,
    ensures
        activate(g, r, c) == g,
{
}

/// A press on a yellow or a violet square trades it with the square above
/// or below, or changes nothing in the last row that way: the grid holds
/// the same squares as before, each as often.
///
/// A blue square that follows a yellow or violet centre is left out where
/// it moves: it leaves a yellow or violet square behind in place of itself.
pub proof fn lemma_vertical_move_keeps_squares(g: PuzzleGrid, r: int, c: int)
    requires
        in_grid(r, c),
        effective(g, r, c) == Square::Yellow || effective(g, r, c) == Square::Violet,
        g[r][c] == Square::Blue ==> (effective(g, r, c) == Square::Yellow && r == 0) || (effective(
            g,
            r,
            c,
        ) == Square::Violet && r == 2),
    ensures
        cells(activate(g, r, c)).to_multiset() == cells(g).to_multiset(),
        effective(g, r, c) == Square::Yellow && r > 0 ==> activate(g, r, c)[r - 1][c] == g[r][c]
            && activate(g, r, c)[r][c] == g[r - 1][c],
        effective(g, r, c) == Square::Violet && r < 2 ==> activate(g, r, c)[r + 1][c] == g[r][c]
            && activate(g, r, c)[r][c] == g[r + 1][c],
        effective(g, r, c) == Square::Yellow && r == 0 ==> activate(g, r, c) == g,
        effective(g, r, c) == Square::Violet && r == 2 ==> activate(g, r, c) == g,
{
    let after = activate(g, r, c);
    let other = if effective(g, r, c) == Square::Yellow {
        r - 1
    } else {
        r + 1
    };
    if in_grid(other, c) {
        let here = 3 * r + c;
        let there = 3 * other + c;
        let before = cells(g);
        let mid = before.update(there, g[r][c]);
        assert(before[here] == g[r][c]);
        assert(before[there] == g[other][c]);
        assert(cells(after) =~= mid.update(here, g[other][c]));
        vstd::seq_lib::to_multiset_update(before, there, g[r][c]);
        vstd::seq_lib::to_multiset_update(mid, here, g[other][c]);
        before.to_multiset_ensures();
        assert(before.contains(before[there]));
        assert(before.contains(before[here]));
        assert(cells(after).to_multiset() =~= before.to_multiset());
    }
}

/// Three presses of black squares in one row bring the row, and with it the
/// grid, back to where it was.
pub proof fn lemma_three_row_shifts_restore(g: PuzzleGrid, r: int, c1: int, c2: int, c3: int)
    requires
        in_grid(r, c1),
        in_grid(r, c2),
        in_grid(r, c3),
        effective(g, r, c1) == Square::Black,
        effective(activate(g, r, c1), r, c2) == Square::Black,
        effective(activate(activate(g, r, c1), r, c2), r, c3) == Square::Black,
    ensures
        activate(activate(activate(g, r, c1), r, c2), r, c3) == g,
{
    let once = shift_row(g, r);
    let twice = shift_row(once, r);
    let thrice = shift_row(twice, r);
    lemma_grid_ext(thrice, g);
}

/// A press on a red square repaints every square from what it was before
/// the press: white turns black and black turns red in one step, and what
/// has just turned black stays black.
pub proof fn lemma_red_repaints_at_once(g: PuzzleGrid, r: int, c: int, i: int, j: int)
    requires
        in_grid(r, c),
        in_grid(i, j),
        effective(g, r, c) == Square::Red,
    ensures
        g[i][j] == Square::White ==> activate(g, r, c)[i][j] == Square::Black,
        g[i][j] == Square::Black ==> activate(g, r, c)[i][j] == Square::Red,
        g[i][j] != Square::White && g[i][j] != Square::Black ==> activate(g, r, c)[i][j]
            == g[i][j],
{
}

/// The ring that a pink square turns has eight cells around the centre,
/// three around a corner and five around any other cell. A cell outside the
/// ring keeps its square.
pub proof fn lemma_ring_size(r: int, c: int)
    requires
        in_grid(r, c),
    ensures
        r == 1 && c == 1 ==> ring(r, c).len() == 8,
        r != 1 && c != 1 ==> ring(r, c).len() == 3,
        (r == 1) != (c == 1) ==> ring(r, c).len() == 5,
        forall|g: PuzzleGrid, i: int, j: int|
            in_grid(i, j) && effective(g, r, c) == Square::Pink && !ring(r, c).contains((i, j))
                ==> #[trigger] activate(g, r, c)[i][j] == g[i][j],
{
    lemma_ring_cells(r, c);
}

/// A press on an orange square changes at most that square, never makes it
/// neutral, and where one colour is the most common around it, makes it
/// that colour.
pub proof fn lemma_orange_takes_the_mode(g: PuzzleGrid, r: int, c: int)
    requires
        in_grid(r, c),
        effective(g, r, c) == Square::Orange,
    ensures
        forall|i: int, j: int|
            in_grid(i, j) && !(i == r && j == c) ==> #[trigger] activate(g, r, c)[i][j] == g[i][j],
        activate(g, r, c)[r][c] != Square::Neutral,
        forall|v: Square| is_mode(around(g, r, c), v) ==> activate(g, r, c)[r][c] == v,
{
    let vals = around(g, r, c);
    assert forall|v: Square| is_mode(vals, v) implies activate(g, r, c)[r][c] == v by {
        let chosen = choose|w: Square| is_mode(vals, w);
        assert(is_mode(vals, chosen));
    }
}

/// A press on an orange square changes nothing where two colours tie for
/// the most common around it, or where only neutral squares are around it.
pub proof fn lemma_orange_tie_changes_nothing(g: PuzzleGrid, r: int, c: int, a: Square, b: Square)
    requires
        in_grid(r, c),
        effective(g, r, c) == Square::Orange,
        ({
            let count = around(g, r, c).to_multiset();
            ||| (forall|v: Square| v != Square::Neutral ==> count.count(v) == 0)
            ||| (a != b && a != Square::Neutral && b != Square::Neutral && count.count(a)
                == count.count(b) && forall|v: Square|
                v != Square::Neutral ==> count.count(v) <= count.count(a))
        }),
    ensures
        activate(g, r, c) == g,
{
    let vals = around(g, r, c);
    assert forall|v: Square| !is_mode(vals, v) by {
        if is_mode(vals, v) {
            if v == a {
                assert(vals.to_multiset().count(b) < vals.to_multiset().count(v));
            } else {
                assert(vals.to_multiset().count(a) < vals.to_multiset().count(v));
            }
        }
    }
}

/// A press on a white square toggles that square and those that touch it
/// along its row and column, each from what it was before the press, and
/// leaves the rest alone.
pub proof fn lemma_white_toggles_at_once(g: PuzzleGrid, r: int, c: int, i: int, j: int)
    requires
        in_grid(r, c),
        in_grid(i, j),
        effective(g, r, c) == Square::White,
    ensures
        in_cross(r, c, i, j) ==> activate(g, r, c)[i][j] == toggled(g[i][j]),
        !in_cross(r, c, i, j) ==> activate(g, r, c)[i][j] == g[i][j],
{
}

} // verus!
