//! Which presses are worth trying.

use crate::morajai::grid::{in_grid, lemma_grid_ext, PuzzleBox, PuzzleGrid};
use crate::morajai::rules::{activate, reflect};
use crate::morajai::square::Square;
use vstd::prelude::*;

verus! {

/// Whether a press at `(r, c)` is left out as one that cannot change the
/// grid: a neutral square; a blue square while the centre is neutral or
/// blue; a yellow square in the top row; a violet square in the bottom row;
/// a green square in the centre.
pub open spec fn idle(g: PuzzleGrid, r: int, c: int) -> bool {
    ||| g[r][c] == Square::Neutral
    ||| (g[r][c] == Square::Blue && (g[1][1] == Square::Neutral || g[1][1] == Square::Blue))
    ||| (r == 0 && g[r][c] == Square::Yellow)
    ||| (r == 2 && g[r][c] == Square::Violet)
    ||| (r == 1 && c == 1 && g[r][c] == Square::Green)
}

/// The nine cells, row by row.
pub open spec fn all_cells() -> Seq<(usize, usize)> {
    Seq::new(9, |k: int| ((k / 3) as usize, (k % 3) as usize))
}

/// The presses worth trying on a grid: the cells, row by row, without those
/// that are idle.
pub open spec fn moves(g: PuzzleGrid) -> Seq<(usize, usize)> {
    all_cells().filter(|a: (usize, usize)| !idle(g, a.0 as int, a.1 as int))
}

/// A press that was left out changes nothing.
pub proof fn lemma_idle_changes_nothing(g: PuzzleGrid, r: int, c: int)
    requires
        in_grid(r, c),
        idle(g, r, c),
    ensures
        activate(g, r, c) == g,
{
    if g[r][c] == Square::Green {
        lemma_grid_ext(reflect(g, r, c), g);
    }
}

/// The presses worth trying are the cells that are not idle.
pub proof fn lemma_moves_are_the_busy_cells(g: PuzzleGrid, r: usize, c: usize)
    ensures
        moves(g).contains((r, c)) <==> (r < 3 && c < 3 && !idle(g, r as int, c as int)),
{
    let keep = |a: (usize, usize)| !idle(g, a.0 as int, a.1 as int);
    let a = (r, c);
    if moves(g).contains(a) {
        all_cells().lemma_filter_contains_rev(keep, a);
        let j = choose|j: int| 0 <= j < all_cells().len() && all_cells()[j] == a;
        let k = choose|k: int| 0 <= k < moves(g).len() && moves(g)[k] == a;
        all_cells().lemma_filter_pred(keep, k);
    }
    if r < 3 && c < 3 && !idle(g, r as int, c as int) {
        let j = 3 * r + c;
        assert(all_cells()[j as int] == a);
        all_cells().lemma_filter_contains(keep, j as int);
    }
}

/// Every press worth trying names a cell of the grid.
pub proof fn lemma_moves_in_grid(g: PuzzleGrid)
    ensures
        forall|k: int|
            0 <= k < moves(g).len() ==> (#[trigger] moves(g)[k]).0 < 3 && moves(g)[k].1 < 3,
{
    let keep = |a: (usize, usize)| !idle(g, a.0 as int, a.1 as int);
    assert forall|k: int| 0 <= k < moves(g).len() implies (#[trigger] moves(g)[k]).0 < 3 && moves(
        g,
    )[k].1 < 3 by {
        let a = moves(g)[k];
        assert(all_cells().filter(keep).contains(a));
        all_cells().lemma_filter_contains_rev(keep, a);
        let j = choose|j: int| 0 <= j < all_cells().len() && all_cells()[j] == a;
    }
}

/// Lists the presses worth trying, row by row.
pub fn possible_actions(p: &PuzzleBox) -> (out: Vec<(usize, usize)>)
    ensures
        out@ == moves(p.grid),
        forall|k: int| 0 <= k < out.len() ==> (#[trigger] out[k]).0 < 3 && out[k].1 < 3,
{
    let ghost keep = |a: (usize, usize)| !idle(p.grid, a.0 as int, a.1 as int);
    let mut out: Vec<(usize, usize)> = Vec::new();
    let mut r: usize = 0;
    proof {
        reveal(Seq::filter);
        assert(all_cells().take(0) =~= Seq::<(usize, usize)>::empty());
    }
    while r < 3
        invariant
            r <= 3,
            keep == |a: (usize, usize)| !idle(p.grid, a.0 as int, a.1 as int),
            out@ == all_cells().take(3 * r).filter(keep),
        decreases 3 - r,
    {
        let mut c: usize = 0;
        while c < 3
            invariant
                r < 3,
                c <= 3,
                keep == |a: (usize, usize)| !idle(p.grid, a.0 as int, a.1 as int),
                out@ == all_cells().take(3 * r + c).filter(keep),
            decreases 3 - c,
        {
            let here = p.grid[r][c];
            let centre = p.grid[1][1];
            let does_nothing = here == Square::Neutral || (here == Square::Blue && (centre
                == Square::Neutral || centre == Square::Blue)) || (r == 0 && here
                == Square::Yellow) || (r == 2 && here == Square::Violet) || (r == 1 && c == 1
                && here == Square::Green);
            proof {
                let k = 3 * r + c;
                let sofar = all_cells().take(k as int);
                assert(all_cells()[k as int] == (r, c));
                assert(all_cells().take(k + 1) =~= sofar.push((r, c)));
                assert(all_cells().take(k + 1).drop_last() =~= sofar);
                reveal(Seq::filter);
                assert(does_nothing == idle(p.grid, r as int, c as int));
            }
            if !does_nothing {
                out.push((r, c));
            }
            c += 1;
        }
        r += 1;
    }
    proof {
        assert(all_cells().take(9) =~= all_cells());
        lemma_moves_in_grid(p.grid);
    }
    out
}

/// Tells whether a box may still be solved. No sound test is known that
/// rules a box out, so every box passes.
pub fn is_solvable(p: &PuzzleBox) -> (ok: bool)
    ensures
        ok,
{
    true
}

} // verus!
