//! The 3x3 grid, the puzzle box and the goal.

use crate::morajai::square::Square;
use vstd::prelude::*;

verus! {

/// Three rows of three squares; `grid[0][0]` is the top left cell.
pub type PuzzleGrid = [[Square; 3]; 3];

/// A puzzle: the colours wanted at the corners, and the grid as it stands.
#[derive(Copy, Clone, PartialEq, Eq, Debug, Hash)]
pub struct PuzzleBox {
    /// Wanted colours: upper left, upper right, lower left, lower right.
    pub target: [Square; 4],
    /// The grid, by row and column.
    pub grid: PuzzleGrid,
}

/// Whether `(r, c)` names a cell of the grid.
pub open spec fn in_grid(r: int, c: int) -> bool {
    0 <= r < 3 && 0 <= c < 3
}

/// The grid whose cell `(i, j)` holds `f(i, j)`.
pub open spec fn tabulate(f: spec_fn(int, int) -> Square) -> PuzzleGrid {
    [[f(0, 0), f(0, 1), f(0, 2)], [f(1, 0), f(1, 1), f(1, 2)], [f(2, 0), f(2, 1), f(2, 2)]]
}

/// The four corners of a grid in the order of a target: upper left, upper
/// right, lower left, lower right.
pub open spec fn corners(g: PuzzleGrid) -> Seq<Square> {
    seq![g[0][0], g[0][2], g[2][0], g[2][2]]
}

/// The goal: the corners of the grid show the target colours, position by
/// position.
pub open spec fn solved(p: PuzzleBox) -> bool {
    corners(p.grid) == p.target@
}

/// Two grids with the same nine cells are the same grid.
pub proof fn lemma_grid_ext(a: PuzzleGrid, b: PuzzleGrid)
    requires
        forall|i: int, j: int| in_grid(i, j) ==> #[trigger] a[i][j] == b[i][j],
    ensures
        a == b,
{
    assert(a[0] =~= b[0]);
    assert(a[1] =~= b[1]);
    assert(a[2] =~= b[2]);
    assert(a =~= b);
}

/// Two boxes with the same targets and the same cells are the same box.
pub proof fn lemma_box_ext(a: PuzzleBox, b: PuzzleBox)
    requires
        forall|k: int| 0 <= k < 4 ==> a.target[k] == b.target[k],
        forall|i: int, j: int| in_grid(i, j) ==> #[trigger] a.grid[i][j] == b.grid[i][j],
    ensures
        a == b,
{
    lemma_grid_ext(a.grid, b.grid);
    assert(a.target =~= b.target);
}

/// Tells whether the puzzle is solved.
pub fn is_solved(p: &PuzzleBox) -> (done: bool)
    ensures
        done == solved(*p),
{
    let done = p.target[0] == p.grid[0][0] && p.target[1] == p.grid[0][2] && p.target[2]
        == p.grid[2][0] && p.target[3] == p.grid[2][2];
    proof {
        if done {
            assert(corners(p.grid) =~= p.target@);
        } else {
            assert(corners(p.grid)[0] == p.grid[0][0]);
            assert(corners(p.grid)[1] == p.grid[0][2]);
            assert(corners(p.grid)[2] == p.grid[2][0]);
            assert(corners(p.grid)[3] == p.grid[2][2]);
        }
    }
    done
}

} // verus!
