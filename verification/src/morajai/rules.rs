//! What pressing a square does to the grid: the rules, as functions from
//! grids to grids.

use crate::morajai::grid::{in_grid, tabulate, PuzzleGrid};
use crate::morajai::square::Square;
use vstd::prelude::*;

verus! {

/// The kind whose rule a press at `(r, c)` follows: the square itself, or for
/// a blue square the one in the centre.
pub open spec fn effective(g: PuzzleGrid, r: int, c: int) -> Square {
    if g[r][c] == Square::Blue {
        g[1][1]
    } else {
        g[r][c]
    }
}

/// Yellow: the cell above becomes yellow and what it held comes down to
/// `(r, c)`. Nothing happens in the top row.
pub open spec fn rise(g: PuzzleGrid, r: int, c: int) -> PuzzleGrid {
    if r > 0 {
        tabulate(
            |i: int, j: int|
                if i == r - 1 && j == c {
                    Square::Yellow
                } else if i == r && j == c {
                    g[r - 1][c]
                } else {
                    g[i][j]
                },
        )
    } else {
        g
    }
}

/// Violet: the cell below becomes violet and what it held comes up to
/// `(r, c)`. Nothing happens in the bottom row.
pub open spec fn sink(g: PuzzleGrid, r: int, c: int) -> PuzzleGrid {
    if r < 2 {
        tabulate(
            |i: int, j: int|
                if i == r + 1 && j == c {
                    Square::Violet
                } else if i == r && j == c {
                    g[r + 1][c]
                } else {
                    g[i][j]
                },
        )
    } else {
        g
    }
}

/// Black: row `r` moves one step to the right, its last square coming round
/// to the front.
pub open spec fn shift_row(g: PuzzleGrid, r: int) -> PuzzleGrid {
    tabulate(
        |i: int, j: int|
            if i == r {
                g[r][(j + 2) % 3]
            } else {
                g[i][j]
            },
    )
}

/// What red makes of one square.
pub open spec fn repainted(s: Square) -> Square {
    match s {
        Square::White => Square::Black,
        Square::Black => Square::Red,
        _ => s,
    }
}

/// Red: every square is repainted from what it was before the press.
pub open spec fn repaint(g: PuzzleGrid) -> PuzzleGrid {
    tabulate(|i: int, j: int| repainted(g[i][j]))
}

/// The step from a cell to the `k`-th of the eight cells around it, counted
/// clockwise from the upper left, as rows down and columns right.
pub open spec fn step_to(k: int) -> (int, int) {
    if k == 0 {
        (-1, -1)
    } else if k == 1 {
        (-1, 0)
    } else if k == 2 {
        (-1, 1)
    } else if k == 3 {
        (0, 1)
    } else if k == 4 {
        (1, 1)
    } else if k == 5 {
        (1, 0)
    } else if k == 6 {
        (1, -1)
    } else {
        (0, -1)
    }
}

/// The cells of the grid among the first `k` cells around `(r, c)`, in
/// clockwise order.
pub open spec fn ring_upto(r: int, c: int, k: nat) -> Seq<(int, int)>
    decreases k,
{
    if k == 0 {
        Seq::empty()
    } else {
        let before = ring_upto(r, c, (k - 1) as nat);
        let d = step_to(k - 1);
        if in_grid(r + d.0, c + d.1) {
            before.push((r + d.0, c + d.1))
        } else {
            before
        }
    }
}

/// The cells of the grid around `(r, c)`, clockwise from the upper left.
/// Cells that would fall outside the grid are left out, not wrapped.
pub open spec fn ring(r: int, c: int) -> Seq<(int, int)> {
    ring_upto(r, c, 8)
}

/// Where the value of the `k`-th cell of a ring of `n` cells comes from when
/// the ring turns one step clockwise: the cell before it, and for the first
/// cell the last.
pub open spec fn before_in_ring(k: int, n: int) -> int {
    if k == 0 {
        n - 1
    } else {
        k - 1
    }
}

/// Pink: the values of the ring around `(r, c)` move one step clockwise
/// along the ring. Everything else stays.
pub open spec fn spin(g: PuzzleGrid, r: int, c: int) -> PuzzleGrid {
    let cells = ring(r, c);
    tabulate(
        |i: int, j: int|
            if cells.contains((i, j)) {
                let from = cells[before_in_ring(cells.index_of((i, j)), cells.len() as int)];
                g[from.0][from.1]
            } else {
                g[i][j]
            },
    )
}

/// Green: `(r, c)` trades places with the cell opposite it through the
/// centre.
pub open spec fn reflect(g: PuzzleGrid, r: int, c: int) -> PuzzleGrid {
    tabulate(
        |i: int, j: int|
            if i == r && j == c {
                g[2 - r][2 - c]
            } else if i == 2 - r && j == 2 - c {
                g[r][c]
            } else {
                g[i][j]
            },
    )
}

/// The values that the cells around `(r, c)` hold, in ring order.
pub open spec fn around(g: PuzzleGrid, r: int, c: int) -> Seq<Square> {
    ring(r, c).map_values(|p: (int, int)| g[p.0][p.1])
}

/// Whether `v` is the one colour that occurs most often in `vals`. Neutral
/// squares are never counted.
pub open spec fn is_mode(vals: Seq<Square>, v: Square) -> bool {
    &&& v != Square::Neutral
    &&& vals.to_multiset().count(v) > 0
    &&& forall|w: Square|
        w != Square::Neutral && w != v ==> vals.to_multiset().count(w) < vals.to_multiset().count(
            v,
        )
}

/// Orange: `(r, c)` takes the one colour that occurs most often around it.
/// Where two colours tie for that, or nothing but neutral squares are
/// around, the grid stays as it is.
pub open spec fn adopt(g: PuzzleGrid, r: int, c: int) -> PuzzleGrid {
    let vals = around(g, r, c);
    if exists|v: Square| is_mode(vals, v) {
        let mode = choose|v: Square| is_mode(vals, v);
        tabulate(
            |i: int, j: int|
                if i == r && j == c {
                    mode
                } else {
                    g[i][j]
                },
        )
    } else {
        g
    }
}

/// What a toggle makes of one square.
pub open spec fn toggled(s: Square) -> Square {
    match s {
        Square::White => Square::Neutral,
        Square::Neutral => Square::White,
        _ => s,
    }
}

/// Whether `(i, j)` is `(r, c)` or touches it along a row or a column.
pub open spec fn in_cross(r: int, c: int, i: int, j: int) -> bool {
    (i == r && j == c) || (j == c && (i == r - 1 || i == r + 1)) || (i == r && (j == c - 1 || j
        == c + 1))
}

/// White: `(r, c)` and the cells that touch it along its row and column are
/// toggled, each from what it was before the press.
pub open spec fn toggle_cross(g: PuzzleGrid, r: int, c: int) -> PuzzleGrid {
    tabulate(
        |i: int, j: int|
            if in_cross(r, c, i, j) {
                toggled(g[i][j])
            } else {
                g[i][j]
            },
    )
}

/// The grid after a press at `(r, c)`.
pub open spec fn activate(g: PuzzleGrid, r: int, c: int) -> PuzzleGrid {
    match effective(g, r, c) {
        Square::Neutral => g,
        Square::Blue => g,
        Square::Yellow => rise(g, r, c),
        Square::Violet => sink(g, r, c),
        Square::Black => shift_row(g, r),
        Square::Red => repaint(g),
        Square::Pink => spin(g, r, c),
        Square::Green => reflect(g, r, c),
        Square::Orange => adopt(g, r, c),
        Square::White => toggle_cross(g, r, c),
    }
}

/// The ring around each of the nine cells, written out.
pub proof fn lemma_ring_cells(r: int, c: int)
    requires
        in_grid(r, c),
    ensures
        r == 0 && c == 0 ==> ring(r, c) == seq![(0int, 1int), (1int, 1int), (1int, 0int)],
        r == 0 && c == 1 ==> ring(r, c) == seq![
            (0int, 2int),
            (1int, 2int),
            (1int, 1int),
            (1int, 0int),
            (0int, 0int),
        ],
        r == 0 && c == 2 ==> ring(r, c) == seq![(1int, 2int), (1int, 1int), (0int, 1int)],
        r == 1 && c == 0 ==> ring(r, c) == seq![
            (0int, 0int),
            (0int, 1int),
            (1int, 1int),
            (2int, 1int),
            (2int, 0int),
        ],
        r == 1 && c == 1 ==> ring(r, c) == seq![
            (0int, 0int),
            (0int, 1int),
            (0int, 2int),
            (1int, 2int),
            (2int, 2int),
            (2int, 1int),
            (2int, 0int),
            (1int, 0int),
        ],
        r == 1 && c == 2 ==> ring(r, c) == seq![
            (0int, 1int),
            (0int, 2int),
            (2int, 2int),
            (2int, 1int),
            (1int, 1int),
        ],
        r == 2 && c == 0 ==> ring(r, c) == seq![(1int, 0int), (1int, 1int), (2int, 1int)],
        r == 2 && c == 1 ==> ring(r, c) == seq![
            (1int, 0int),
            (1int, 1int),
            (1int, 2int),
            (2int, 2int),
            (2int, 0int),
        ],
        r == 2 && c == 2 ==> ring(r, c) == seq![(1int, 1int), (1int, 2int), (2int, 1int)],
{
    reveal_with_fuel(ring_upto, 9);
    if r == 0 && c == 0 {
        assert(ring(r, c) =~= seq![(0int, 1int), (1int, 1int), (1int, 0int)]);
    } else if r == 0 && c == 1 {
        assert(ring(r, c) =~= seq![
            (0int, 2int),
            (1int, 2int),
            (1int, 1int),
            (1int, 0int),
            (0int, 0int),
        ]);
    } else if r == 0 && c == 2 {
        assert(ring(r, c) =~= seq![(1int, 2int), (1int, 1int), (0int, 1int)]);
    } else if r == 1 && c == 0 {
        assert(ring(r, c) =~= seq![
            (0int, 0int),
            (0int, 1int),
            (1int, 1int),
            (2int, 1int),
            (2int, 0int),
        ]);
    } else if r == 1 && c == 1 {
        assert(ring(r, c) =~= seq![
            (0int, 0int),
            (0int, 1int),
            (0int, 2int),
            (1int, 2int),
            (2int, 2int),
            (2int, 1int),
            (2int, 0int),
            (1int, 0int),
        ]);
    } else if r == 1 && c == 2 {
        assert(ring(r, c) =~= seq![
            (0int, 1int),
            (0int, 2int),
            (2int, 2int),
            (2int, 1int),
            (1int, 1int),
        ]);
    } else if r == 2 && c == 0 {
        assert(ring(r, c) =~= seq![(1int, 0int), (1int, 1int), (2int, 1int)]);
    } else if r == 2 && c == 1 {
        assert(ring(r, c) =~= seq![
            (1int, 0int),
            (1int, 1int),
            (1int, 2int),
            (2int, 2int),
            (2int, 0int),
        ]);
    } else {
        assert(ring(r, c) =~= seq![(1int, 1int), (1int, 2int), (2int, 1int)]);
    }
}

/// The ring holds cells of the grid, none of them twice, never `(r, c)`
/// itself, and at least three of them.
pub proof fn lemma_ring_distinct(r: int, c: int)
    requires
        in_grid(r, c),
    ensures
        ring(r, c).no_duplicates(),
        3 <= ring(r, c).len() <= 8,
        forall|k: int|
            0 <= k < ring(r, c).len() ==> in_grid(
                (#[trigger] ring(r, c)[k]).0,
                ring(r, c)[k].1,
            ) && ring(r, c)[k] != (r, c),
{
    lemma_ring_cells(r, c);
}

} // verus!
