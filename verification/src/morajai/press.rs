//! Pressing a square.

use crate::morajai::grid::{in_grid, lemma_grid_ext, PuzzleGrid};
use crate::morajai::rules::{
    activate,
    adopt,
    around,
    before_in_ring,
    is_mode,
    lemma_ring_distinct,
    reflect,
    repaint,
    repainted,
    ring,
    ring_upto,
    rise,
    shift_row,
    sink,
    spin,
    step_to,
    toggle_cross,
    toggled,
};
use crate::morajai::square::Square;
use vstd::prelude::*;

verus! {

/// Cells given by machine integers, as cells of the model.
pub open spec fn as_cells(v: Seq<(usize, usize)>) -> Seq<(int, int)> {
    v.map_values(|p: (usize, usize)| (p.0 as int, p.1 as int))
}

/// Yellow: moves up one row.
fn press_yellow(p: &mut PuzzleGrid, r: usize, c: usize)
    requires
        r < 3,
        c < 3,
    ensures
        *final(p) == rise(*old(p), r as int, c as int),
{
    if r > 0 {
        let above = p[r - 1][c];
        p[r - 1][c] = Square::Yellow;
        p[r][c] = above;
        proof {
            lemma_grid_ext(*p, rise(*old(p), r as int, c as int));
        }
    }
}

/// Violet: moves down one row.
fn press_violet(p: &mut PuzzleGrid, r: usize, c: usize)
    requires
        r < 3,
        c < 3,
    ensures
        *final(p) == sink(*old(p), r as int, c as int),
{
    if r < 2 {
        let below = p[r + 1][c];
        p[r + 1][c] = Square::Violet;
        p[r][c] = below;
        proof {
            lemma_grid_ext(*p, sink(*old(p), r as int, c as int));
        }
    }
}

/// Black: shifts row `r` one step to the right.
fn press_black(p: &mut PuzzleGrid, r: usize)
    requires
        r < 3,
    ensures
        *final(p) == shift_row(*old(p), r as int),
{
    let last = p[r][2];
    p[r][2] = p[r][1];
    p[r][1] = p[r][0];
    p[r][0] = last;
    proof {
        lemma_grid_ext(*p, shift_row(*old(p), r as int));
    }
}

/// Red: repaints the whole grid.
fn press_red(p: &mut PuzzleGrid)
    ensures
        *final(p) == repaint(*old(p)),
{
    let mut i: usize = 0;
    while i < 3
        invariant
            i <= 3,
            forall|x: int, y: int| 0 <= x < i && 0 <= y < 3 ==> p[x][y] == repainted(old(p)[x][y]),
            forall|x: int, y: int| i <= x < 3 && 0 <= y < 3 ==> p[x][y] == old(p)[x][y],
        decreases 3 - i,
    {
        let mut j: usize = 0;
        while j < 3
            invariant
                i < 3,
                j <= 3,
                forall|x: int, y: int|
                    0 <= x < i && 0 <= y < 3 ==> p[x][y] == repainted(old(p)[x][y]),
                forall|y: int| 0 <= y < j ==> p[i as int][y] == repainted(old(p)[i as int][y]),
                forall|y: int| j <= y < 3 ==> p[i as int][y] == old(p)[i as int][y],
                forall|x: int, y: int| i < x < 3 && 0 <= y < 3 ==> p[x][y] == old(p)[x][y],
            decreases 3 - j,
        {
            if p[i][j] == Square::White {
                p[i][j] = Square::Black;
            } else if p[i][j] == Square::Black {
                p[i][j] = Square::Red;
            }
            j += 1;
        }
        i += 1;
    }
    proof {
        lemma_grid_ext(*p, repaint(*old(p)));
    }
}

/// The step to the `k`-th cell around a cell, clockwise from the upper left.
fn step_of(k: usize) -> (d: (isize, isize))
    requires
        k < 8,
    ensures
        (d.0 as int, d.1 as int) == step_to(k as int),
{
    match k {
        0 => (-1, -1),
        1 => (-1, 0),
        2 => (-1, 1),
        3 => (0, 1),
        4 => (1, 1),
        5 => (1, 0),
        6 => (1, -1),
        _ => (0, -1),
    }
}

/// The cells around `(r, c)`, clockwise from the upper left.
fn neighbours(r: usize, c: usize) -> (out: Vec<(usize, usize)>)
    requires
        r < 3,
        c < 3,
    ensures
        as_cells(out@) == ring(r as int, c as int),
{
    let mut out: Vec<(usize, usize)> = Vec::new();
    let mut k: usize = 0;
    assert(as_cells(out@) =~= ring_upto(r as int, c as int, 0));
    while k < 8
        invariant
            r < 3,
            c < 3,
            k <= 8,
            as_cells(out@) == ring_upto(r as int, c as int, k as nat),
        decreases 8 - k,
    {
        let d = step_of(k);
        let nr: isize = r as isize + d.0;
        let nc: isize = c as isize + d.1;
        let ghost before = out@;
        if 0 <= nr && nr < 3 && 0 <= nc && nc < 3 {
            out.push((nr as usize, nc as usize));
            assert(as_cells(out@) =~= as_cells(before).push((nr as int, nc as int)));
        }
        k += 1;
    }
    out
}

/// Pink: turns the ring around `(r, c)` one step clockwise.
fn press_pink(p: &mut PuzzleGrid, r: usize, c: usize)
    requires
        r < 3,
        c < 3,
    ensures
        *final(p) == spin(*old(p), r as int, c as int),
{
    let cells = neighbours(r, c);
    let n = cells.len();
    proof {
        lemma_ring_distinct(r as int, c as int);
    }
    let ghost ring = ring(r as int, c as int);
    assert(forall|k: int| 0 <= k < n ==> (cells[k].0 as int, cells[k].1 as int) == ring[k]);
    let mut values: Vec<Square> = Vec::new();
    let mut k: usize = 0;
    while k < n
        invariant
            k <= n,
            n == cells.len(),
            n == ring.len(),
            *p == *old(p),
            values.len() == k,
            forall|m: int| 0 <= m < n ==> (cells[m].0 as int, cells[m].1 as int) == ring[m],
            forall|m: int| 0 <= m < n ==> in_grid((#[trigger] ring[m]).0, ring[m].1),
            forall|m: int| 0 <= m < k ==> values[m] == old(p)[ring[m].0][ring[m].1],
        decreases n - k,
    {
        let cell = cells[k];
        assert((cell.0 as int, cell.1 as int) == ring[k as int]);
        values.push(p[cell.0][cell.1]);
        k += 1;
    }
    k = 0;
    while k < n
        invariant
            k <= n,
            n == cells.len(),
            n == ring.len(),
            n == values.len(),
            n >= 3,
            ring.no_duplicates(),
            forall|m: int| 0 <= m < n ==> (cells[m].0 as int, cells[m].1 as int) == ring[m],
            forall|m: int| 0 <= m < n ==> in_grid((#[trigger] ring[m]).0, ring[m].1),
            forall|m: int| 0 <= m < n ==> values[m] == old(p)[ring[m].0][ring[m].1],
            forall|m: int|
                0 <= m < k ==> p[(#[trigger] ring[m]).0][ring[m].1] == values[before_in_ring(
                    m,
                    n as int,
                )],
            forall|i: int, j: int|
                in_grid(i, j) && (forall|m: int| 0 <= m < k ==> ring[m] != (i, j))
                    ==> #[trigger] p[i][j] == old(p)[i][j],
        decreases n - k,
    {
        let cell = cells[k];
        assert((cell.0 as int, cell.1 as int) == ring[k as int]);
        let from = if k == 0 {
            n - 1
        } else {
            k - 1
        };
        let ghost prev = *p;
        p[cell.0][cell.1] = values[from];
        proof {
            assert forall|m: int| 0 <= m < k + 1 implies p[(#[trigger] ring[m]).0][ring[m].1]
                == values[before_in_ring(m, n as int)] by {
                if m < k {
                    assert(ring[m] != ring[k as int]);
                    assert(p[ring[m].0][ring[m].1] == prev[ring[m].0][ring[m].1]);
                }
            }
            assert forall|i: int, j: int|
                in_grid(i, j) && (forall|m: int|
                    0 <= m < k + 1 ==> ring[m] != (i, j)) implies #[trigger] p[i][j] == old(
                p,
            )[i][j] by {
                assert(ring[k as int] != (i, j));
                assert(p[i][j] == prev[i][j]);
            }
        }
        k += 1;
    }
    proof {
        let want = spin(*old(p), r as int, c as int);
        assert forall|i: int, j: int| in_grid(i, j) implies #[trigger] p[i][j] == want[i][j] by {
            if ring.contains((i, j)) {
                let m = ring.index_of((i, j));
                assert(ring[m] == (i, j));
                assert(p[ring[m].0][ring[m].1] == values[before_in_ring(m, n as int)]);
            } else {
                assert(forall|m: int| 0 <= m < n ==> ring[m] != (i, j));
            }
        }
        lemma_grid_ext(*p, want);
    }
}

/// Green: trades places with the opposite cell.
fn press_green(p: &mut PuzzleGrid, r: usize, c: usize)
    requires
        r < 3,
        c < 3,
    ensures
        *final(p) == reflect(*old(p), r as int, c as int),
{
    let r2 = 2 - r;
    let c2 = 2 - c;
    let opposite = p[r2][c2];
    p[r2][c2] = p[r][c];
    p[r][c] = opposite;
    proof {
        lemma_grid_ext(*p, reflect(*old(p), r as int, c as int));
    }
}

/// Orange: takes the colour most common around `(r, c)`, if there is one.
fn press_orange(p: &mut PuzzleGrid, r: usize, c: usize)
    requires
        r < 3,
        c < 3,
    ensures
        *final(p) == adopt(*old(p), r as int, c as int),
{
    let cells = neighbours(r, c);
    let n = cells.len();
    proof {
        lemma_ring_distinct(r as int, c as int);
    }
    let ghost ring = ring(r as int, c as int);
    let ghost vals = around(*p, r as int, c as int);
    assert(forall|k: int| 0 <= k < n ==> (cells[k].0 as int, cells[k].1 as int) == ring[k]);
    let mut counts: [usize; 10] = [0; 10];
    let mut k: usize = 0;
    proof {
        vals.take(0).to_multiset_ensures();
        vstd::multiset::lemma_multiset_empty_len(vals.take(0).to_multiset());
    }
    while k < n
        invariant
            k <= n,
            n == cells.len(),
            n == ring.len(),
            n == vals.len(),
            *p == *old(p),
            vals == around(*p, r as int, c as int),
            ring == crate::morajai::rules::ring(r as int, c as int),
            forall|m: int| 0 <= m < n ==> (cells[m].0 as int, cells[m].1 as int) == ring[m],
            forall|m: int| 0 <= m < n ==> in_grid((#[trigger] ring[m]).0, ring[m].1),
            forall|w: Square|
                w != Square::Neutral ==> counts[w.ordinal()] == vals.take(
                    k as int,
                ).to_multiset().count(w),
            forall|i: int| 0 <= i < 10 ==> counts[i] <= k,
        decreases n - k,
    {
        let cell = cells[k];
        assert((cell.0 as int, cell.1 as int) == ring[k as int]);
        let v = p[cell.0][cell.1];
        assert(v == vals[k as int]);
        proof {
            assert(vals.take(k + 1) =~= vals.take(k as int).push(v));
            vstd::seq_lib::to_multiset_build(vals.take(k as int), v);
        }
        if v != Square::Neutral {
            let at = v.index();
            counts[at] = counts[at] + 1;
        }
        k += 1;
    }
    assert(vals.take(n as int) =~= vals);
    let mut best: usize = 0;
    let mut best_at: usize = 0;
    let mut alone = false;
    let ghost mut rival: int = 0;
    let mut i: usize = 1;
    while i < 10
        invariant
            1 <= i <= 10,
            forall|j: int| 1 <= j < i ==> counts[j] <= best,
            best > 0 ==> 1 <= best_at < i && counts[best_at as int] == best,
            best > 0 && alone ==> forall|j: int| 1 <= j < i && j != best_at ==> counts[j] < best,
            best > 0 && !alone ==> 1 <= rival < i && rival != best_at && counts[rival] == best,
        decreases 10 - i,
    {
        if counts[i] > best {
            best = counts[i];
            best_at = i;
            alone = true;
        } else if counts[i] == best {
            alone = false;
            proof {
                rival = i as int;
            }
        }
        i += 1;
    }
    if best > 0 && alone {
        let mode = Square::from_index(best_at);
        p[r][c] = mode;
        proof {
            let tally = vals.to_multiset();
            assert forall|w: Square| w != Square::Neutral && w != mode implies tally.count(w)
                < tally.count(mode) by {
                assert(1 <= w.ordinal() < 10);
            }
            assert(is_mode(vals, mode));
            let chosen = choose|v: Square| is_mode(vals, v);
            assert(chosen == mode);
            lemma_grid_ext(*p, adopt(*old(p), r as int, c as int));
        }
    } else {
        proof {
            assert forall|v: Square| !is_mode(vals, v) by {
                if is_mode(vals, v) {
                    assert(1 <= v.ordinal() < 10);
                    assert(counts[v.ordinal()] > 0);
                    let a = Square::nth(best_at as int);
                    let b = Square::nth(rival);
                    assert(a.ordinal() == best_at);
                    assert(b.ordinal() == rival);
                    if v != a {
                        assert(vals.to_multiset().count(a) < vals.to_multiset().count(v));
                    } else {
                        assert(vals.to_multiset().count(b) < vals.to_multiset().count(v));
                    }
                }
            }
        }
    }
}

/// Toggles one cell between white and neutral.
fn toggle(p: &mut PuzzleGrid, r: usize, c: usize)
    requires
        r < 3,
        c < 3,
    ensures
        final(p)[r as int][c as int] == toggled(old(p)[r as int][c as int]),
        forall|i: int, j: int|
            in_grid(i, j) && !(i == r && j == c) ==> final(p)[i][j] == old(p)[i][j],
{
    if p[r][c] == Square::White {
        p[r][c] = Square::Neutral;
    } else if p[r][c] == Square::Neutral {
        p[r][c] = Square::White;
    }
}

/// White: toggles `(r, c)` and the cells that touch it.
fn press_white(p: &mut PuzzleGrid, r: usize, c: usize)
    requires
        r < 3,
        c < 3,
    ensures
        *final(p) == toggle_cross(*old(p), r as int, c as int),
{
    toggle(p, r, c);
    if r > 0 {
        toggle(p, r - 1, c);
    }
    if r < 2 {
        toggle(p, r + 1, c);
    }
    if c > 0 {
        toggle(p, r, c - 1);
    }
    if c < 2 {
        toggle(p, r, c + 1);
    }
    proof {
        lemma_grid_ext(*p, toggle_cross(*old(p), r as int, c as int));
    }
}

/// Presses the square at row `r`, column `c`. A blue square follows the rule
/// of the square in the centre, applied at its own place.
pub fn act(p: &mut PuzzleGrid, r: usize, c: usize)
    requires
        r < 3,
        c < 3,
    ensures
        *final(p) == activate(*old(p), r as int, c as int),
{
    let kind = if p[r][c] == Square::Blue {
        p[1][1]
    } else {
        p[r][c]
    };
    match kind {
        Square::Neutral => {},
        Square::Blue => {},
        Square::Yellow => press_yellow(p, r, c),
        Square::Violet => press_violet(p, r, c),
        Square::Black => press_black(p, r),
        Square::Red => press_red(p),
        Square::Pink => press_pink(p, r, c),
        Square::Green => press_green(p, r, c),
        Square::Orange => press_orange(p, r, c),
        Square::White => press_white(p, r, c),
    }
}

} // verus!
