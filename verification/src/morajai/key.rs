//! A number for each puzzle box, so that a search can tell boxes apart.

use crate::morajai::grid::{in_grid, lemma_box_ext, PuzzleBox};
use crate::morajai::square::Square;
use vstd::prelude::*;

verus! {

/// The thirteen squares of a box: the four targets, then the grid row by
/// row.
pub open spec fn squares_of(p: PuzzleBox) -> Seq<Square> {
    p.target@ + p.grid[0]@ + p.grid[1]@ + p.grid[2]@
}

/// The number whose decimal digits are the ordinals of the squares, the
/// first square in the highest place.
pub open spec fn number(d: Seq<Square>) -> nat
    decreases d.len(),
{
    if d.len() == 0 {
        0
    } else {
        number(d.drop_last()) * 10 + d.last().ordinal() as nat
    }
}

/// Ten to the power `n`.
pub open spec fn ten_to(n: nat) -> nat
    decreases n,
{
    if n == 0 {
        1
    } else {
        ten_to((n - 1) as nat) * 10
    }
}

/// The key of a box: the number of its thirteen squares.
pub open spec fn key_of(p: PuzzleBox) -> u64 {
    number(squares_of(p)) as u64
}

/// A number of `n` digits is below ten to the `n`.
pub proof fn lemma_number_bound(d: Seq<Square>)
    ensures
        number(d) < ten_to(d.len()),
    decreases d.len(),
{
    if d.len() > 0 {
        lemma_number_bound(d.drop_last());
    }
}

/// Ten to the thirteenth fits a `u64`.
pub proof fn lemma_ten_to_thirteen()
    ensures
        ten_to(13) == 10_000_000_000_000,
{
    reveal_with_fuel(ten_to, 14);
}

/// The powers of ten grow.
pub proof fn lemma_ten_to_grows(a: nat, b: nat)
    requires
        a <= b,
    ensures
        ten_to(a) <= ten_to(b),
    decreases b,
{
    if a < b {
        lemma_ten_to_grows(a, (b - 1) as nat);
    }
}

/// Two sequences of squares of one length and with one number are the same.
pub proof fn lemma_number_injective(a: Seq<Square>, b: Seq<Square>)
    requires
        a.len() == b.len(),
        number(a) == number(b),
    ensures
        a == b,
    decreases a.len(),
{
    if a.len() > 0 {
        let x = a.last().ordinal();
        let y = b.last().ordinal();
        assert(Square::nth(x) == a.last());
        assert(Square::nth(y) == b.last());
        assert(x == y && number(a.drop_last()) == number(b.drop_last()));
        lemma_number_injective(a.drop_last(), b.drop_last());
        assert(a =~= a.drop_last().push(a.last()));
        assert(b =~= b.drop_last().push(b.last()));
    } else {
        assert(a =~= b);
    }
}

/// Two boxes with one key are the same box.
pub proof fn lemma_key_injective(p: PuzzleBox, q: PuzzleBox)
    requires
        key_of(p) == key_of(q),
    ensures
        p == q,
{
    let a = squares_of(p);
    let b = squares_of(q);
    lemma_number_bound(a);
    lemma_number_bound(b);
    lemma_ten_to_thirteen();
    lemma_number_injective(a, b);
    assert forall|k: int| 0 <= k < 4 implies p.target[k] == q.target[k] by {
        assert(a[k] == p.target[k]);
        assert(b[k] == q.target[k]);
    }
    assert forall|i: int, j: int| in_grid(i, j) implies #[trigger] p.grid[i][j] == q.grid[i][j] by {
        assert(a[4 + 3 * i + j] == p.grid[i][j]);
        assert(b[4 + 3 * i + j] == q.grid[i][j]);
    }
    lemma_box_ext(p, q);
}

/// The square at a place of a box: the targets first, then the grid row by
/// row.
fn square_at(p: &PuzzleBox, i: usize) -> (s: Square)
    requires
        i < 13,
    ensures
        s == squares_of(*p)[i as int],
{
    if i < 4 {
        p.target[i]
    } else {
        p.grid[(i - 4) / 3][(i - 4) % 3]
    }
}

/// Computes the key of a box. Different boxes have different keys.
pub fn state_key(p: &PuzzleBox) -> (k: u64)
    ensures
        k == key_of(*p),
{
    let ghost all = squares_of(*p);
    let mut k: u64 = 0;
    let mut i: usize = 0;
    proof {
        lemma_ten_to_thirteen();
    }
    while i < 13
        invariant
            i <= 13,
            all == squares_of(*p),
            k == number(all.take(i as int)),
            ten_to(13) == 10_000_000_000_000,
        decreases 13 - i,
    {
        let s = square_at(p, i);
        proof {
            lemma_number_bound(all.take(i as int));
            lemma_ten_to_grows(i as nat, 12);
            lemma_ten_to_grows(12, 13);
            assert(ten_to(13) == ten_to(12) * 10);
            assert(all.take(i + 1).drop_last() =~= all.take(i as int));
            assert(all.take(i + 1).last() == s);
        }
        k = k * 10 + s.index() as u64;
        i += 1;
    }
    proof {
        assert(all.take(13) =~= all);
    }
    k
}

} // verus!
