//! The ten kinds of square.

use vstd::prelude::*;

verus! {

/// What occupies one cell of the grid. Each kind has its own rule when pressed.
#[derive(Copy, Clone, PartialEq, Eq, Debug, Hash, Structural)]
pub enum Square {
    /// Does nothing.
    Neutral,
    /// Moves up one row, trading places with the square above.
    Yellow,
    /// Moves down one row, trading places with the square below.
    Violet,
    /// Rotates its row one step to the right.
    Black,
    /// Turns every white square black and every black square red.
    Red,
    /// Rotates its neighbours one step clockwise.
    Pink,
    /// Trades places with the square opposite it through the centre.
    Green,
    /// Takes the colour most common among its neighbours.
    Orange,
    /// Behaves as the square in the centre would.
    Blue,
    /// Toggles itself and its orthogonal neighbours between white and neutral.
    White,
}

/// Number of kinds of square.
pub const KINDS: usize = 10;

impl Square {
    /// Position of the kind in declaration order.
    pub open spec fn ordinal(self) -> int {
        match self {
            Square::Neutral => 0,
            Square::Yellow => 1,
            Square::Violet => 2,
            Square::Black => 3,
            Square::Red => 4,
            Square::Pink => 5,
            Square::Green => 6,
            Square::Orange => 7,
            Square::Blue => 8,
            Square::White => 9,
        }
    }

    /// The kind at a position of the declaration order.
    pub open spec fn nth(n: int) -> Square {
        if n == 1 {
            Square::Yellow
        } else if n == 2 {
            Square::Violet
        } else if n == 3 {
            Square::Black
        } else if n == 4 {
            Square::Red
        } else if n == 5 {
            Square::Pink
        } else if n == 6 {
            Square::Green
        } else if n == 7 {
            Square::Orange
        } else if n == 8 {
            Square::Blue
        } else if n == 9 {
            Square::White
        } else {
            Square::Neutral
        }
    }

    /// Position of the kind in declaration order, below `KINDS`.
    pub fn index(self) -> (n: usize)
        ensures
            n == self.ordinal(),
            n < KINDS,
            Square::nth(n as int) == self,
    {
        match self {
            Square::Neutral => 0,
            Square::Yellow => 1,
            Square::Violet => 2,
            Square::Black => 3,
            Square::Red => 4,
            Square::Pink => 5,
            Square::Green => 6,
            Square::Orange => 7,
            Square::Blue => 8,
            Square::White => 9,
        }
    }

    /// The kind at position `n` of the declaration order.
    pub fn from_index(n: usize) -> (s: Square)
        requires
            n < KINDS,
        ensures
            s == Square::nth(n as int),
            s.ordinal() == n,
    {
        match n {
            1 => Square::Yellow,
            2 => Square::Violet,
            3 => Square::Black,
            4 => Square::Red,
            5 => Square::Pink,
            6 => Square::Green,
            7 => Square::Orange,
            8 => Square::Blue,
            9 => Square::White,
            _ => Square::Neutral,
        }
    }
}

} // verus!
