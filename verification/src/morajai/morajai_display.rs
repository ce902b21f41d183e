//! Squares, grids and boxes as text, and text as squares.

use crate::morajai::grid::{PuzzleBox, PuzzleGrid};
use crate::morajai::square::Square;
use vstd::prelude::*;
use vstd::string::StringExecFns;

verus! {

/// The character that stands for a kind of square.
pub open spec fn code_of(s: Square) -> char {
    match s {
        Square::Neutral => '.',
        Square::Yellow => 'Y',
        Square::Violet => 'V',
        Square::Black => 'B',
        Square::Red => 'R',
        Square::Pink => 'P',
        Square::Green => 'G',
        Square::Orange => 'O',
        Square::Blue => 'U',
        Square::White => 'W',
    }
}

/// The kind of square that a character stands for, in either case of the
/// letter, if it stands for one.
pub open spec fn square_for(c: char) -> Option<Square> {
    if c == '.' {
        Some(Square::Neutral)
    } else if c == 'Y' || c == 'y' {
        Some(Square::Yellow)
    } else if c == 'V' || c == 'v' {
        Some(Square::Violet)
    } else if c == 'B' || c == 'b' {
        Some(Square::Black)
    } else if c == 'R' || c == 'r' {
        Some(Square::Red)
    } else if c == 'P' || c == 'p' {
        Some(Square::Pink)
    } else if c == 'G' || c == 'g' {
        Some(Square::Green)
    } else if c == 'O' || c == 'o' {
        Some(Square::Orange)
    } else if c == 'U' || c == 'u' {
        Some(Square::Blue)
    } else if c == 'W' || c == 'w' {
        Some(Square::White)
    } else {
        None
    }
}

/// The character of a square stands for that square.
pub proof fn lemma_code_reads_back(s: Square)
    ensures
        square_for(code_of(s)) == Some(s),
{
}

/// One row of a grid as text: a bar, then each square followed by a bar,
/// then the end of the line.
pub open spec fn row_text(row: [Square; 3]) -> Seq<char> {
    seq!['|', code_of(row[0]), '|', code_of(row[1]), '|', code_of(row[2]), '|', '\n']
}

/// A grid as text: its three rows.
pub open spec fn grid_text(g: PuzzleGrid) -> Seq<char> {
    row_text(g[0]) + row_text(g[1]) + row_text(g[2])
}

/// A box as text: the two upper targets, the grid set in by three spaces
/// and followed by a line of three spaces, and the two lower targets.
pub open spec fn box_text(p: PuzzleBox) -> Seq<char> {
    let gap = seq![' ', ' ', ' ', ' ', ' ', ' '];
    let inset = seq![' ', ' ', ' '];
    seq!['\\', code_of(p.target[0]), '\\'] + gap + seq!['/', code_of(p.target[1]), '/', '\n']
        + inset + row_text(p.grid[0]) + inset + row_text(p.grid[1]) + inset + row_text(p.grid[2])
        + inset + seq!['\n'] + seq!['/', code_of(p.target[2]), '/'] + gap + seq![
        '\\',
        code_of(p.target[3]),
        '\\',
        '\n',
    ]
}

/// The legend: one line for each kind of square, its character and its
/// name.
pub open spec fn legend_text() -> Seq<char> {
    "Y: Yellow\n"@ + "V: Violet\n"@ + "B: Black\n"@ + "R: Red\n"@ + "P: Pink\n"@ + "G: Green\n"@
        + "O: Orange\n"@ + "U: Blue\n"@ + "W: White\n"@ + ".: Neutral (no color)\n"@
}

impl Square {
    /// The character that stands for the square.
    pub fn symbol(self) -> (c: char)
        ensures
            c == code_of(self),
    {
        match self {
            Square::Neutral => '.',
            Square::Yellow => 'Y',
            Square::Violet => 'V',
            Square::Black => 'B',
            Square::Red => 'R',
            Square::Pink => 'P',
            Square::Green => 'G',
            Square::Orange => 'O',
            Square::Blue => 'U',
            Square::White => 'W',
        }
    }

    /// The character that stands for the square, as a string slice.
    pub fn label(self) -> (t: &'static str)
        ensures
            t@ == seq![code_of(self)],
    {
        proof {
            reveal_strlit(".");
            reveal_strlit("Y");
            reveal_strlit("V");
            reveal_strlit("B");
            reveal_strlit("R");
            reveal_strlit("P");
            reveal_strlit("G");
            reveal_strlit("O");
            reveal_strlit("U");
            reveal_strlit("W");
        }
        let t = match self {
            Square::Neutral => ".",
            Square::Yellow => "Y",
            Square::Violet => "V",
            Square::Black => "B",
            Square::Red => "R",
            Square::Pink => "P",
            Square::Green => "G",
            Square::Orange => "O",
            Square::Blue => "U",
            Square::White => "W",
        };
        assert(t@ =~= seq![code_of(self)]);
        t
    }

    /// The square as text: its character.
    pub fn to_text(self) -> (out: String)
        ensures
            out@ == seq![code_of(self)],
    {
        String::from_str(self.label())
    }
}

/// Adds one row of a grid to a text.
fn append_row(out: &mut String, row: &[Square; 3])
    ensures
        final(out)@ == old(out)@ + row_text(*row),
{
    proof {
        reveal_strlit("|");
        reveal_strlit("\n");
    }
    out.append("|");
    let mut j: usize = 0;
    while j < 3
        invariant
            j <= 3,
            "|"@ == seq!['|'],
            out@ == old(out)@ + row_text(*row).take(1 + 2 * j),
        decreases 3 - j,
    {
        let ghost before = out@;
        out.append(row[j].label());
        out.append("|");
        assert(out@ =~= old(out)@ + row_text(*row).take(1 + 2 * (j + 1)));
        j += 1;
    }
    out.append("\n");
    assert(out@ =~= old(out)@ + row_text(*row));
}

/// Renders a grid: each row on a line of its own, the squares between bars.
pub fn format_grid(grid: &PuzzleGrid) -> (out: String)
    ensures
        out@ == grid_text(*grid),
{
    let mut out = String::new();
    let mut i: usize = 0;
    while i < 3
        invariant
            i <= 3,
            i == 0 ==> out@ == Seq::<char>::empty(),
            i == 1 ==> out@ == row_text(grid[0]),
            i == 2 ==> out@ == row_text(grid[0]) + row_text(grid[1]),
            i == 3 ==> out@ == grid_text(*grid),
        decreases 3 - i,
    {
        append_row(&mut out, &grid[i]);
        assert(Seq::<char>::empty() + row_text(grid[0]) =~= row_text(grid[0]));
        i += 1;
    }
    out
}

impl PuzzleBox {
    /// Renders the box: the upper targets, the grid, the lower targets.
    pub fn to_text(&self) -> (out: String)
        ensures
            out@ == box_text(*self),
    {
        proof {
            reveal_strlit("\\");
            reveal_strlit("\\      /");
            reveal_strlit("/\n");
            reveal_strlit("   ");
            reveal_strlit("   \n");
            reveal_strlit("/");
            reveal_strlit("/      \\");
            reveal_strlit("\\\n");
        }
        let mut out = String::new();
        out.append("\\");
        out.append(self.target[0].label());
        out.append("\\      /");
        out.append(self.target[1].label());
        out.append("/\n");
        out.append("   ");
        append_row(&mut out, &self.grid[0]);
        out.append("   ");
        append_row(&mut out, &self.grid[1]);
        out.append("   ");
        append_row(&mut out, &self.grid[2]);
        out.append("   \n");
        out.append("/");
        out.append(self.target[2].label());
        out.append("/      \\");
        out.append(self.target[3].label());
        out.append("\\\n");
        assert(out@ =~= box_text(*self));
        out
    }
}

/// The legend of the characters that stand for the squares.
pub fn generate_legend() -> (out: String)
    ensures
        out@ == legend_text(),
{
    let mut out = String::new();
    out.append("Y: Yellow\n");
    out.append("V: Violet\n");
    out.append("B: Black\n");
    out.append("R: Red\n");
    out.append("P: Pink\n");
    out.append("G: Green\n");
    out.append("O: Orange\n");
    out.append("U: Blue\n");
    out.append("W: White\n");
    out.append(".: Neutral (no color)\n");
    assert(out@ =~= legend_text());
    out
}

/// Reads a character as a square, in either case of the letter. Gives
/// `None` for a character that stands for no square.
pub fn square_from_char(c: char) -> (s: Option<Square>)
    ensures
        s == square_for(c),
{
    match c {
        '.' => Some(Square::Neutral),
        'Y' | 'y' => Some(Square::Yellow),
        'V' | 'v' => Some(Square::Violet),
        'B' | 'b' => Some(Square::Black),
        'R' | 'r' => Some(Square::Red),
        'P' | 'p' => Some(Square::Pink),
        'G' | 'g' => Some(Square::Green),
        'O' | 'o' => Some(Square::Orange),
        'U' | 'u' => Some(Square::Blue),
        'W' | 'w' => Some(Square::White),
        _ => None,
    }
}

/// Reads a character that stands for a square.
pub fn char_to_square(c: char) -> (s: Square)
    requires
        square_for(c) is Some,
    ensures
        square_for(c) == Some(s),
{
    square_from_char(c).unwrap()
}

} // verus!
