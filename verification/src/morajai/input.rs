//! Reading a box from lines of text.

use crate::morajai::grid::PuzzleGrid;
use crate::morajai::morajai_display::{square_for, square_from_char};
use crate::morajai::square::Square;
use vstd::prelude::*;
use vstd::string::StrSliceExecFns;

verus! {

/// Why a line could not be read.
#[derive(Copy, Clone, PartialEq, Eq, Debug)]
pub enum ReadError {
    /// The line holds no character to read.
    Empty,
    /// The line holds this character, which stands for no square.
    NotASquare(char),
}

/// What `str::trim` leaves of a text.
pub uninterp spec fn trimmed(text: Seq<char>) -> Seq<char>;

/// Calls `str::trim`, which takes the white space off both ends of a text.
/// Nothing is proved of it here: what it leaves is only given the name
/// `trimmed`.
#[verifier::external_body]
fn trim(line: &str) -> (text: &str)
    ensures
        text@ == trimmed(line@),
{
    line.trim()
}

/// The first `n` characters of a text, with `fill` wherever the text has
/// run out.
pub open spec fn padded(text: Seq<char>, n: nat, fill: char) -> Seq<char> {
    Seq::new(
        n,
        |k: int|
            if k < text.len() {
                text[k]
            } else {
                fill
            },
    )
}

/// Whether the character at `k` is the first that stands for no square.
pub open spec fn first_bad_at(chars: Seq<char>, k: int) -> bool {
    &&& 0 <= k < chars.len()
    &&& square_for(chars[k]) is None
    &&& forall|j: int| 0 <= j < k ==> square_for(#[trigger] chars[j]) is Some
}

/// The squares that the characters stand for, or the first character that
/// stands for none.
pub open spec fn squares_for(chars: Seq<char>) -> Result<Seq<Square>, ReadError> {
    if exists|k: int| first_bad_at(chars, k) {
        Err(ReadError::NotASquare(chars[choose|k: int| first_bad_at(chars, k)]))
    } else {
        Ok(chars.map_values(|c: char| square_for(c)->Some_0))
    }
}

/// The four targets that a text gives: its first four characters, the first
/// one standing in for any that are missing. A text without characters
/// gives none.
pub open spec fn corners_for(text: Seq<char>) -> Result<Seq<Square>, ReadError> {
    if text.len() == 0 {
        Err(ReadError::Empty)
    } else {
        squares_for(padded(text, 4, text[0]))
    }
}

/// The row that a text gives: its first three characters, with neutral
/// squares for any that are missing.
pub open spec fn row_for(text: Seq<char>) -> Result<Seq<Square>, ReadError> {
    squares_for(padded(text, 3, '.'))
}

/// The grid that three texts give, one row each, or what is wrong with the
/// first text that gives no row.
pub open spec fn grid_for(texts: Seq<Seq<char>>) -> Result<Seq<Seq<Square>>, ReadError> {
    match (row_for(texts[0]), row_for(texts[1]), row_for(texts[2])) {
        (Err(e), _, _) => Err(e),
        (_, Err(e), _) => Err(e),
        (_, _, Err(e)) => Err(e),
        (Ok(a), Ok(b), Ok(c)) => Ok(seq![a, b, c]),
    }
}

/// The three lines without the white space at their ends.
pub open spec fn trimmed_lines(lines: [String; 3]) -> Seq<Seq<char>> {
    seq![trimmed(lines[0]@), trimmed(lines[1]@), trimmed(lines[2]@)]
}

/// The rows of a grid as sequences.
pub open spec fn rows_of(g: PuzzleGrid) -> Seq<Seq<Square>> {
    seq![g[0]@, g[1]@, g[2]@]
}

/// The first character that stands for no square is the only one that is
/// the first.
proof fn lemma_first_bad_is_one(chars: Seq<char>, k: int)
    requires
        first_bad_at(chars, k),
    ensures
        squares_for(chars) == Err::<Seq<Square>, ReadError>(ReadError::NotASquare(chars[k])),
{
    let chosen = choose|j: int| first_bad_at(chars, j);
    assert(chosen == k) by {
        if chosen < k {
            assert(square_for(chars[chosen]) is Some);
        } else if k < chosen {
            assert(square_for(chars[k]) is Some);
        }
    }
}

/// Reads the first three characters of a text as a row.
fn read_row(text: &str) -> (row: Result<[Square; 3], ReadError>)
    ensures
        match row {
            Ok(r) => row_for(text@) == Ok::<Seq<Square>, ReadError>(r@),
            Err(e) => row_for(text@) == Err::<Seq<Square>, ReadError>(e),
        },
{
    let n = text.unicode_len();
    let ghost chars = padded(text@, 3, '.');
    let mut row = [Square::Neutral; 3];
    let mut k: usize = 0;
    while k < 3
        invariant
            k <= 3,
            n == text@.len(),
            chars == padded(text@, 3, '.'),
            forall|j: int| 0 <= j < k ==> square_for(#[trigger] chars[j]) == Some(row[j]),
        decreases 3 - k,
    {
        let c = if k < n {
            text.get_char(k)
        } else {
            '.'
        };
        assert(c == chars[k as int]);
        match square_from_char(c) {
            Some(s) => {
                row[k] = s;
            },
            None => {
                proof {
                    lemma_first_bad_is_one(chars, k as int);
                }
                return Err(ReadError::NotASquare(c));
            },
        }
        k += 1;
    }
    assert(row@ =~= chars.map_values(|c: char| square_for(c)->Some_0));
    Ok(row)
}

/// Reads the first four characters of a text as targets.
fn read_corners(text: &str) -> (targets: Result<[Square; 4], ReadError>)
    ensures
        match targets {
            Ok(t) => corners_for(text@) == Ok::<Seq<Square>, ReadError>(t@),
            Err(e) => corners_for(text@) == Err::<Seq<Square>, ReadError>(e),
        },
{
    let n = text.unicode_len();
    if n == 0 {
        return Err(ReadError::Empty);
    }
    let first = text.get_char(0);
    let ghost chars = padded(text@, 4, first);
    let mut targets = [Square::Neutral; 4];
    let mut k: usize = 0;
    while k < 4
        invariant
            k <= 4,
            n == text@.len(),
            n > 0,
            first == text@[0],
            chars == padded(text@, 4, first),
            forall|j: int| 0 <= j < k ==> square_for(#[trigger] chars[j]) == Some(targets[j]),
        decreases 4 - k,
    {
        let c = if k < n {
            text.get_char(k)
        } else {
            first
        };
        assert(c == chars[k as int]);
        match square_from_char(c) {
            Some(s) => {
                targets[k] = s;
            },
            None => {
                proof {
                    lemma_first_bad_is_one(chars, k as int);
                }
                return Err(ReadError::NotASquare(c));
            },
        }
        k += 1;
    }
    assert(targets@ =~= chars.map_values(|c: char| square_for(c)->Some_0));
    Ok(targets)
}

/// Reads the four targets from a line: upper left, upper right, lower left,
/// lower right. White space at the ends of the line does not count, and a
/// line with fewer than four characters repeats its first for the rest.
pub fn line_to_corners(line: &str) -> (targets: [Square; 4])
    requires
        corners_for(trimmed(line@)) is Ok,
    ensures
        corners_for(trimmed(line@)) == Ok::<Seq<Square>, ReadError>(targets@),
{
    read_corners(trim(line)).unwrap()
}

/// Reads the grid from three lines, one for each row. White space at the
/// ends of a line does not count, and a line with fewer than three
/// characters has neutral squares for the rest.
pub fn lines_to_grid(lines: [String; 3]) -> (grid: PuzzleGrid)
    requires
        grid_for(trimmed_lines(lines)) is Ok,
    ensures
        grid_for(trimmed_lines(lines)) == Ok::<Seq<Seq<Square>>, ReadError>(rows_of(grid)),
{
    let mut grid = [[Square::Neutral; 3]; 3];
    let mut i: usize = 0;
    while i < 3
        invariant
            i <= 3,
            grid_for(trimmed_lines(lines)) is Ok,
            forall|j: int|
                0 <= j < i ==> row_for(trimmed_lines(lines)[j]) == Ok::<Seq<Square>, ReadError>(
                    #[trigger] grid[j]@,
                ),
        decreases 3 - i,
    {
        assert(trimmed_lines(lines)[i as int] == trimmed(lines[i as int]@));
        grid[i] = read_row(trim(lines[i].as_str())).unwrap();
        i += 1;
    }
    assert(rows_of(grid) =~= seq![
        row_for(trimmed_lines(lines)[0])->Ok_0,
        row_for(trimmed_lines(lines)[1])->Ok_0,
        row_for(trimmed_lines(lines)[2])->Ok_0,
    ]);
    grid
}

/// Reads the four targets from a line as `line_to_corners` does, or says
/// what is wrong with the line: that it is empty but for white space, or
/// which is the first of its four characters that stands for no square.
pub fn parse_corners(line: &str) -> (targets: Result<[Square; 4], ReadError>)
    ensures
        match targets {
            Ok(t) => corners_for(trimmed(line@)) == Ok::<Seq<Square>, ReadError>(t@),
            Err(e) => corners_for(trimmed(line@)) == Err::<Seq<Square>, ReadError>(e),
        },
{
    match read_corners(trim(line)) {
        Ok(_) => Ok(line_to_corners(line)),
        Err(e) => Err(e),
    }
}

/// Reads the grid from three lines as `lines_to_grid` does, or says which
/// is the first character, in the first line that has one, that stands for
/// no square.
pub fn parse_grid(lines: [String; 3]) -> (grid: Result<PuzzleGrid, ReadError>)
    ensures
        match grid {
            Ok(g) => grid_for(trimmed_lines(lines)) == Ok::<Seq<Seq<Square>>, ReadError>(
                rows_of(g),
            ),
            Err(e) => grid_for(trimmed_lines(lines)) == Err::<Seq<Seq<Square>>, ReadError>(e),
        },
{
    let mut i: usize = 0;
    while i < 3
        invariant
            i <= 3,
            forall|j: int| 0 <= j < i ==> row_for(#[trigger] trimmed_lines(lines)[j]) is Ok,
        decreases 3 - i,
    {
        assert(trimmed_lines(lines)[i as int] == trimmed(lines[i as int]@));
        match read_row(trim(lines[i].as_str())) {
            Ok(_) => {},
            Err(e) => {
                assert(row_for(trimmed_lines(lines)[0]) is Ok || i == 0);
                assert(row_for(trimmed_lines(lines)[1]) is Ok || i <= 1);
                return Err(e);
            },
        }
        i += 1;
    }
    assert(row_for(trimmed_lines(lines)[0]) is Ok);
    assert(row_for(trimmed_lines(lines)[1]) is Ok);
    assert(row_for(trimmed_lines(lines)[2]) is Ok);
    Ok(lines_to_grid(lines))
}

} // verus!
