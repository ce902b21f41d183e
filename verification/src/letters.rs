//! Letters as numbers and numbers as letters: `A` is 1, `Z` is 26.

use vstd::prelude::*;
use vstd::string::StrSliceExecFns;

verus! {

/// The code of a character after a small letter of the alphabet has been
/// made a capital one.
pub open spec fn capital(c: char) -> int {
    if 'a' <= c <= 'z' {
        c as int - 32
    } else {
        c as int
    }
}

/// The number of a character: the low byte of its capital, counted from
/// `A` as 1. Letters of the alphabet, in either case, have the numbers 1 to
/// 26.
pub open spec fn number_of(c: char) -> int {
    capital(c) % 256 - 64
}

/// The numbers of the first four characters of a text, with 0 wherever the
/// text has run out.
pub open spec fn numbers_of(text: Seq<char>) -> Seq<u16> {
    Seq::new(
        4,
        |k: int|
            if k < text.len() {
                number_of(text[k]) as u16
            } else {
                0u16
            },
    )
}

/// The letter with the given number: the character whose code is the low
/// byte of the number, counted from `A` as 1.
pub open spec fn letter_of(n: u16) -> char {
    (n % 256 + 64) as char
}

/// Whether each of the first four characters of a text has a number above
/// 0, as every letter of the alphabet has.
pub open spec fn numbered(text: Seq<char>) -> bool {
    forall|k: int| 0 <= k < 4 && k < text.len() ==> number_of(#[trigger] text[k]) >= 1
}

/// The low byte of the capital of a character.
fn low_byte(c: char) -> (low: u32)
    ensures
        low == capital(c) % 256,
{
    let code: u32 = if 'a' <= c && c <= 'z' {
        c as u32 - 32
    } else {
        c as u32
    };
    code % 256
}

/// Tells whether `transpose_to_numbers` can take a text: whether each of its
/// first four characters has a number above 0.
pub fn has_numbers(s: &str) -> (ok: bool)
    ensures
        ok == numbered(s@),
{
    let n = s.unicode_len();
    let mut i: usize = 0;
    while i < 4 && i < n
        invariant
            i <= 4,
            n == s@.len(),
            forall|k: int| 0 <= k < i ==> number_of(#[trigger] s@[k]) >= 1,
        decreases 4 - i,
    {
        if low_byte(s.get_char(i)) < 65 {
            return false;
        }
        i += 1;
    }
    true
}

/// Gives the numbers of the first four characters of a text, `A` or `a`
/// being 1. Each of those characters must have a number above 0.
pub fn transpose_to_numbers(s: &str) -> (out: [u16; 4])
    requires
        numbered(s@),
    ensures
        out@ == numbers_of(s@),
{
    let n = s.unicode_len();
    let mut out = [0u16; 4];
    let mut i: usize = 0;
    while i < 4
        invariant
            i <= 4,
            n == s@.len(),
            numbered(s@),
            forall|k: int| 0 <= k < i ==> out[k] == numbers_of(s@)[k],
            forall|k: int| i <= k < 4 ==> out[k] == 0,
        decreases 4 - i,
    {
        if i < n {
            let low = low_byte(s.get_char(i));
            assert(low - 64 == number_of(s@[i as int]));
            out[i] = (low - 64) as u16;
        }
        i += 1;
    }
    assert(out@ =~= numbers_of(s@));
    out
}

/// Gives the letter with the given number, 1 being `A`. The low byte of
/// the number must be at most 190.
pub fn transpose_to_letters(s: u16) -> (c: char)
    requires
        s % 256 <= 190,
    ensures
        c == letter_of(s),
{
    let low: u8 = (s % 256) as u8;
    (low + 64) as char
}

} // verus!
