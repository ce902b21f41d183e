//! Mora Jai puzzle boxes: the ten square rules on a 3x3 grid, the enumeration
//! of useful presses, and a state-space search that finds the presses which
//! bring the four corners to their target colours.
//!
//! Every executable function carries a contract over the mathematical model
//! defined next to it, and the contracts are proved.
//!
//! - [`morajai`]: the squares, the grid, the press rules, boxes as text, and
//!   `solve`.
//! - [`search`]: breadth-first and bounded depth-first search over any
//!   problem given by its functions.
//! - [`letters`]: letters as numbers, for the numeric puzzles of the same
//!   house.

pub mod letters;
pub mod morajai;
pub mod search;
