//! The puzzle itself: squares, the grid, the press rules and the goal.

pub mod grid;
pub mod input;
pub mod key;
pub mod laws;
pub mod morajai_display;
pub mod moves;
pub mod press;
pub mod rules;
pub mod solve;
pub mod square;

pub use grid::{is_solved, PuzzleBox, PuzzleGrid};
pub use input::{line_to_corners, lines_to_grid, parse_corners, parse_grid, ReadError};
pub use key::state_key;
pub use morajai_display::{char_to_square, format_grid, generate_legend, square_from_char};
pub use moves::{is_solvable, possible_actions};
pub use press::act;
pub use solve::{act_adapt, solve};
pub use square::Square;
