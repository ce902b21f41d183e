use blue_prince::morajai::{
    char_to_square, format_grid, generate_legend, line_to_corners, lines_to_grid, parse_corners,
    parse_grid, square_from_char, PuzzleBox, ReadError, Square,
};

#[test]
fn grid_as_text() {
    let grid = [
        [Square::Neutral, Square::Yellow, Square::Violet],
        [Square::Black, Square::Red, Square::Pink],
        [Square::Green, Square::Orange, Square::Blue],
    ];
    assert_eq!(format_grid(&grid), "|.|Y|V|\n|B|R|P|\n|G|O|U|\n");
    assert_eq!(format_grid(&[[Square::White; 3]; 3]), "|W|W|W|\n|W|W|W|\n|W|W|W|\n");
}

#[test]
fn box_as_text() {
    let puzzle = PuzzleBox {
        target: [Square::Red, Square::Green, Square::Blue, Square::White],
        grid: [
            [Square::Neutral, Square::Yellow, Square::Violet],
            [Square::Black, Square::Red, Square::Pink],
            [Square::Green, Square::Orange, Square::Blue],
        ],
    };
    assert_eq!(
        puzzle.to_text(),
        "\\R\\      /G/\n   |.|Y|V|\n   |B|R|P|\n   |G|O|U|\n   \n/U/      \\W\\\n"
    );
}

#[test]
fn square_as_text() {
    assert_eq!(Square::Neutral.symbol(), '.');
    assert_eq!(Square::Blue.symbol(), 'U');
    assert_eq!(Square::Blue.label(), "U");
    assert_eq!(Square::White.to_text(), "W");
    for n in 0..10 {
        let s = Square::from_index(n);
        assert_eq!(s.index(), n);
        assert_eq!(char_to_square(s.symbol()), s);
        assert_eq!(s.to_text(), s.symbol().to_string());
    }
}

#[test]
fn legend() {
    assert_eq!(
        generate_legend(),
        "Y: Yellow\nV: Violet\nB: Black\nR: Red\nP: Pink\nG: Green\nO: Orange\nU: Blue\nW: White\n.: Neutral (no color)\n"
    );
}

#[test]
fn characters_as_squares() {
    assert_eq!(char_to_square('Y'), Square::Yellow);
    assert_eq!(char_to_square('y'), Square::Yellow);
    assert_eq!(char_to_square('u'), Square::Blue);
    assert_eq!(char_to_square('.'), Square::Neutral);
    assert_eq!(square_from_char('w'), Some(Square::White));
    assert_eq!(square_from_char('N'), None);
    assert_eq!(square_from_char(' '), None);
    assert_eq!(square_from_char('é'), None);
}

#[test]
fn corners_from_a_line() {
    assert_eq!(line_to_corners("r\n"), [Square::Red; 4]);
    assert_eq!(
        line_to_corners("  yv \n"),
        [Square::Yellow, Square::Violet, Square::Yellow, Square::Yellow]
    );
    assert_eq!(
        line_to_corners("BRPGxx"),
        [Square::Black, Square::Red, Square::Pink, Square::Green]
    );
    assert_eq!(parse_corners("BRPGxx"), Ok(line_to_corners("BRPG")));
    assert_eq!(parse_corners("   \n"), Err(ReadError::Empty));
    assert_eq!(parse_corners(""), Err(ReadError::Empty));
    assert_eq!(parse_corners("Rx"), Err(ReadError::NotASquare('x')));
    assert_eq!(parse_corners("x"), Err(ReadError::NotASquare('x')));
    assert_eq!(parse_corners("RzxB"), Err(ReadError::NotASquare('z')));
    assert_eq!(parse_corners(" w"), Ok([Square::White; 4]));
}

#[test]
fn grid_from_lines() {
    let lines = ["YVB\n".to_string(), " r \n".to_string(), "\n".to_string()];
    let want = [
        [Square::Yellow, Square::Violet, Square::Black],
        [Square::Red, Square::Neutral, Square::Neutral],
        [Square::Neutral; 3],
    ];
    assert_eq!(lines_to_grid(lines.clone()), want);
    assert_eq!(parse_grid(lines), Ok(want));
    let long = ["gouw".to_string(), "...x".to_string(), "p.p".to_string()];
    assert_eq!(
        parse_grid(long),
        Ok([
            [Square::Green, Square::Orange, Square::Blue],
            [Square::Neutral; 3],
            [Square::Pink, Square::Neutral, Square::Pink],
        ])
    );
    let bad = ["YVB".to_string(), "Y B".to_string(), "..q".to_string()];
    assert_eq!(parse_grid(bad), Err(ReadError::NotASquare(' ')));
    let late = ["YVB".to_string(), "".to_string(), "..q".to_string()];
    assert_eq!(parse_grid(late), Err(ReadError::NotASquare('q')));
}
