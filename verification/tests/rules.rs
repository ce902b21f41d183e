use blue_prince::morajai::{act, format_grid, possible_actions, PuzzleBox, PuzzleGrid, Square};

fn blank() -> PuzzleGrid {
    [[Square::Neutral; 3]; 3]
}

#[test]
fn test_act_gray() {
    let mut test_grid = blank();
    let target_grid = test_grid.clone();

    act(&mut test_grid, 1, 1);
    assert_eq!(
        test_grid, target_grid,
        "Acting on gray square should leave all squares unchanged"
    );
}

#[test]
fn test_act_yellow() {
    let mut test_grid = blank();
    let mut target_grid = test_grid.clone();

    test_grid[1][0] = Square::Yellow;
    target_grid[0][0] = Square::Yellow;

    act(&mut test_grid, 1, 0);
    assert_eq!(
        test_grid, target_grid,
        "Acting on yellow square should advance vertically by one and leave all other squares unchanged"
    );
}

#[test]
fn test_act_purple() {
    let mut test_grid = blank();
    let mut target_grid = test_grid.clone();

    test_grid[1][2] = Square::Violet;
    target_grid[2][2] = Square::Violet;

    act(&mut test_grid, 1, 2);
    assert_eq!(
        test_grid, target_grid,
        "Acting on purple square should advance vertically by one and leave all other squares unchanged"
    );
}

#[test]
fn test_act_black() {
    let mut test_grid = blank();
    let mut target_grid = test_grid.clone();

    test_grid[1] = [Square::Black, Square::Yellow, Square::Violet];
    target_grid[1] = [Square::Violet, Square::Black, Square::Yellow];

    act(&mut test_grid, 1, 0);
    assert_eq!(
        test_grid, target_grid,
        "Acting on black square should rotate row right and leave all other squares unchanged"
    );
}

#[test]
fn test_act_red() {
    let mut test_grid = blank();
    test_grid[0][2] = Square::Red;
    test_grid[2][0] = Square::Violet;
    test_grid[2][1] = Square::Yellow;
    let mut target_grid = test_grid.clone();

    test_grid[0][0] = Square::White;
    test_grid[0][1] = Square::Black;

    target_grid[0][0] = Square::Black;
    target_grid[0][1] = Square::Red;

    act(&mut test_grid, 0, 2);
    assert_eq!(
        test_grid, target_grid,
        "Acting on red square should change all white to black, all black to red, and leave all other squares unchanged"
    );
}

#[test]
fn test_act_green() {
    let mut test_grid = blank();
    let mut target_grid = test_grid.clone();
    test_grid[0][0] = Square::Green;
    test_grid[2][2] = Square::Yellow;
    target_grid[0][0] = Square::Yellow;
    target_grid[2][2] = Square::Green;

    act(&mut test_grid, 0, 0);
    assert_eq!(
        test_grid, target_grid,
        "Acting on green square should swap over centerpoint and leave all other squares unchanged"
    );
}

#[test]
fn test_act_orange_corner() {
    let mut test_grid = blank();
    test_grid[1][0] = Square::Yellow;
    test_grid[0][1] = Square::Yellow;
    let mut target_grid = test_grid.clone();
    test_grid[0][0] = Square::Orange;
    target_grid[0][0] = Square::Yellow;

    act(&mut test_grid, 0, 0);
    assert_eq!(
        test_grid, target_grid,
        "Acting on orange square should change to mode of surrounding (excluding grey) and leave all other squares unchanged"
    );
}

#[test]
fn test_act_orange_edge() {
    let mut test_grid = blank();
    test_grid[0][0] = Square::Yellow;
    test_grid[0][2] = Square::Violet;
    test_grid[1][1] = Square::Yellow;
    let mut target_grid = test_grid.clone();
    test_grid[0][1] = Square::Orange;
    target_grid[0][1] = Square::Yellow;

    act(&mut test_grid, 0, 1);
    assert_eq!(
        test_grid, target_grid,
        "Acting on orange square should change to mode of surrounding (excluding grey) and leave all other squares unchanged"
    );
}

#[test]
fn test_act_orange_center() {
    let mut test_grid = blank();
    test_grid[0][0] = Square::Yellow;
    test_grid[0][1] = Square::Violet;
    test_grid[0][2] = Square::Violet;
    test_grid[1][0] = Square::Yellow;
    test_grid[1][2] = Square::Yellow;
    test_grid[2][0] = Square::Violet;
    test_grid[2][1] = Square::Yellow;
    let mut target_grid = test_grid.clone();
    test_grid[1][1] = Square::Orange;
    target_grid[1][1] = Square::Yellow;

    act(&mut test_grid, 1, 1);
    assert_eq!(
        test_grid, target_grid,
        "Acting on orange square should change to mode of surrounding (excluding grey) and leave all other squares unchanged"
    );
}

#[test]
fn test_act_orange_no_change() {
    let mut test_grid = blank();
    test_grid[0][0] = Square::Orange;
    test_grid[0][1] = Square::Violet;
    test_grid[1][1] = Square::Yellow;
    let target_grid = test_grid.clone();

    act(&mut test_grid, 0, 0);
    assert_eq!(
        test_grid, target_grid,
        "Acting on orange square with no mode in surrounding squares should leave all squares unchanged"
    );
}

#[test]
fn test_orange_grey_unchanged() {
    let mut test_grid = blank();
    test_grid[0][0] = Square::Orange;
    let target_grid = test_grid.clone();

    act(&mut test_grid, 0, 0);
    assert_eq!(
        test_grid, target_grid,
        "Grey should be excluded from mode calculations; cannot change to grey"
    );
}

#[test]
fn test_act_pink_corner() {
    let mut test_grid = blank();
    let mut target_grid = test_grid.clone();

    test_grid[0][0] = Square::Pink;
    test_grid[0][1] = Square::Yellow;
    test_grid[1][1] = Square::Black;
    test_grid[1][0] = Square::Violet;

    target_grid[0][0] = Square::Pink;
    target_grid[0][1] = Square::Violet;
    target_grid[1][1] = Square::Yellow;
    target_grid[1][0] = Square::Black;

    act(&mut test_grid, 0, 0);
    assert_eq!(
        test_grid, target_grid,
        "Acting on pink square should rotate surrounding squares clockwise and leave all other squares unchanged"
    );
}

#[test]
fn test_act_pink_center() {
    let mut test_grid = [
        [Square::Neutral, Square::Yellow, Square::Black],
        [Square::Red, Square::Pink, Square::Blue],
        [Square::Green, Square::Neutral, Square::White],
    ];
    let target_grid = [
        [Square::Red, Square::Neutral, Square::Yellow],
        [Square::Green, Square::Pink, Square::Black],
        [Square::Neutral, Square::White, Square::Blue],
    ];

    act(&mut test_grid, 1, 1);
    assert_eq!(
        test_grid, target_grid,
        "Acting on pink square should rotate surrounding squares clockwise and leave all other squares unchanged"
    );
}

#[test]
fn test_act_white() {
    let mut test_grid = [
        [Square::Neutral, Square::White, Square::Pink],
        [Square::Neutral, Square::White, Square::White],
        [Square::Neutral, Square::Pink, Square::White],
    ];
    let target_grid = [
        [Square::Neutral, Square::Neutral, Square::Pink],
        [Square::White, Square::Neutral, Square::Neutral],
        [Square::Neutral, Square::Pink, Square::White],
    ];

    act(&mut test_grid, 1, 1);
    assert_eq!(
        test_grid, target_grid,
        "Acting on white square should toggle self and adjacent white to gray, adjacent grey to white, and leave all other squares unchanged"
    );
}

#[test]
fn test_act_pink_edge() {
    let mut test_grid = blank();
    let mut target_grid = test_grid.clone();

    test_grid[0][1] = Square::Pink;
    test_grid[0][0] = Square::Yellow;
    test_grid[0][2] = Square::Violet;
    test_grid[1][2] = Square::Black;
    test_grid[1][1] = Square::Red;
    test_grid[1][0] = Square::Green;

    target_grid[0][1] = Square::Pink;
    target_grid[0][0] = Square::Green;
    target_grid[0][2] = Square::Yellow;
    target_grid[1][2] = Square::Violet;
    target_grid[1][1] = Square::Black;
    target_grid[1][0] = Square::Red;

    println!("Test:\n{}", format_grid(&test_grid));
    println!("Target:\n{}", format_grid(&target_grid));

    act(&mut test_grid, 0, 1);
    println!("Result:\n{}", format_grid(&test_grid));

    assert_eq!(
        test_grid, target_grid,
        "Acting on pink square should rotate surrounding squares clockwise and leave all other squares unchanged"
    );
}

#[test]
fn blue_follows_the_centre() {
    // Blue at (2, 0) with a black centre shifts its own row.
    let mut grid = [
        [Square::Neutral, Square::Neutral, Square::Neutral],
        [Square::Neutral, Square::Black, Square::Neutral],
        [Square::Blue, Square::Red, Square::Green],
    ];
    act(&mut grid, 2, 0);
    assert_eq!(
        grid,
        [
            [Square::Neutral, Square::Neutral, Square::Neutral],
            [Square::Neutral, Square::Black, Square::Neutral],
            [Square::Green, Square::Blue, Square::Red],
        ]
    );
}

#[test]
fn blue_with_blue_or_neutral_centre_does_nothing() {
    let mut grid = blank();
    grid[0][2] = Square::Blue;
    let before = grid;
    act(&mut grid, 0, 2);
    assert_eq!(grid, before);
    grid[1][1] = Square::Blue;
    let before = grid;
    act(&mut grid, 0, 2);
    assert_eq!(grid, before);
    act(&mut grid, 1, 1);
    assert_eq!(grid, before);
}

#[test]
fn blue_following_yellow_leaves_yellow_above() {
    let mut grid = blank();
    grid[1][1] = Square::Yellow;
    grid[0][2] = Square::Red;
    grid[1][2] = Square::Blue;
    act(&mut grid, 1, 2);
    let mut want = blank();
    want[1][1] = Square::Yellow;
    want[0][2] = Square::Yellow;
    want[1][2] = Square::Red;
    assert_eq!(grid, want);
}

#[test]
fn yellow_in_top_row_and_violet_in_bottom_row_stay() {
    let mut grid = blank();
    grid[0][1] = Square::Yellow;
    grid[2][1] = Square::Violet;
    let before = grid;
    act(&mut grid, 0, 1);
    assert_eq!(grid, before);
    act(&mut grid, 2, 1);
    assert_eq!(grid, before);
}

#[test]
fn vertical_moves_keep_the_squares() {
    let mut grid = [
        [Square::Red, Square::Green, Square::Pink],
        [Square::Yellow, Square::Violet, Square::White],
        [Square::Black, Square::Orange, Square::Red],
    ];
    let mut before: Vec<Square> = grid.iter().flatten().copied().collect();
    before.sort_by_key(|s| s.index());
    act(&mut grid, 1, 0);
    assert_eq!(grid[0][0], Square::Yellow);
    assert_eq!(grid[1][0], Square::Red);
    act(&mut grid, 1, 1);
    assert_eq!(grid[2][1], Square::Violet);
    assert_eq!(grid[1][1], Square::Orange);
    let mut after: Vec<Square> = grid.iter().flatten().copied().collect();
    after.sort_by_key(|s| s.index());
    assert_eq!(before, after);
}

#[test]
fn three_black_presses_restore_the_row() {
    let start = [
        [Square::Red, Square::Green, Square::Pink],
        [Square::Black, Square::Black, Square::Black],
        [Square::Black, Square::Orange, Square::Yellow],
    ];
    let mut grid = start;
    act(&mut grid, 2, 0);
    assert_eq!(grid[2], [Square::Yellow, Square::Black, Square::Orange]);
    act(&mut grid, 2, 1);
    assert_eq!(grid[2], [Square::Orange, Square::Yellow, Square::Black]);
    act(&mut grid, 2, 2);
    assert_eq!(grid, start);
}

#[test]
fn red_repaints_in_one_step() {
    let mut grid = [
        [Square::White, Square::Black, Square::Red],
        [Square::White, Square::White, Square::Black],
        [Square::Green, Square::Neutral, Square::Blue],
    ];
    act(&mut grid, 0, 2);
    assert_eq!(
        grid,
        [
            [Square::Black, Square::Red, Square::Red],
            [Square::Black, Square::Black, Square::Red],
            [Square::Green, Square::Neutral, Square::Blue],
        ]
    );
}

#[test]
fn pink_turns_three_five_or_eight_squares() {
    // Around a corner.
    let mut grid = [
        [Square::Red, Square::Green, Square::Yellow],
        [Square::Black, Square::White, Square::Orange],
        [Square::Violet, Square::Blue, Square::Pink],
    ];
    act(&mut grid, 2, 2);
    assert_eq!(
        grid,
        [
            [Square::Red, Square::Green, Square::Yellow],
            [Square::Black, Square::Blue, Square::White],
            [Square::Violet, Square::Orange, Square::Pink],
        ]
    );
    // Around the middle of the left edge.
    let mut grid = [
        [Square::Red, Square::Green, Square::Yellow],
        [Square::Pink, Square::White, Square::Orange],
        [Square::Violet, Square::Blue, Square::Black],
    ];
    act(&mut grid, 1, 0);
    assert_eq!(
        grid,
        [
            [Square::Violet, Square::Red, Square::Yellow],
            [Square::Pink, Square::Green, Square::Orange],
            [Square::Blue, Square::White, Square::Black],
        ]
    );
}

#[test]
fn orange_tie_and_orange_mode() {
    // Two yellow against two violet: a tie.
    let mut grid = blank();
    grid[1][1] = Square::Orange;
    grid[0][0] = Square::Yellow;
    grid[0][1] = Square::Yellow;
    grid[2][1] = Square::Violet;
    grid[2][2] = Square::Violet;
    let before = grid;
    act(&mut grid, 1, 1);
    assert_eq!(grid, before);
    // A third violet breaks it.
    grid[1][0] = Square::Violet;
    act(&mut grid, 1, 1);
    assert_eq!(grid[1][1], Square::Violet);
    // Neutral squares are many but never count.
    let mut grid = blank();
    grid[0][0] = Square::Orange;
    grid[1][1] = Square::Red;
    act(&mut grid, 0, 0);
    assert_eq!(grid[0][0], Square::Red);
}

#[test]
fn white_centre_of_all_white_grid() {
    let mut grid = [[Square::White; 3]; 3];
    act(&mut grid, 1, 1);
    assert_eq!(
        grid,
        [
            [Square::White, Square::Neutral, Square::White],
            [Square::Neutral, Square::Neutral, Square::Neutral],
            [Square::White, Square::Neutral, Square::White],
        ]
    );
}

#[test]
fn white_in_a_corner_toggles_three() {
    let mut grid = [[Square::Neutral; 3]; 3];
    grid[0][0] = Square::White;
    grid[1][0] = Square::Red;
    act(&mut grid, 0, 0);
    assert_eq!(
        grid,
        [
            [Square::Neutral, Square::White, Square::Neutral],
            [Square::Red, Square::Neutral, Square::Neutral],
            [Square::Neutral, Square::Neutral, Square::Neutral],
        ]
    );
}

#[test]
fn green_in_the_centre_stays() {
    let mut grid = blank();
    grid[1][1] = Square::Green;
    grid[0][0] = Square::Red;
    let before = grid;
    act(&mut grid, 1, 1);
    assert_eq!(grid, before);
}

#[test]
fn left_out_presses_change_nothing() {
    let puzzle = PuzzleBox {
        target: [Square::Neutral; 4],
        grid: [
            [Square::Yellow, Square::Blue, Square::Neutral],
            [Square::Red, Square::Blue, Square::Green],
            [Square::Violet, Square::Violet, Square::White],
        ],
    };
    let listed = possible_actions(&puzzle);
    assert_eq!(listed, vec![(1, 0), (1, 2), (2, 2)]);
    for r in 0..3 {
        for c in 0..3 {
            if !listed.contains(&(r, c)) {
                let mut grid = puzzle.grid;
                act(&mut grid, r, c);
                assert_eq!(grid, puzzle.grid);
            }
        }
    }
}
