use blue_prince::morajai::Square::{
    Black, Blue, Green, Neutral, Orange, Pink, Red, Violet, White, Yellow,
};
use blue_prince::morajai::{
    act, act_adapt, is_solvable, is_solved, possible_actions, solve, PuzzleBox, Square,
};

#[test]
fn test_is_solved() {
    let solved_box = PuzzleBox {
        target: [Square::Red; 4],
        grid: [[Square::Red; 3]; 3],
    };
    assert!(is_solved(&solved_box));
}

#[test]
fn test_is_not_solved() {
    let unsolved_box = PuzzleBox {
        target: [Square::Blue; 4],
        grid: [[Square::Red; 3]; 3],
    };
    assert!(!is_solved(&unsolved_box));
}

#[test]
fn test_is_solved_heterogeneous() {
    let solved_box = PuzzleBox {
        target: [Square::Yellow, Square::Violet, Square::Black, Square::Red],
        grid: [
            [Square::Yellow, Square::Neutral, Square::Violet],
            [Square::Neutral, Square::Neutral, Square::Neutral],
            [Square::Black, Square::Neutral, Square::Red],
        ],
    };
    assert!(is_solved(&solved_box));
}

#[test]
fn test_possible_actions() {
    let puzzle = PuzzleBox {
        target: [Square::Neutral; 4],
        grid: [
            [Square::Neutral, Square::Yellow, Square::Neutral],
            [Square::Neutral, Square::Neutral, Square::Blue],
            [Square::Neutral, Square::Neutral, Square::Green],
        ],
    };

    let actions = possible_actions(&puzzle);
    let expected_actions = vec![(2, 2)];
    assert_eq!(
        actions, expected_actions,
        "Only possible no-op is green here"
    );
}

#[test]
fn test_solve_trivial() {
    let already_solved = PuzzleBox {
        target: [Neutral; 4],
        grid: [[Neutral; 3]; 3],
    };
    assert_eq!(solve(&already_solved, 10), Some(vec![]));
}

#[test]
fn test_solve_one_step() {
    let one_step = PuzzleBox {
        target: [Yellow; 4],
        grid: [
            [Neutral, Neutral, Yellow],
            [Yellow, Neutral, Neutral],
            [Yellow, Neutral, Yellow],
        ],
    };
    assert_eq!(solve(&one_step, 10), Some(vec![(1, 0)]));
}

#[test]
fn test_solve_multi_step() {
    let multi_step = PuzzleBox {
        target: [Green; 4],
        grid: [
            [Black, Green, Green],
            [Blue, Black, Violet],
            [Black, Green, Green],
        ],
    };
    assert_eq!(solve(&multi_step, 3), Some(vec![(0, 0), (2, 0)]));
}

#[test]
fn solve_test_solve_trivial() {
    let already_solved = PuzzleBox {
        target: [Square::Neutral; 4],
        grid: [[Square::Neutral; 3]; 3],
    };
    assert_eq!(solve(&already_solved, 10), Some(vec![]));
}

#[test]
fn solve_test_solve_one_step() {
    let one_step = PuzzleBox {
        target: [Square::Yellow; 4],
        grid: [
            [Square::Neutral, Square::Neutral, Square::Yellow],
            [Square::Yellow, Square::Neutral, Square::Neutral],
            [Square::Yellow, Square::Neutral, Square::Yellow],
        ],
    };
    assert_eq!(solve(&one_step, 10), Some(vec![(1, 0)]));
}

#[test]
fn solve_test_solve_multi_step() {
    let multi_step = PuzzleBox {
        target: [Square::Green; 4],
        grid: [
            [Square::Black, Square::Green, Square::Green],
            [Square::Blue, Square::Black, Square::Violet],
            [Square::Black, Square::Green, Square::Green],
        ],
    };
    assert_eq!(solve(&multi_step, 10), Some(vec![(0, 0), (2, 0)]));
}

#[test]
fn test_solve_case_2() {
    let case_2 = PuzzleBox {
        target: [Green; 4],
        grid: [
            [Orange, Yellow, Orange],
            [Green, Neutral, Green],
            [Blue, Green, Blue],
        ],
    };
    let solution = vec![(2, 1), (0, 0), (0, 2), (2, 1), (2, 0), (2, 2)];
    assert_eq!(solve(&case_2, solution.len()), Some(solution));
}

#[test]
fn solution_replays_to_a_solved_box() {
    let mut puzzle = PuzzleBox {
        target: [Green; 4],
        grid: [
            [Orange, Yellow, Orange],
            [Green, Neutral, Green],
            [Blue, Green, Blue],
        ],
    };
    let path = solve(&puzzle, 20).unwrap();
    assert_eq!(path.len(), 6);
    for step in &path {
        act(&mut puzzle.grid, step.0, step.1);
    }
    assert!(is_solved(&puzzle));
}

#[test]
fn every_box_counts_as_solvable() {
    let any = PuzzleBox {
        target: [Square::Red; 4],
        grid: [[Square::Neutral; 3]; 3],
    };
    assert!(is_solvable(&any));
}

#[test]
fn pressing_a_copy_leaves_the_box_alone() {
    let puzzle = PuzzleBox {
        target: [Yellow; 4],
        grid: [
            [Neutral, Neutral, Yellow],
            [Yellow, Neutral, Neutral],
            [Yellow, Neutral, Yellow],
        ],
    };
    let before = puzzle;
    let after = act_adapt(&puzzle, &(1, 0));
    assert_eq!(puzzle, before);
    assert_eq!(after.target, puzzle.target);
    assert_eq!(
        after.grid,
        [
            [Yellow, Neutral, Yellow],
            [Neutral, Neutral, Neutral],
            [Yellow, Neutral, Yellow],
        ]
    );
    assert!(is_solved(&after));
}

#[test]
fn boxes_that_no_presses_solve() {
    // The search tries every grid in reach and finds none with four blue
    // corners.
    let no_way_up = PuzzleBox {
        target: [Blue; 4],
        grid: [
            [White, White, White],
            [Yellow, White, Black],
            [Blue, Blue, Blue],
        ],
    };
    assert_eq!(solve(&no_way_up, 20), None);
    let one_corner_short = PuzzleBox {
        target: [Orange; 4],
        grid: [
            [Orange, Green, Orange],
            [Yellow, Orange, Orange],
            [Blue, Yellow, Orange],
        ],
    };
    assert_eq!(solve(&one_corner_short, 20), None);
    // More than two hundred thousand grids are in reach here.
    let one_red_only = PuzzleBox {
        target: [Red; 4],
        grid: [
            [Violet, White, Violet],
            [Blue, Neutral, Blue],
            [Pink, Red, Pink],
        ],
    };
    assert_eq!(solve(&one_red_only, 20), None);
}
