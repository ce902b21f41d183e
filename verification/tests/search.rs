use blue_prince::morajai::{
    act_adapt, is_solvable, is_solved, possible_actions, solve, state_key, PuzzleBox, Square,
};
use blue_prince::search::{bfs, bounded_dfs};

// A walk along the numbers from 0 to 10: a step adds 1 or 2, and stays
// where it is when it would pass 10.
fn steps(_at: &u32) -> Vec<u8> {
    vec![1, 2]
}

fn walk(at: &u32, step: &u8) -> u32 {
    let to = *at + *step as u32;
    if to > 10 {
        *at
    } else {
        to
    }
}

fn at_five(at: &u32) -> bool {
    *at == 5
}

fn at_eleven(at: &u32) -> bool {
    *at == 11
}

fn anywhere(_at: &u32) -> bool {
    true
}

fn not_three(at: &u32) -> bool {
    *at != 3
}

fn number(at: &u32) -> u64 {
    *at as u64
}

#[test]
fn bfs_finds_the_first_of_the_shortest_paths() {
    // 1+2+2, 2+1+2 and 2+2+1 all reach 5 in three steps.
    assert_eq!(
        bfs(&0u32, steps, walk, at_five, anywhere, number),
        Some(vec![1, 2, 2])
    );
}

#[test]
fn bfs_on_a_goal_takes_no_step() {
    assert_eq!(bfs(&5u32, steps, walk, at_five, anywhere, number), Some(vec![]));
}

#[test]
fn bfs_gives_none_when_the_goal_is_out_of_reach() {
    assert_eq!(bfs(&0u32, steps, walk, at_eleven, anywhere, number), None);
}

#[test]
fn bfs_keeps_off_states_that_are_not_viable() {
    // Without 3 the first shortest way to 5 is 2+2+1.
    assert_eq!(
        bfs(&0u32, steps, walk, at_five, not_three, number),
        Some(vec![2, 2, 1])
    );
    // A goal that is not viable is never entered.
    let no_five = |at: &u32| *at != 5;
    assert_eq!(bfs(&0u32, steps, walk, at_five, no_five, number), None);
}

#[test]
fn bfs_takes_closures() {
    let goal = 7u32;
    let found = bfs(
        &0u32,
        |_at: &u32| vec![2u8, 1u8],
        |at: &u32, step: &u8| (*at + *step as u32).min(10),
        |at: &u32| *at == goal,
        |_at: &u32| true,
        |at: &u32| *at as u64,
    );
    assert_eq!(found, Some(vec![2, 2, 2, 1]));
}

#[test]
fn dfs_takes_the_first_path_in_its_order() {
    // Deep enough, the search walks 1+1+1+1+1 before anything else.
    assert_eq!(
        bounded_dfs(&0u32, steps, walk, at_five, anywhere, vec![], 5),
        (Some(vec![1, 1, 1, 1, 1]), true)
    );
    // With three steps it has to take 1+2+2.
    assert_eq!(
        bounded_dfs(&0u32, steps, walk, at_five, anywhere, vec![], 3),
        (Some(vec![1, 2, 2]), true)
    );
}

#[test]
fn dfs_reports_what_is_left() {
    // Two steps do not reach 5, and states at the bound were left untried.
    assert_eq!(
        bounded_dfs(&0u32, steps, walk, at_five, anywhere, vec![], 2),
        (None, true)
    );
    // At depth 0 a state that is no goal is left untried.
    assert_eq!(
        bounded_dfs(&0u32, steps, walk, at_five, anywhere, vec![], 0),
        (None, true)
    );
    // A state that is not viable has nothing left below it.
    let nothing = |_at: &u32| false;
    assert_eq!(
        bounded_dfs(&0u32, steps, walk, at_five, nothing, vec![], 4),
        (None, false)
    );
    // A state without actions has nothing left either.
    let none = |_at: &u32| Vec::<u8>::new();
    assert_eq!(
        bounded_dfs(&0u32, none, walk, at_five, anywhere, vec![], 4),
        (None, false)
    );
}

#[test]
fn dfs_takes_a_goal_at_once_and_keeps_what_came_before() {
    assert_eq!(
        bounded_dfs(&5u32, steps, walk, at_five, anywhere, vec![9, 9], 0),
        (Some(vec![9, 9]), true)
    );
    assert_eq!(
        bounded_dfs(&3u32, steps, walk, at_five, anywhere, vec![9], 4),
        (Some(vec![9, 1, 1]), true)
    );
    // A goal is taken even where it is not viable.
    let nothing = |_at: &u32| false;
    assert_eq!(
        bounded_dfs(&5u32, steps, walk, at_five, nothing, vec![], 3),
        (Some(vec![]), true)
    );
}

#[test]
fn bfs_path_is_no_longer_than_dfs_path() {
    let puzzle = PuzzleBox {
        target: [Square::Green; 4],
        grid: [
            [Square::Black, Square::Green, Square::Green],
            [Square::Blue, Square::Black, Square::Violet],
            [Square::Black, Square::Green, Square::Green],
        ],
    };
    let wide = solve(&puzzle, 4).unwrap();
    for depth in 0..5 {
        let (deep, left) = bounded_dfs(
            &puzzle,
            possible_actions,
            act_adapt,
            is_solved,
            is_solvable,
            vec![],
            depth,
        );
        assert!(left);
        match deep {
            Some(path) => {
                assert!(depth >= 2);
                assert!(wide.len() <= path.len());
                assert!(path.len() <= depth);
                let mut at = puzzle;
                for step in &path {
                    at = act_adapt(&at, step);
                }
                assert!(is_solved(&at));
            }
            None => assert!(depth < 2),
        }
    }
}

#[test]
fn bfs_on_the_puzzle_is_what_solve_does() {
    let puzzle = PuzzleBox {
        target: [Square::Yellow; 4],
        grid: [
            [Square::Neutral, Square::Neutral, Square::Yellow],
            [Square::Yellow, Square::Neutral, Square::Neutral],
            [Square::Yellow, Square::Neutral, Square::Yellow],
        ],
    };
    let found = bfs(
        &puzzle,
        possible_actions,
        act_adapt,
        is_solved,
        is_solvable,
        state_key,
    );
    assert_eq!(found, solve(&puzzle, 0));
    assert_eq!(found, Some(vec![(1, 0)]));
}

#[test]
fn solve_gives_none_for_a_box_that_cannot_be_solved() {
    // Nothing can be pressed.
    let stuck = PuzzleBox {
        target: [Square::Red; 4],
        grid: [[Square::Neutral; 3]; 3],
    };
    assert_eq!(solve(&stuck, 10), None);
    // Presses change the grid, but no red square can ever come up.
    let no_red = PuzzleBox {
        target: [Square::Red; 4],
        grid: [
            [Square::Green, Square::Yellow, Square::Green],
            [Square::Violet, Square::Pink, Square::Violet],
            [Square::Green, Square::Yellow, Square::Green],
        ],
    };
    assert_eq!(solve(&no_red, 10), None);
}

#[test]
fn state_key_tells_boxes_apart() {
    let a = PuzzleBox {
        target: [Square::Red; 4],
        grid: [[Square::Neutral; 3]; 3],
    };
    let mut b = a;
    b.grid[2][2] = Square::Yellow;
    let mut c = a;
    c.target[0] = Square::White;
    assert_eq!(state_key(&a), 4444000000000);
    assert_eq!(state_key(&b), 4444000000001);
    assert_eq!(state_key(&c), 9444000000000);
    let full = PuzzleBox {
        target: [Square::White; 4],
        grid: [[Square::White; 3]; 3],
    };
    assert_eq!(state_key(&full), 9999999999999);
}
