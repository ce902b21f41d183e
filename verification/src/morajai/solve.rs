//! Solving a puzzle box.

use crate::morajai::grid::{is_solved, solved, PuzzleBox};
use crate::morajai::key::{key_of, lemma_key_injective, state_key};
use crate::morajai::moves::{
    idle,
    is_solvable,
    lemma_idle_changes_nothing,
    lemma_moves_are_the_busy_cells,
    lemma_moves_in_grid,
    moves,
    possible_actions,
};
use crate::morajai::press::act;
use crate::morajai::rules::activate;
use crate::search::bfs::bfs;
use crate::search::laws::{
    lemma_first_solution_shortest,
    lemma_follow_path,
    lemma_path_len,
    lemma_solved_start_takes_nothing,
};
use crate::search::model::{bfs_answer, injective, models, SearchModel};
use crate::search::order::Route;
use vstd::prelude::*;

verus! {

/// The box after a press at the cell `a`: the grid changes, the targets
/// stay.
pub open spec fn pressed(p: PuzzleBox, a: (usize, usize)) -> PuzzleBox {
    PuzzleBox { target: p.target, grid: activate(p.grid, a.0 as int, a.1 as int) }
}

/// The puzzle as a search problem: the states are the boxes, the actions
/// the presses worth trying, the goal a solved box. Every box is viable.
pub open spec fn puzzle_model() -> SearchModel<PuzzleBox, (usize, usize)> {
    SearchModel {
        actions: |p: PuzzleBox| moves(p.grid),
        step: |p: PuzzleBox, a: (usize, usize)| pressed(p, a),
        goal: |p: PuzzleBox| solved(p),
        viable: |p: PuzzleBox| true,
    }
}

/// The box after a sequence of presses, one after the other.
pub open spec fn replay(p: PuzzleBox, presses: Seq<(usize, usize)>) -> PuzzleBox {
    puzzle_model().follow(p, presses)
}

/// Whether every press names a cell of the grid.
pub open spec fn on_grid(presses: Seq<(usize, usize)>) -> bool {
    forall|k: int| 0 <= k < presses.len() ==> (#[trigger] presses[k]).0 < 3 && presses[k].1 < 3
}

/// The presses along a route of the search name cells of the grid.
pub proof fn lemma_route_stays_on_grid(p: PuzzleBox, route: Route)
    requires
        puzzle_model().walkable(p, route),
    ensures
        on_grid(puzzle_model().path_of(p, route)),
    decreases route.len(),
{
    if route.len() > 0 {
        lemma_route_stays_on_grid(p, route.drop_last());
        lemma_moves_in_grid(puzzle_model().state_at(p, route.drop_last()).grid);
    }
}

/// Whatever a sequence of presses comes to, the search can come to along a
/// route that is no longer: a press that is not worth trying changes
/// nothing, and every other press is one that the search tries.
pub proof fn lemma_presses_have_route(p: PuzzleBox, presses: Seq<(usize, usize)>) -> (route: Route)
    requires
        on_grid(presses),
    ensures
        puzzle_model().walkable(p, route),
        route.len() <= presses.len(),
        puzzle_model().state_at(p, route) == replay(p, presses),
    decreases presses.len(),
{
    let m = puzzle_model();
    if presses.len() == 0 {
        Seq::empty()
    } else {
        let earlier = presses.drop_last();
        let a = presses.last();
        assert forall|k: int| 0 <= k < earlier.len() implies (#[trigger] earlier[k]).0 < 3
            && earlier[k].1 < 3 by {
            assert(earlier[k] == presses[k]);
        }
        let before = lemma_presses_have_route(p, earlier);
        let at = replay(p, earlier);
        lemma_moves_are_the_busy_cells(at.grid, a.0, a.1);
        if idle(at.grid, a.0 as int, a.1 as int) {
            lemma_idle_changes_nothing(at.grid, a.0 as int, a.1 as int);
            assert(pressed(at, a) == at);
            before
        } else {
            let i = moves(at.grid).index_of(a);
            let route = before.push(i);
            assert(route.drop_last() =~= before);
            route
        }
    }
}

/// The box that a press leads to. The box given stays as it is.
pub fn act_adapt(puzzle: &PuzzleBox, action: &(usize, usize)) -> (next: PuzzleBox)
    requires
        action.0 < 3,
        action.1 < 3,
    ensures
        next == pressed(*puzzle, *action),
{
    let mut next = *puzzle;
    act(&mut next.grid, action.0, action.1);
    next
}

/// Finds the presses that solve the box: the path of the first solution
/// that a breadth-first search of the puzzle meets, which is a shortest
/// one. Returns `None` where no sequence of presses solves the box, and an
/// empty path where the box is solved as it stands. The depth hint is not
/// used: the search ends when every box in reach has been tried.
pub fn solve(puzzle_box: &PuzzleBox, _max_depth: usize) -> (found: Option<Vec<(usize, usize)>>)
    ensures
        bfs_answer(puzzle_model(), *puzzle_box, found),
        match found {
            Some(path) => {
                &&& on_grid(path@)
                &&& solved(replay(*puzzle_box, path@))
                &&& forall|presses: Seq<(usize, usize)>|
                    on_grid(presses) && solved(#[trigger] replay(*puzzle_box, presses))
                        ==> path@.len() <= presses.len()
            },
            None => forall|presses: Seq<(usize, usize)>|
                on_grid(presses) ==> !solved(#[trigger] replay(*puzzle_box, presses)),
        },
        solved(*puzzle_box) ==> (found matches Some(path) && path@.len() == 0),
{
    let found = bfs(
        puzzle_box,
        possible_actions,
        act_adapt,
        is_solved,
        is_solvable,
        state_key,
    );
    proof {
        let m = puzzle_model();
        let key = |p: PuzzleBox| key_of(p);
        assert(injective(key)) by {
            assert forall|p: PuzzleBox, q: PuzzleBox| #![trigger key(p), key(q)] key(p) == key(
                q,
            ) implies p == q by {
                lemma_key_injective(p, q);
            }
        }
        assert(models(possible_actions, act_adapt, is_solved, is_solvable, state_key, m, key));
        assert(bfs_answer(m, *puzzle_box, found));
        if found is Some {
            let path = found->Some_0;
            let first = choose|route: Route| #[trigger]
                m.first_solution(*puzzle_box, route) && path@ == m.path_of(*puzzle_box, route);
            if solved(*puzzle_box) {
                lemma_solved_start_takes_nothing(m, *puzzle_box, first);
            }
            lemma_route_stays_on_grid(*puzzle_box, first);
            lemma_follow_path(m, *puzzle_box, first);
            lemma_path_len(m, *puzzle_box, first);
            assert forall|presses: Seq<(usize, usize)>|
                on_grid(presses) && solved(
                    #[trigger] replay(*puzzle_box, presses),
                ) implies path@.len() <= presses.len() by {
                let route = lemma_presses_have_route(*puzzle_box, presses);
                assert(m.solves(*puzzle_box, route));
                lemma_first_solution_shortest(m, *puzzle_box, first, route);
            }
        } else {
            assert forall|presses: Seq<(usize, usize)>| on_grid(presses) implies !solved(
                #[trigger] replay(*puzzle_box, presses),
            ) by {
                let route = lemma_presses_have_route(*puzzle_box, presses);
                assert(!m.solves(*puzzle_box, route));
            }
            if solved(*puzzle_box) {
                assert(m.solves(*puzzle_box, Seq::<int>::empty()));
            }
        }
    }
    found
}

} // verus!
