//! What follows from the contracts of the two searches.

use crate::search::dfs::lemma_route_split;
use crate::search::model::SearchModel;
use crate::search::order::{
    dives_before,
    lemma_no_later_antisymmetric,
    lemma_precedes_length,
    Route,
};
use vstd::prelude::*;

verus! {

/// A path has one action for each step of its route.
pub proof fn lemma_path_len<S, A>(m: SearchModel<S, A>, s: S, route: Route)
    ensures
        m.path_of(s, route).len() == route.len(),
    decreases route.len(),
{
    if route.len() > 0 {
        lemma_path_len(m, s, route.drop_last());
    }
}

/// The actions taken along a route lead to the state at its end.
pub proof fn lemma_follow_path<S, A>(m: SearchModel<S, A>, s: S, route: Route)
    ensures
        m.follow(s, m.path_of(s, route)) == m.state_at(s, route),
    decreases route.len(),
{
    if route.len() > 0 {
        lemma_follow_path(m, s, route.drop_last());
        let before = m.path_of(s, route.drop_last());
        let a = (m.actions)(m.state_at(s, route.drop_last()))[route.last()];
        assert(before.push(a).drop_last() =~= before);
    }
}

/// The actions of a solution lead to a goal.
pub proof fn lemma_solution_leads_to_goal<S, A>(m: SearchModel<S, A>, s: S, route: Route)
    requires
        m.solves(s, route),
    ensures
        (m.goal)(m.follow(s, m.path_of(s, route))),
{
    lemma_follow_path(m, s, route);
}

/// There is at most one first solution: what a breadth-first search returns
/// is fixed by the problem.
pub proof fn lemma_first_solution_unique<S, A>(m: SearchModel<S, A>, s: S, a: Route, b: Route)
    requires
        m.first_solution(s, a),
        m.first_solution(s, b),
    ensures
        a == b,
{
    assert(m.solves(s, a));
    assert(m.solves(s, b));
    lemma_no_later_antisymmetric(a, b);
}

/// No solution is shorter than the first solution: a breadth-first search
/// returns a path of the least length that solves.
pub proof fn lemma_first_solution_shortest<S, A>(
    m: SearchModel<S, A>,
    s: S,
    first: Route,
    other: Route,
)
    requires
        m.first_solution(s, first),
        m.solves(s, other),
    ensures
        first.len() <= other.len(),
        m.path_of(s, first).len() <= m.path_of(s, other).len(),
{
    lemma_precedes_length(first, other);
    lemma_path_len(m, s, first);
    lemma_path_len(m, s, other);
}

/// Where the start is a goal already, the first solution takes no action.
pub proof fn lemma_solved_start_takes_nothing<S, A>(m: SearchModel<S, A>, s: S, first: Route)
    requires
        (m.goal)(s),
        m.first_solution(s, first),
    ensures
        first == Seq::<int>::empty(),
        m.path_of(s, first) == Seq::<A>::empty(),
{
    let none = Seq::<int>::empty();
    assert(m.solves(s, none));
    lemma_precedes_length(first, none);
    assert(first =~= none);
}

/// A route that can be walked from the state which the `i`-th action of `s`
/// leads to can be walked from `s` after that action, if the state is
/// viable.
pub proof fn lemma_walkable_split<S, A>(m: SearchModel<S, A>, s: S, i: int, rest: Route)
    requires
        0 <= i < (m.actions)(s).len(),
        (m.viable)(m.next(s, i)),
        m.walkable(m.next(s, i), rest),
    ensures
        m.walkable(s, seq![i] + rest),
    decreases rest.len(),
{
    let whole = seq![i] + rest;
    if rest.len() == 0 {
        assert(whole.drop_last() =~= Seq::<int>::empty());
        assert(m.state_at(s, whole.drop_last()) == s);
        assert(m.walkable(s, whole.drop_last()));
    } else {
        lemma_walkable_split(m, s, i, rest.drop_last());
        lemma_route_split(m, s, i, rest.drop_last());
        assert(whole.drop_last() =~= seq![i] + rest.drop_last());
        assert(whole.last() == rest.last());
        assert(m.walkable(s, whole.drop_last()));
        assert(m.state_at(s, whole.drop_last()) == m.state_at(m.next(s, i), rest.drop_last()));
    }
}

/// A route found by a depth-first search is within the depth bound and is
/// one that such a search follows to a goal; and a search that finds a
/// route reports that more may be found.
pub proof fn lemma_visit_sound<S, A>(m: SearchModel<S, A>, s: S, depth: nat)
    ensures
        m.visit(s, depth).0 matches Some(route) ==> route.len() <= depth && m.descends(s, route)
            && m.visit(s, depth).1,
    decreases depth, 1nat, 0nat,
{
    if !(m.goal)(s) && depth > 0 && (m.viable)(s) {
        lemma_scan_sound(m, s, depth, 0);
    }
}

/// The same of a search that starts at the `i`-th action of a state.
pub proof fn lemma_scan_sound<S, A>(m: SearchModel<S, A>, s: S, depth: nat, i: nat)
    requires
        depth > 0,
        !(m.goal)(s),
        (m.viable)(s),
    ensures
        m.scan(s, depth, i).0 matches Some(route) ==> route.len() <= depth && m.descends(s, route)
            && m.scan(s, depth, i).1,
    decreases depth, 0nat, (m.actions)(s).len() - i,
{
    if i < (m.actions)(s).len() {
        let t = m.next(s, i as int);
        let below = m.visit(t, (depth - 1) as nat);
        lemma_visit_sound(m, t, (depth - 1) as nat);
        match below.0 {
            Some(rest) => {
                let route = seq![i as int] + rest;
                assert(route.skip(1) =~= rest);
            },
            None => {
                lemma_scan_sound(m, s, depth, i + 1);
            },
        }
    }
}

/// Where a route that a depth-first search follows to a goal is within the
/// depth bound, the search finds a route.
pub proof fn lemma_visit_finds<S, A>(m: SearchModel<S, A>, s: S, depth: nat, route: Route)
    requires
        m.descends(s, route),
        route.len() <= depth,
    ensures
        m.visit(s, depth).0 is Some,
    decreases depth, 1nat, 0nat,
{
    if route.len() > 0 {
        lemma_scan_finds(m, s, depth, 0, route);
    }
}

/// The same of a search that starts at the `i`-th action of a state, for a
/// route whose first action is that one or a later one.
pub proof fn lemma_scan_finds<S, A>(m: SearchModel<S, A>, s: S, depth: nat, i: nat, route: Route)
    requires
        m.descends(s, route),
        0 < route.len() <= depth,
        i <= route[0],
    ensures
        m.scan(s, depth, i).0 is Some,
    decreases depth, 0nat, (m.actions)(s).len() - i,
{
    let t = m.next(s, i as int);
    let below = m.visit(t, (depth - 1) as nat);
    if below.0 is None {
        if i == route[0] {
            lemma_visit_finds(m, t, (depth - 1) as nat, route.skip(1));
        } else {
            lemma_scan_finds(m, s, depth, i + 1, route);
        }
    }
}

/// The route that a depth-first search finds is the first in its order
/// among the routes within the depth bound that lead it to a goal.
pub proof fn lemma_visit_first<S, A>(m: SearchModel<S, A>, s: S, depth: nat, other: Route)
    requires
        m.descends(s, other),
        other.len() <= depth,
    ensures
        m.visit(s, depth).0 matches Some(route) && (route == other || dives_before(route, other)),
    decreases depth, 1nat, 0nat,
{
    if other.len() > 0 {
        lemma_scan_first(m, s, depth, 0, other);
    } else {
        assert(other =~= Seq::<int>::empty());
    }
}

/// The same of a search that starts at the `i`-th action of a state, for a
/// route whose first action is that one or a later one.
pub proof fn lemma_scan_first<S, A>(m: SearchModel<S, A>, s: S, depth: nat, i: nat, other: Route)
    requires
        m.descends(s, other),
        0 < other.len() <= depth,
        i <= other[0],
    ensures
        m.scan(s, depth, i).0 matches Some(route) && (route == other || dives_before(route, other)),
    decreases depth, 0nat, (m.actions)(s).len() - i,
{
    let t = m.next(s, i as int);
    let below = m.visit(t, (depth - 1) as nat);
    match below.0 {
        Some(rest) => {
            let route = seq![i as int] + rest;
            assert(route.skip(1) =~= rest);
            if i == other[0] {
                lemma_visit_first(m, t, (depth - 1) as nat, other.skip(1));
                if rest == other.skip(1) {
                    assert(route =~= other);
                }
            }
        },
        None => {
            if i == other[0] {
                lemma_visit_finds(m, t, (depth - 1) as nat, other.skip(1));
            } else {
                lemma_scan_first(m, s, depth, i + 1, other);
            }
        },
    }
}

/// A route that a depth-first search follows to a goal ends in a goal, and
/// so do its actions.
pub proof fn lemma_descends_ends_in_goal<S, A>(m: SearchModel<S, A>, s: S, route: Route)
    requires
        m.descends(s, route),
    ensures
        (m.goal)(m.state_at(s, route)),
        (m.goal)(m.follow(s, m.path_of(s, route))),
    decreases route.len(),
{
    if route.len() > 0 {
        let i = route[0];
        let rest = route.skip(1);
        lemma_descends_ends_in_goal(m, m.next(s, i), rest);
        lemma_route_split(m, s, i, rest);
        assert(route =~= seq![i] + rest);
    }
    lemma_follow_path(m, s, route);
}

/// Where a depth-first search finds nothing and reports that nothing is
/// left, no depth-first search finds anything, however deep.
pub proof fn lemma_visit_exhausted<S, A>(m: SearchModel<S, A>, s: S, depth: nat, route: Route)
    requires
        m.visit(s, depth) == (None::<Route>, false),
    ensures
        !m.descends(s, route),
    decreases depth, 1nat, 0nat,
{
    if (m.viable)(s) && route.len() > 0 && 0 <= route[0] < (m.actions)(s).len() {
        lemma_scan_exhausted(m, s, depth, 0, route);
    }
}

/// The same of a search that starts at the `i`-th action of a state, for a
/// route whose first action is that one or a later one.
pub proof fn lemma_scan_exhausted<S, A>(
    m: SearchModel<S, A>,
    s: S,
    depth: nat,
    i: nat,
    route: Route,
)
    requires
        depth > 0,
        m.scan(s, depth, i) == (None::<Route>, false),
        route.len() > 0,
        i <= route[0] < (m.actions)(s).len(),
    ensures
        !m.descends(m.next(s, route[0]), route.skip(1)),
    decreases depth, 0nat, (m.actions)(s).len() - i,
{
    let t = m.next(s, i as int);
    if i == route[0] {
        lemma_visit_exhausted(m, t, (depth - 1) as nat, route.skip(1));
    } else {
        lemma_scan_exhausted(m, s, depth, i + 1, route);
    }
}

/// Where a depth-first search finds nothing and reports that something is
/// left, it has followed some route to the depth bound without meeting a
/// goal.
pub proof fn lemma_visit_cut_short<S, A>(m: SearchModel<S, A>, s: S, depth: nat) -> (route: Route)
    requires
        m.visit(s, depth) == (None::<Route>, true),
    ensures
        route.len() == depth,
        m.wanders(s, route),
    decreases depth, 1nat, 0nat,
{
    if depth == 0 {
        Seq::empty()
    } else {
        lemma_scan_cut_short(m, s, depth, 0)
    }
}

/// The same of a search that starts at the `i`-th action of a state.
pub proof fn lemma_scan_cut_short<S, A>(m: SearchModel<S, A>, s: S, depth: nat, i: nat) -> (route:
    Route)
    requires
        depth > 0,
        !(m.goal)(s),
        (m.viable)(s),
        m.scan(s, depth, i) == (None::<Route>, true),
    ensures
        route.len() == depth,
        m.wanders(s, route),
    decreases depth, 0nat, (m.actions)(s).len() - i,
{
    let t = m.next(s, i as int);
    let below = m.visit(t, (depth - 1) as nat);
    if below.1 {
        let rest = lemma_visit_cut_short(m, t, (depth - 1) as nat);
        let route = seq![i as int] + rest;
        assert(route.skip(1) =~= rest);
        route
    } else {
        lemma_scan_cut_short(m, s, depth, i + 1)
    }
}

/// Where a depth-first search can follow a route to the depth bound without
/// meeting a goal, it finds a route to a goal or reports that something is
/// left.
pub proof fn lemma_visit_reports_cut<S, A>(m: SearchModel<S, A>, s: S, depth: nat, route: Route)
    requires
        m.wanders(s, route),
        route.len() == depth,
    ensures
        m.visit(s, depth).1,
    decreases depth, 1nat, 0nat,
{
    if depth > 0 {
        lemma_scan_reports_cut(m, s, depth, 0, route);
    }
}

/// The same of a search that starts at the `i`-th action of a state, for a
/// route whose first action is that one or a later one.
pub proof fn lemma_scan_reports_cut<S, A>(
    m: SearchModel<S, A>,
    s: S,
    depth: nat,
    i: nat,
    route: Route,
)
    requires
        m.wanders(s, route),
        0 < route.len() == depth,
        i <= route[0],
    ensures
        m.scan(s, depth, i).1,
    decreases depth, 0nat, (m.actions)(s).len() - i,
{
    let t = m.next(s, i as int);
    let below = m.visit(t, (depth - 1) as nat);
    if below.0 is None {
        if i == route[0] {
            lemma_visit_reports_cut(m, t, (depth - 1) as nat, route.skip(1));
        } else {
            lemma_scan_reports_cut(m, s, depth, i + 1, route);
        }
    }
}

/// Where every goal is viable, a route that a depth-first search follows to
/// a goal is a solution for a breadth-first search too.
pub proof fn lemma_descends_solves<S, A>(m: SearchModel<S, A>, s: S, route: Route)
    requires
        forall|t: S| #[trigger] (m.goal)(t) ==> (m.viable)(t),
        m.descends(s, route),
    ensures
        m.solves(s, route),
    decreases route.len(),
{
    if route.len() > 0 {
        let i = route[0];
        let rest = route.skip(1);
        let t = m.next(s, i);
        lemma_descends_solves(m, t, rest);
        assert(m.descends(t, rest));
        assert((m.viable)(t)) by {
            if rest.len() == 0 {
                assert((m.goal)(t));
            } else {
                assert((m.viable)(t));
            }
        }
        lemma_walkable_split(m, s, i, rest);
        lemma_route_split(m, s, i, rest);
        assert(route =~= seq![i] + rest);
    } else {
        assert(route =~= Seq::<int>::empty());
    }
}

/// Where every goal is viable, the path of a breadth-first search is no
/// longer than the path that a depth-first search finds, whatever its depth
/// bound.
pub proof fn lemma_bfs_no_longer_than_dfs<S, A>(
    m: SearchModel<S, A>,
    s: S,
    depth: nat,
    first: Route,
)
    requires
        forall|t: S| #[trigger] (m.goal)(t) ==> (m.viable)(t),
        m.first_solution(s, first),
        m.visit(s, depth).0 is Some,
    ensures
        first.len() <= m.visit(s, depth).0->Some_0.len(),
        m.path_of(s, first).len() <= m.path_of(s, m.visit(s, depth).0->Some_0).len(),
{
    let deep = m.visit(s, depth).0->Some_0;
    lemma_visit_sound(m, s, depth);
    lemma_descends_solves(m, s, deep);
    lemma_first_solution_shortest(m, s, first, deep);
}

} // verus!
