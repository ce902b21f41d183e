//! Depth-first search to a bounded depth.

use crate::search::model::{callable, implements, SearchModel};
use crate::search::order::Route;
use crate::search::path::extended;
use vstd::prelude::*;

verus! {

impl<S, A> SearchModel<S, A> {
    /// What a depth-first search from `s` that takes at most `depth` steps
    /// comes to: the route to the first goal it meets, if it meets one, and
    /// whether a deeper search could meet anything more. A goal is taken at
    /// once. A state at the depth bound is left alone and counts as
    /// something more to search. A state that is not viable is left alone
    /// and counts as nothing.
    pub open spec fn visit(self, s: S, depth: nat) -> (Option<Route>, bool)
        decreases depth, 1nat, 0nat,
    {
        if (self.goal)(s) {
            (Some(Seq::empty()), true)
        } else if depth == 0 {
            (None, true)
        } else if !(self.viable)(s) {
            (None, false)
        } else {
            self.scan(s, depth, 0)
        }
    }

    /// What trying the actions of `s` from the `i`-th on comes to, each by a
    /// search of the state it leads to with one step less: the first route
    /// found, or else whether any of those searches left more to search.
    pub open spec fn scan(self, s: S, depth: nat, i: nat) -> (Option<Route>, bool)
        decreases depth, 0nat, (self.actions)(s).len() - i,
    {
        if depth == 0 || i >= (self.actions)(s).len() {
            (None, false)
        } else {
            let below = self.visit(self.next(s, i as int), (depth - 1) as nat);
            match below.0 {
                Some(route) => (Some(seq![i as int] + route), true),
                None => {
                    let rest = self.scan(s, depth, i + 1);
                    (rest.0, rest.1 || below.1)
                },
            }
        }
    }

    /// Whether a depth-first search that starts in `s` follows `route` to a
    /// goal: it ends in the first goal on its way, and every state before
    /// that is viable.
    pub open spec fn descends(self, s: S, route: Route) -> bool
        decreases route.len(),
    {
        if route.len() == 0 {
            (self.goal)(s)
        } else {
            &&& !(self.goal)(s)
            &&& (self.viable)(s)
            &&& 0 <= route[0] < (self.actions)(s).len()
            &&& self.descends(self.next(s, route[0]), route.skip(1))
        }
    }

    /// Whether a depth-first search that starts in `s` follows `route` to
    /// its end without meeting a goal: the state at the end is no goal, and
    /// every state before it is viable and no goal.
    pub open spec fn wanders(self, s: S, route: Route) -> bool
        decreases route.len(),
    {
        &&& !(self.goal)(s)
        &&& route.len() > 0 ==> {
            &&& (self.viable)(s)
            &&& 0 <= route[0] < (self.actions)(s).len()
            &&& self.wanders(self.next(s, route[0]), route.skip(1))
        }
    }
}

/// What a bounded depth-first search from `s` owes, when `before` holds the
/// actions that led to `s`: the actions of the route that the search
/// finds, after those of `before`, and the flag of the search.
pub open spec fn dfs_answer<S, A>(
    m: SearchModel<S, A>,
    s: S,
    before: Seq<A>,
    depth: nat,
    out: (Option<Vec<A>>, bool),
) -> bool {
    let want = m.visit(s, depth);
    &&& out.1 == want.1
    &&& match want.0 {
        Some(route) => out.0 matches Some(path) && path@ == before + m.path_of(s, route),
        None => out.0 is None,
    }
}

/// A route that starts with the `i`-th action of `s` goes on from the state
/// which that action leads to.
pub proof fn lemma_route_split<S, A>(m: SearchModel<S, A>, s: S, i: int, rest: Route)
    ensures
        m.state_at(s, seq![i] + rest) == m.state_at(m.next(s, i), rest),
        m.path_of(s, seq![i] + rest) == seq![(m.actions)(s)[i]] + m.path_of(m.next(s, i), rest),
    decreases rest.len(),
{
    let whole = seq![i] + rest;
    if rest.len() == 0 {
        assert(whole.drop_last() =~= Seq::<int>::empty());
        assert(m.state_at(s, whole.drop_last()) == s);
        assert(m.path_of(s, whole.drop_last()) =~= Seq::<A>::empty());
        assert(m.path_of(s, whole) =~= seq![(m.actions)(s)[i]] + m.path_of(m.next(s, i), rest));
    } else {
        lemma_route_split(m, s, i, rest.drop_last());
        assert(whole.drop_last() =~= seq![i] + rest.drop_last());
        assert(whole.last() == rest.last());
        assert(m.path_of(s, whole) =~= seq![(m.actions)(s)[i]] + m.path_of(m.next(s, i), rest));
    }
}

/// The search itself, with the functions borrowed so that it can call
/// itself.
fn dfs_visit<S, A, E, P, G, V>(
    state: &S,
    enumerate: &E,
    apply: &P,
    is_goal: &G,
    is_viable: &V,
    cur_actions: Vec<A>,
    max_depth: usize,
) -> (out: (Option<Vec<A>>, bool)) where
    A: Copy,
    E: Fn(&S) -> Vec<A>,
    P: Fn(&S, &A) -> S,
    G: Fn(&S) -> bool,
    V: Fn(&S) -> bool,

    requires
        callable(*enumerate, *apply, *is_goal, *is_viable),
    ensures
        forall|m: SearchModel<S, A>| #[trigger]
            implements(*enumerate, *apply, *is_goal, *is_viable, m) ==> dfs_answer(
                m,
                *state,
                cur_actions@,
                max_depth as nat,
                out,
            ),
    decreases max_depth,
{
    if is_goal(state) {
        proof {
            assert forall|m: SearchModel<S, A>| #[trigger]
                implements(*enumerate, *apply, *is_goal, *is_viable, m) implies dfs_answer(
                m,
                *state,
                cur_actions@,
                max_depth as nat,
                (Some(cur_actions), true),
            ) by {
                assert(cur_actions@ + m.path_of(*state, Seq::<int>::empty()) =~= cur_actions@);
            }
        }
        return (Some(cur_actions), true);
    }
    if max_depth == 0 {
        return (None, true);
    }
    if !is_viable(state) {
        return (None, false);
    }
    let acts = enumerate(state);
    let ghost depth = max_depth as nat;
    let mut any_remaining = false;
    let mut i: usize = 0;
    while i < acts.len()
        invariant
            i <= acts.len(),
            max_depth > 0,
            depth == max_depth,
            callable(*enumerate, *apply, *is_goal, *is_viable),
            call_ensures(*enumerate, (state,), acts),
            call_ensures(*is_goal, (state,), false),
            call_ensures(*is_viable, (state,), true),
            forall|m: SearchModel<S, A>| #[trigger]
                implements(*enumerate, *apply, *is_goal, *is_viable, m) ==> m.scan(
                    *state,
                    depth,
                    0,
                ).0 == m.scan(*state, depth, i as nat).0 && m.scan(*state, depth, 0).1 == (
                any_remaining || m.scan(*state, depth, i as nat).1),
        decreases acts.len() - i,
    {
        let a: A = acts[i];
        let t = apply(state, &a);
        let longer = extended(&cur_actions, a);
        let (result, remaining) = dfs_visit(
            &t,
            enumerate,
            apply,
            is_goal,
            is_viable,
            longer,
            max_depth - 1,
        );
        if result.is_some() {
            proof {
                assert forall|m: SearchModel<S, A>| #[trigger]
                    implements(*enumerate, *apply, *is_goal, *is_viable, m) implies dfs_answer(
                    m,
                    *state,
                    cur_actions@,
                    depth,
                    (result, true),
                ) by {
                    assert(acts@ == (m.actions)(*state));
                    assert(t == m.next(*state, i as int));
                    assert(dfs_answer(m, t, longer@, (depth - 1) as nat, (result, remaining)));
                    let below = m.visit(t, (depth - 1) as nat);
                    let route = below.0->Some_0;
                    lemma_route_split(m, *state, i as int, route);
                    assert(longer@ + m.path_of(t, route) =~= cur_actions@ + m.path_of(
                        *state,
                        seq![i as int] + route,
                    ));
                }
            }
            return (result, true);
        }
        proof {
            assert forall|m: SearchModel<S, A>| #[trigger]
                implements(*enumerate, *apply, *is_goal, *is_viable, m) implies m.scan(
                *state,
                depth,
                0,
            ).0 == m.scan(*state, depth, (i + 1) as nat).0 && m.scan(*state, depth, 0).1 == ((
            any_remaining || remaining) || m.scan(*state, depth, (i + 1) as nat).1) by {
                assert(acts@ == (m.actions)(*state));
                assert(t == m.next(*state, i as int));
                assert(dfs_answer(m, t, longer@, (depth - 1) as nat, (result, remaining)));
            }
        }
        if remaining {
            any_remaining = true;
        }
        i += 1;
    }
    proof {
        assert forall|m: SearchModel<S, A>| #[trigger]
            implements(*enumerate, *apply, *is_goal, *is_viable, m) implies dfs_answer(
            m,
            *state,
            cur_actions@,
            depth,
            (None, any_remaining),
        ) by {
            assert(acts@ == (m.actions)(*state));
        }
    }
    (None, any_remaining)
}

/// Searches depth first from `initial_state`, at most `max_depth` actions
/// deep, trying the actions of each state in the order in which
/// `enumerate_actions_fn` lists them. Returns the actions of `cur_actions`
/// followed by those that lead to the first goal met, if one is met, and
/// whether a deeper search could still meet one: `true` where a goal was
/// met or a state at the depth bound was left untried.
pub fn bounded_dfs<S, A, E, P, G, V>(
    initial_state: &S,
    enumerate_actions_fn: E,
    apply_action_fn: P,
    is_goal_fn: G,
    is_solvable_fn: V,
    cur_actions: Vec<A>,
    max_depth: usize,
) -> (out: (Option<Vec<A>>, bool)) where
    A: Copy,
    E: Fn(&S) -> Vec<A>,
    P: Fn(&S, &A) -> S,
    G: Fn(&S) -> bool,
    V: Fn(&S) -> bool,

    requires
        callable(enumerate_actions_fn, apply_action_fn, is_goal_fn, is_solvable_fn),
    ensures
        forall|m: SearchModel<S, A>| #[trigger]
            implements(
                enumerate_actions_fn,
                apply_action_fn,
                is_goal_fn,
                is_solvable_fn,
                m,
            ) ==> dfs_answer(m, *initial_state, cur_actions@, max_depth as nat, out),
{
    dfs_visit(
        initial_state,
        &enumerate_actions_fn,
        &apply_action_fn,
        &is_goal_fn,
        &is_solvable_fn,
        cur_actions,
        max_depth,
    )
}

} // verus!
