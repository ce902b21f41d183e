//! The mathematical model of a search problem, and what it means for
//! executable functions to implement it.

use crate::search::order::{no_later, Route};
use vstd::prelude::*;

verus! {

/// A search problem as four mathematical functions.
#[verifier::reject_recursive_types(S)]
#[verifier::reject_recursive_types(A)]
pub struct SearchModel<S, A> {
    /// The actions open in a state, in the order in which they are tried.
    pub actions: spec_fn(S) -> Seq<A>,
    /// The state that an action leads to.
    pub step: spec_fn(S, A) -> S,
    /// Whether a state is a goal.
    pub goal: spec_fn(S) -> bool,
    /// Whether a state may still lead to a goal, as far as the problem's own
    /// test can tell.
    pub viable: spec_fn(S) -> bool,
}

impl<S, A> SearchModel<S, A> {
    /// The state that the `i`-th action open in `s` leads to.
    pub open spec fn next(self, s: S, i: int) -> S {
        (self.step)(s, (self.actions)(s)[i])
    }

    /// The state at the end of a route that starts in `s`.
    pub open spec fn state_at(self, s: S, route: Route) -> S
        decreases route.len(),
    {
        if route.len() == 0 {
            s
        } else {
            self.next(self.state_at(s, route.drop_last()), route.last())
        }
    }

    /// The actions taken along a route that starts in `s`.
    pub open spec fn path_of(self, s: S, route: Route) -> Seq<A>
        decreases route.len(),
    {
        if route.len() == 0 {
            Seq::empty()
        } else {
            self.path_of(s, route.drop_last()).push(
                (self.actions)(self.state_at(s, route.drop_last()))[route.last()],
            )
        }
    }

    /// The state that a sequence of actions leads to from `s`.
    pub open spec fn follow(self, s: S, path: Seq<A>) -> S
        decreases path.len(),
    {
        if path.len() == 0 {
            s
        } else {
            (self.step)(self.follow(s, path.drop_last()), path.last())
        }
    }

    /// Whether a breadth-first search may walk `route` from `s`: each step
    /// takes an action that is open where it is taken, and leads to a viable
    /// state.
    pub open spec fn walkable(self, s: S, route: Route) -> bool
        decreases route.len(),
    {
        route.len() == 0 || {
            let before = self.state_at(s, route.drop_last());
            &&& self.walkable(s, route.drop_last())
            &&& 0 <= route.last() < (self.actions)(before).len()
            &&& (self.viable)(self.next(before, route.last()))
        }
    }

    /// Whether `route` walks from `s` to a goal.
    pub open spec fn solves(self, s: S, route: Route) -> bool {
        self.walkable(s, route) && (self.goal)(self.state_at(s, route))
    }

    /// Whether `route` is the solution that a breadth-first search meets
    /// first: it solves, and no solution comes before it.
    pub open spec fn first_solution(self, s: S, route: Route) -> bool {
        self.solves(s, route) && forall|other: Route| #[trigger]
            self.solves(s, other) ==> no_later(route, other)
    }
}

/// Whether the four functions can be called wherever a search calls them:
/// the first, third and fourth in every state, the second on every action
/// that the first has listed for the state.
pub open spec fn callable<S, A, E, P, G, V>(
    enumerate: E,
    apply: P,
    is_goal: G,
    is_viable: V,
) -> bool where E: Fn(&S) -> Vec<A>, P: Fn(&S, &A) -> S, G: Fn(&S) -> bool, V: Fn(&S) -> bool {
    &&& forall|s: S| call_requires(enumerate, (&s,))
    &&& forall|s: S| call_requires(is_goal, (&s,))
    &&& forall|s: S| call_requires(is_viable, (&s,))
    &&& forall|s: S, acts: Vec<A>, i: int|
        call_ensures(enumerate, (&s,), acts) && 0 <= i < acts@.len() ==> call_requires(
            apply,
            (&s, &acts@[i]),
        )
}

/// Whether the four functions compute the model: whatever one of them
/// returns is what the model says.
pub open spec fn implements<S, A, E, P, G, V>(
    enumerate: E,
    apply: P,
    is_goal: G,
    is_viable: V,
    m: SearchModel<S, A>,
) -> bool where E: Fn(&S) -> Vec<A>, P: Fn(&S, &A) -> S, G: Fn(&S) -> bool, V: Fn(&S) -> bool {
    &&& forall|s: S, acts: Vec<A>| call_ensures(enumerate, (&s,), acts) ==> acts@ == (m.actions)(s)
    &&& forall|s: S, a: A, t: S| call_ensures(apply, (&s, &a), t) ==> t == (m.step)(s, a)
    &&& forall|s: S, b: bool| call_ensures(is_goal, (&s,), b) ==> b == (m.goal)(s)
    &&& forall|s: S, b: bool| call_ensures(is_viable, (&s,), b) ==> b == (m.viable)(s)
}

/// Whether `key` gives different states different keys.
pub open spec fn injective<S>(key: spec_fn(S) -> u64) -> bool {
    forall|s: S, t: S| #![trigger key(s), key(t)] key(s) == key(t) ==> s == t
}

/// Whether `state_key` computes `key`, and `key` tells any two states apart.
pub open spec fn tells_apart<S, K: Fn(&S) -> u64>(state_key: K, key: spec_fn(S) -> u64) -> bool {
    &&& forall|s: S, x: u64| call_ensures(state_key, (&s,), x) ==> x == key(s)
    &&& injective(key)
}

/// Whether the five functions compute the model `m` and the key `key`, and
/// `key` tells any two states apart.
pub open spec fn models<S, A, E, P, G, V, K>(
    enumerate: E,
    apply: P,
    is_goal: G,
    is_viable: V,
    state_key: K,
    m: SearchModel<S, A>,
    key: spec_fn(S) -> u64,
) -> bool where
    E: Fn(&S) -> Vec<A>,
    P: Fn(&S, &A) -> S,
    G: Fn(&S) -> bool,
    V: Fn(&S) -> bool,
    K: Fn(&S) -> u64,
 {
    implements(enumerate, apply, is_goal, is_viable, m) && tells_apart(state_key, key)
}

/// What a breadth-first search from `s` owes: the path of the first
/// solution, or nothing where nothing solves.
pub open spec fn bfs_answer<S, A>(m: SearchModel<S, A>, s: S, found: Option<Vec<A>>) -> bool {
    match found {
        Some(path) => exists|route: Route| #[trigger]
            m.first_solution(s, route) && path@ == m.path_of(s, route),
        None => forall|route: Route| !#[trigger] m.solves(s, route),
    }
}

} // verus!
