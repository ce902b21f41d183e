//! Routes and the order in which a breadth-first search meets them.

use vstd::prelude::*;

verus! {

/// A way through the search graph: at each step, the position of the action
/// taken in the list of actions open in the state reached so far.
pub type Route = Seq<int>;

/// Whether route `a` comes strictly before route `b`: a shorter route comes
/// before a longer one, and of two routes of one length the one that takes
/// the earlier action where they first part.
pub open spec fn precedes(a: Route, b: Route) -> bool
    decreases a.len(),
{
    a.len() < b.len() || (a.len() == b.len() && a.len() > 0 && (precedes(
        a.drop_last(),
        b.drop_last(),
    ) || (a.drop_last() == b.drop_last() && a.last() < b.last())))
}

/// Whether route `a` is `b` or comes before it.
pub open spec fn no_later(a: Route, b: Route) -> bool {
    a == b || precedes(a, b)
}

/// No route comes before itself.
pub proof fn lemma_precedes_irreflexive(a: Route)
    ensures
        !precedes(a, a),
    decreases a.len(),
{
    if a.len() > 0 {
        lemma_precedes_irreflexive(a.drop_last());
    }
}

/// A route that comes before another is no longer than it.
pub proof fn lemma_precedes_length(a: Route, b: Route)
    requires
        no_later(a, b),
    ensures
        a.len() <= b.len(),
{
}

/// The order is transitive.
pub proof fn lemma_precedes_transitive(a: Route, b: Route, c: Route)
    requires
        precedes(a, b),
        precedes(b, c),
    ensures
        precedes(a, c),
    decreases a.len(),
{
    if a.len() == b.len() && b.len() == c.len() {
        let a0 = a.drop_last();
        let b0 = b.drop_last();
        let c0 = c.drop_last();
        if precedes(a0, b0) && precedes(b0, c0) {
            lemma_precedes_transitive(a0, b0, c0);
        }
    }
}

/// `no_later` is transitive.
pub proof fn lemma_no_later_transitive(a: Route, b: Route, c: Route)
    requires
        no_later(a, b),
        no_later(b, c),
    ensures
        no_later(a, c),
{
    if precedes(a, b) && precedes(b, c) {
        lemma_precedes_transitive(a, b, c);
    }
}

/// Of two different routes one comes before the other.
pub proof fn lemma_precedes_total(a: Route, b: Route)
    ensures
        a == b || precedes(a, b) || precedes(b, a),
    decreases a.len(),
{
    if a.len() == b.len() {
        if a.len() == 0 {
            assert(a =~= b);
        } else {
            lemma_precedes_total(a.drop_last(), b.drop_last());
            if a.drop_last() == b.drop_last() && a.last() == b.last() {
                assert(a =~= a.drop_last().push(a.last()));
                assert(b =~= b.drop_last().push(b.last()));
            }
        }
    }
}

/// Two routes, each no later than the other, are the same route.
pub proof fn lemma_no_later_antisymmetric(a: Route, b: Route)
    requires
        no_later(a, b),
        no_later(b, a),
    ensures
        a == b,
{
    if a != b {
        lemma_precedes_transitive(a, b, a);
        lemma_precedes_irreflexive(a);
    }
}

/// How two routes compare once each has taken one more step.
pub proof fn lemma_precedes_push(a: Route, x: int, b: Route, y: int)
    ensures
        precedes(a.push(x), b.push(y)) <==> (a.len() < b.len() || (a.len() == b.len() && (precedes(
            a,
            b,
        ) || (a == b && x < y)))),
{
    assert(a.push(x).drop_last() =~= a);
    assert(b.push(y).drop_last() =~= b);
}

/// The first part of a route is no later than the route.
pub proof fn lemma_prefix_no_later(a: Route, n: int)
    requires
        0 <= n <= a.len(),
    ensures
        no_later(a.take(n), a),
{
    if n == a.len() {
        assert(a.take(n) =~= a);
    }
}

/// Whether a depth-first search tries route `a` before route `b`: where
/// the two first part, `a` takes the earlier action.
pub open spec fn dives_before(a: Route, b: Route) -> bool
    decreases a.len(),
{
    a.len() > 0 && b.len() > 0 && (a[0] < b[0] || (a[0] == b[0] && dives_before(
        a.skip(1),
        b.skip(1),
    )))
}

} // verus!
