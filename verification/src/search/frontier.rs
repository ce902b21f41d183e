//! The bookkeeping of a breadth-first search in progress, what holds of it
//! between and during the rounds of the search, and why the search is right
//! when it stops.

use crate::search::model::{injective, SearchModel};
use crate::search::order::{
    lemma_no_later_transitive,
    lemma_precedes_irreflexive,
    lemma_precedes_push,
    lemma_precedes_transitive,
    lemma_prefix_no_later,
    no_later,
    precedes,
    Route,
};
use vstd::prelude::*;

verus! {

/// What a breadth-first search has met so far. States are known by their
/// keys.
pub struct Book {
    /// The keys of the states that wait in the queue, in queue order.
    pub keys: Seq<u64>,
    /// For each state met, the route by which it was first met.
    pub rec: Map<u64, Route>,
    /// The keys of the states whose actions have all been tried.
    pub closed: Set<u64>,
}

impl Book {
    /// The book at the start of a search from a state with key `x`, taken
    /// from the queue at once.
    pub open spec fn opening(x: u64) -> Book {
        Book { keys: Seq::empty(), rec: Map::empty().insert(x, Seq::empty()), closed: Set::empty() }
    }

    /// The book after the head of the queue has been taken from it.
    pub open spec fn without_head(self) -> Book {
        Book { keys: self.keys.drop_first(), ..self }
    }

    /// The book after a new state with key `y`, met by `route`, has joined
    /// the queue.
    pub open spec fn with_new(self, y: u64, route: Route) -> Book {
        Book { keys: self.keys.push(y), rec: self.rec.insert(y, route), ..self }
    }

    /// The book after all actions of the state with key `x` have been tried.
    pub open spec fn with_closed(self, x: u64) -> Book {
        Book { closed: self.closed.insert(x), ..self }
    }

    /// The route recorded for the `j`-th state in the queue.
    pub open spec fn route(self, j: int) -> Route {
        self.rec[self.keys[j]]
    }

    /// What holds of the book whatever the problem is: routes are recorded
    /// for the keys seen and no others, no state waits in the queue twice,
    /// and the states in the queue have been seen and are not closed.
    pub open spec fn tidy(self, seen: Set<u64>) -> bool {
        &&& self.rec.dom() =~= seen
        &&& self.closed.finite()
        &&& self.closed.subset_of(seen)
        &&& self.keys.no_duplicates()
        &&& forall|j: int|
            0 <= j < self.keys.len() ==> seen.contains(#[trigger] self.keys[j])
                && !self.closed.contains(self.keys[j])
    }

    /// The opening book is tidy.
    pub proof fn lemma_opening_tidy(x: u64)
        ensures
            Book::opening(x).tidy(Set::<u64>::empty().insert(x)),
    {
    }

    /// A tidy book stays tidy when the head leaves the queue, and the head
    /// is then neither queued nor closed.
    pub proof fn lemma_without_head_tidy(self, seen: Set<u64>)
        requires
            self.tidy(seen),
            self.keys.len() > 0,
        ensures
            self.without_head().tidy(seen),
            seen.contains(self.keys[0]),
            !self.closed.contains(self.keys[0]),
            !self.without_head().keys.contains(self.keys[0]),
    {
        let rest = self.without_head().keys;
        assert forall|j: int| 0 <= j < rest.len() implies rest[j] == self.keys[j + 1] by {}
        assert forall|j: int| 0 <= j < rest.len() implies seen.contains(#[trigger] rest[j])
            && !self.closed.contains(rest[j]) by {
            assert(rest[j] == self.keys[j + 1]);
        }
        assert forall|i: int, j: int|
            0 <= i < rest.len() && 0 <= j < rest.len() && i != j implies rest[i] != rest[j] by {
            assert(rest[i] == self.keys[i + 1]);
            assert(rest[j] == self.keys[j + 1]);
        }
        if rest.contains(self.keys[0]) {
            let j = choose|j: int| 0 <= j < rest.len() && rest[j] == self.keys[0];
            assert(rest[j] == self.keys[j + 1]);
        }
    }

    /// A tidy book stays tidy when a state not seen before joins the queue.
    pub proof fn lemma_with_new_tidy(self, seen: Set<u64>, y: u64, route: Route)
        requires
            self.tidy(seen),
            !seen.contains(y),
        ensures
            self.with_new(y, route).tidy(seen.insert(y)),
    {
        let more = self.with_new(y, route);
        assert(more.rec.dom() =~= seen.insert(y));
        assert forall|j: int| 0 <= j < more.keys.len() implies seen.insert(y).contains(
            #[trigger] more.keys[j],
        ) && !more.closed.contains(more.keys[j]) by {
            if j < self.keys.len() {
                assert(more.keys[j] == self.keys[j]);
            }
        }
        assert forall|i: int, j: int|
            0 <= i < more.keys.len() && 0 <= j < more.keys.len() && i != j implies more.keys[i]
            != more.keys[j] by {
            if i < self.keys.len() {
                assert(more.keys[i] == self.keys[i]);
            }
            if j < self.keys.len() {
                assert(more.keys[j] == self.keys[j]);
            }
        }
    }

    /// A tidy book stays tidy when a state that was seen and does not wait
    /// in the queue is closed.
    pub proof fn lemma_with_closed_tidy(self, seen: Set<u64>, x: u64)
        requires
            self.tidy(seen),
            seen.contains(x),
            !self.keys.contains(x),
        ensures
            self.with_closed(x).tidy(seen),
    {
        let b2 = self.with_closed(x);
        assert forall|j: int| 0 <= j < b2.keys.len() implies seen.contains(#[trigger] b2.keys[j])
            && !b2.closed.contains(b2.keys[j]) by {
            assert(self.keys.contains(self.keys[j]));
        }
    }
}

/// The recorded routes are true: each can be walked from the start and ends
/// in the state whose key it is recorded for, the start has the empty
/// route, and no closed state is a goal.
pub open spec fn recorded<S, A>(
    m: SearchModel<S, A>,
    key: spec_fn(S) -> u64,
    start: S,
    seen: Set<u64>,
    b: Book,
) -> bool {
    &&& seen.contains(key(start))
    &&& b.rec[key(start)] == Seq::<int>::empty()
    &&& forall|x: u64| #[trigger]
        seen.contains(x) ==> m.walkable(start, b.rec[x]) && key(m.state_at(start, b.rec[x])) == x
    &&& forall|x: u64| #[trigger]
        b.closed.contains(x) ==> !(m.goal)(m.state_at(start, b.rec[x]))
}

/// The queue holds, for each key in the book, the state and the path of the
/// recorded route, and the routes grow strictly along the queue.
pub open spec fn queued<S, A>(
    m: SearchModel<S, A>,
    start: S,
    queue: Seq<(S, Vec<A>)>,
    b: Book,
) -> bool {
    &&& b.keys.len() == queue.len()
    &&& forall|j: int|
        0 <= j < queue.len() ==> (#[trigger] queue[j]).0 == m.state_at(start, b.route(j))
            && queue[j].1@ == m.path_of(start, b.route(j))
    &&& forall|i: int, j: int|
        0 <= i < j < queue.len() ==> precedes(#[trigger] b.route(i), #[trigger] b.route(j))
}

/// What trying the `i`-th action of the state with key `x` has come to: if
/// it leads to a viable state, that state has been seen, by a route no later
/// than the recorded route of `x` followed by `i`.
pub open spec fn tried<S, A>(
    m: SearchModel<S, A>,
    key: spec_fn(S) -> u64,
    start: S,
    seen: Set<u64>,
    b: Book,
    x: u64,
    i: int,
) -> bool {
    let t = m.next(m.state_at(start, b.rec[x]), i);
    (m.viable)(t) ==> seen.contains(key(t)) && no_later(b.rec[key(t)], b.rec[x].push(i))
}

/// The first `n` actions of the state with key `x` have been tried.
pub open spec fn tried_upto<S, A>(
    m: SearchModel<S, A>,
    key: spec_fn(S) -> u64,
    start: S,
    seen: Set<u64>,
    b: Book,
    x: u64,
    n: int,
) -> bool {
    forall|i: int| 0 <= i < n ==> #[trigger] tried(m, key, start, seen, b, x, i)
}

/// All actions of every closed state have been tried.
pub open spec fn closed_done<S, A>(
    m: SearchModel<S, A>,
    key: spec_fn(S) -> u64,
    start: S,
    seen: Set<u64>,
    b: Book,
) -> bool {
    forall|x: u64| #[trigger]
        b.closed.contains(x) ==> tried_upto(
            m,
            key,
            start,
            seen,
            b,
            x,
            (m.actions)(m.state_at(start, b.rec[x])).len() as int,
        )
}

/// What holds between two rounds of the search.
pub open spec fn between_rounds<S, A>(
    m: SearchModel<S, A>,
    key: spec_fn(S) -> u64,
    start: S,
    queue: Seq<(S, Vec<A>)>,
    seen: Set<u64>,
    b: Book,
) -> bool {
    &&& recorded(m, key, start, seen, b)
    &&& queued(m, start, queue, b)
    &&& closed_done(m, key, start, seen, b)
    &&& forall|x: u64| #[trigger] seen.contains(x) ==> b.closed.contains(x) || b.keys.contains(x)
    &&& forall|x: u64, j: int|
        b.closed.contains(x) && 0 <= j < queue.len() ==> precedes(
            #[trigger] b.rec[x],
            #[trigger] b.route(j),
        )
    &&& forall|j: int|
        1 <= j < queue.len() ==> precedes(#[trigger] b.route(j), b.route(0).push(0))
}

/// What holds during a round: the state with key `head` has left the queue
/// and its first `i` actions have been tried.
pub open spec fn in_round<S, A>(
    m: SearchModel<S, A>,
    key: spec_fn(S) -> u64,
    start: S,
    queue: Seq<(S, Vec<A>)>,
    seen: Set<u64>,
    b: Book,
    head: u64,
    i: int,
) -> bool {
    &&& recorded(m, key, start, seen, b)
    &&& queued(m, start, queue, b)
    &&& closed_done(m, key, start, seen, b)
    &&& seen.contains(head)
    &&& !b.closed.contains(head)
    &&& !b.keys.contains(head)
    &&& !(m.goal)(m.state_at(start, b.rec[head]))
    &&& 0 <= i <= (m.actions)(m.state_at(start, b.rec[head])).len()
    &&& tried_upto(m, key, start, seen, b, head, i)
    &&& forall|x: u64| #[trigger]
        seen.contains(x) ==> b.closed.contains(x) || x == head || b.keys.contains(x)
    &&& forall|x: u64| #[trigger] b.closed.contains(x) ==> precedes(b.rec[x], b.rec[head])
    &&& forall|j: int|
        0 <= j < queue.len() ==> precedes(b.rec[head], #[trigger] b.route(j)) && precedes(
            b.route(j),
            b.rec[head].push(i),
        )
}

/// The search starts in a round that has the start state as its head.
pub proof fn lemma_start<S, A>(m: SearchModel<S, A>, key: spec_fn(S) -> u64, start: S)
    requires
        !(m.goal)(start),
    ensures
        in_round(
            m,
            key,
            start,
            Seq::<(S, Vec<A>)>::empty(),
            Set::<u64>::empty().insert(key(start)),
            Book::opening(key(start)),
            key(start),
            0,
        ),
{
    let b = Book::opening(key(start));
    assert(b.rec[key(start)].len() == 0);
    assert(m.state_at(start, b.rec[key(start)]) == start);
}

/// Taking a head that is no goal from the queue begins a round.
pub proof fn lemma_take_head<S, A>(
    m: SearchModel<S, A>,
    key: spec_fn(S) -> u64,
    start: S,
    queue: Seq<(S, Vec<A>)>,
    seen: Set<u64>,
    b: Book,
)
    requires
        between_rounds(m, key, start, queue, seen, b),
        b.tidy(seen),
        queue.len() > 0,
        !(m.goal)(queue[0].0),
    ensures
        in_round(m, key, start, queue.drop_first(), seen, b.without_head(), b.keys[0], 0),
{
    let b2 = b.without_head();
    let q2 = queue.drop_first();
    let head = b.keys[0];
    assert(queue[0].0 == m.state_at(start, b.route(0)));
    assert forall|j: int| 0 <= j < q2.len() implies b2.route(j) == b.route(j + 1) && q2[j]
        == queue[j + 1] by {}
    assert forall|j: int| 0 <= j < q2.len() implies (#[trigger] q2[j]).0 == m.state_at(
        start,
        b2.route(j),
    ) && q2[j].1@ == m.path_of(start, b2.route(j)) by {
        assert(q2[j] == queue[j + 1]);
    }
    assert forall|i: int, j: int| 0 <= i < j < q2.len() implies precedes(
        #[trigger] b2.route(i),
        #[trigger] b2.route(j),
    ) by {
        assert(precedes(b.route(i + 1), b.route(j + 1)));
    }
    assert(!b2.keys.contains(head)) by {
        if b2.keys.contains(head) {
            let j = choose|j: int| 0 <= j < b2.keys.len() && b2.keys[j] == head;
            assert(precedes(b.route(0), b.route(j + 1)));
            lemma_precedes_irreflexive(b.route(0));
        }
    }
    assert forall|x: u64| #[trigger] seen.contains(x) implies b2.closed.contains(x) || x == head
        || b2.keys.contains(x) by {
        if !b.closed.contains(x) {
            let j = choose|j: int| 0 <= j < b.keys.len() && b.keys[j] == x;
            if j > 0 {
                assert(b2.keys[j - 1] == x);
            }
        }
    }
    assert forall|x: u64| #[trigger] b2.closed.contains(x) implies precedes(
        b2.rec[x],
        b2.rec[head],
    ) by {
        assert(precedes(b.rec[x], b.route(0)));
    }
    assert forall|j: int| 0 <= j < q2.len() implies precedes(b2.rec[head], #[trigger] b2.route(j))
        && precedes(b2.route(j), b2.rec[head].push(0)) by {
        assert(precedes(b.route(0), b.route(j + 1)));
        assert(precedes(b.route(j + 1), b.route(0).push(0)));
    }
    assert(closed_done(m, key, start, seen, b2)) by {
        assert forall|x: u64| #[trigger] b2.closed.contains(x) implies tried_upto(
            m,
            key,
            start,
            seen,
            b2,
            x,
            (m.actions)(m.state_at(start, b2.rec[x])).len() as int,
        ) by {
            let n = (m.actions)(m.state_at(start, b.rec[x])).len() as int;
            assert(tried_upto(m, key, start, seen, b, x, n));
            assert forall|i: int| 0 <= i < n implies #[trigger] tried(
                m,
                key,
                start,
                seen,
                b2,
                x,
                i,
            ) by {
                assert(tried(m, key, start, seen, b, x, i));
            }
        }
    }
    assert(tried_upto(m, key, start, seen, b2, head, 0));
}

/// Trying an action that leads nowhere new leaves the queue as it is: the
/// state it leads to is not viable, or has been seen before.
pub proof fn lemma_pass_over<S, A>(
    m: SearchModel<S, A>,
    key: spec_fn(S) -> u64,
    start: S,
    queue: Seq<(S, Vec<A>)>,
    seen: Set<u64>,
    b: Book,
    head: u64,
    i: int,
)
    requires
        in_round(m, key, start, queue, seen, b, head, i),
        b.tidy(seen),
        i < (m.actions)(m.state_at(start, b.rec[head])).len(),
        ({
            let t = m.next(m.state_at(start, b.rec[head]), i);
            !(m.viable)(t) || seen.contains(key(t))
        }),
    ensures
        in_round(m, key, start, queue, seen, b, head, i + 1),
{
    let t = m.next(m.state_at(start, b.rec[head]), i);
    let here = b.rec[head];
    lemma_precedes_push(here, i, here, i + 1);
    assert(tried(m, key, start, seen, b, head, i)) by {
        if (m.viable)(t) {
            let y = key(t);
            if b.closed.contains(y) {
                lemma_precedes_transitive(b.rec[y], here, here.push(i));
            } else if y != head {
                let j = choose|j: int| 0 <= j < b.keys.len() && b.keys[j] == y;
                assert(precedes(b.route(j), here.push(i)));
            }
        }
    }
    assert forall|k: int| 0 <= k < i + 1 implies #[trigger] tried(
        m,
        key,
        start,
        seen,
        b,
        head,
        k,
    ) by {
        if k < i {
            assert(tried(m, key, start, seen, b, head, k));
        }
    }
    assert forall|j: int| 0 <= j < queue.len() implies precedes(b.rec[head], #[trigger] b.route(j))
        && precedes(b.route(j), b.rec[head].push(i + 1)) by {
        lemma_precedes_transitive(b.route(j), here.push(i), here.push(i + 1));
    }
}

/// Trying an action that leads to a viable state not seen before puts that
/// state at the end of the queue.
pub proof fn lemma_enqueue<S, A>(
    m: SearchModel<S, A>,
    key: spec_fn(S) -> u64,
    start: S,
    queue: Seq<(S, Vec<A>)>,
    seen: Set<u64>,
    b: Book,
    head: u64,
    i: int,
    entry: (S, Vec<A>),
)
    requires
        in_round(m, key, start, queue, seen, b, head, i),
        b.tidy(seen),
        injective(key),
        i < (m.actions)(m.state_at(start, b.rec[head])).len(),
        ({
            let from = m.state_at(start, b.rec[head]);
            let t = m.next(from, i);
            &&& (m.viable)(t)
            &&& !seen.contains(key(t))
            &&& entry.0 == t
            &&& entry.1@ == m.path_of(start, b.rec[head]).push((m.actions)(from)[i])
        }),
    ensures
        ({
            let y = key(m.next(m.state_at(start, b.rec[head]), i));
            let b2 = b.with_new(y, b.rec[head].push(i));
            in_round(m, key, start, queue.push(entry), seen.insert(y), b2, head, i + 1)
        }),
{
    let from = m.state_at(start, b.rec[head]);
    let t = m.next(from, i);
    let y = key(t);
    let here = b.rec[head];
    let there = here.push(i);
    let b2 = b.with_new(y, there);
    let q2 = queue.push(entry);
    let seen2 = seen.insert(y);
    assert(there.drop_last() =~= here);
    assert(m.state_at(start, there) == t);
    assert(m.walkable(start, there));
    assert(m.path_of(start, there) == entry.1@);
    lemma_precedes_push(here, i, here, i + 1);
    assert forall|x: u64| seen.contains(x) implies b2.rec[x] == b.rec[x] by {}
    assert forall|j: int| 0 <= j < queue.len() implies b2.route(j) == b.route(j) by {}
    assert(b2.route(queue.len() as int) == there);
    // recorded
    assert forall|x: u64| #[trigger] seen2.contains(x) implies m.walkable(start, b2.rec[x]) && key(
        m.state_at(start, b2.rec[x]),
    ) == x by {
        if x != y {
            assert(seen.contains(x));
        }
    }
    assert forall|x: u64| #[trigger] b2.closed.contains(x) implies !(m.goal)(
        m.state_at(start, b2.rec[x]),
    ) by {
        assert(b.closed.contains(x));
    }
    assert(recorded(m, key, start, seen2, b2));
    // queued
    assert forall|j: int| 0 <= j < q2.len() implies (#[trigger] q2[j]).0 == m.state_at(
        start,
        b2.route(j),
    ) && q2[j].1@ == m.path_of(start, b2.route(j)) by {
        if j < queue.len() {
            assert(q2[j] == queue[j]);
            assert(b2.route(j) == b.route(j));
        }
    }
    assert forall|k: int, j: int| 0 <= k < j < q2.len() implies precedes(
        #[trigger] b2.route(k),
        #[trigger] b2.route(j),
    ) by {
        assert(b2.route(k) == b.route(k));
        if j < queue.len() {
            assert(b2.route(j) == b.route(j));
        } else {
            assert(precedes(b.route(k), there));
        }
    }
    assert(queued(m, start, q2, b2));
    // what has been tried stays tried
    assert forall|x: u64, k: int|
        seen.contains(x) && tried(m, key, start, seen, b, x, k) implies #[trigger] tried(
        m,
        key,
        start,
        seen2,
        b2,
        x,
        k,
    ) by {
        let u = m.next(m.state_at(start, b.rec[x]), k);
        if (m.viable)(u) {
            assert(seen.contains(key(u)));
            assert(b2.rec[key(u)] == b.rec[key(u)]);
        }
    }
    assert(closed_done(m, key, start, seen2, b2)) by {
        assert forall|x: u64| #[trigger] b2.closed.contains(x) implies tried_upto(
            m,
            key,
            start,
            seen2,
            b2,
            x,
            (m.actions)(m.state_at(start, b2.rec[x])).len() as int,
        ) by {
            assert(b.closed.contains(x));
            assert(seen.contains(x));
            let n = (m.actions)(m.state_at(start, b.rec[x])).len() as int;
            assert(tried_upto(m, key, start, seen, b, x, n));
            assert forall|k: int| 0 <= k < n implies #[trigger] tried(
                m,
                key,
                start,
                seen2,
                b2,
                x,
                k,
            ) by {
                assert(tried(m, key, start, seen, b, x, k));
            }
        }
    }
    assert(tried_upto(m, key, start, seen2, b2, head, i + 1)) by {
        assert forall|k: int| 0 <= k < i + 1 implies #[trigger] tried(
            m,
            key,
            start,
            seen2,
            b2,
            head,
            k,
        ) by {
            if k < i {
                assert(tried(m, key, start, seen, b, head, k));
            } else {
                assert(b2.rec[key(t)] == there);
            }
        }
    }
    assert(!b2.keys.contains(head)) by {
        if b2.keys.contains(head) {
            let j = choose|j: int| 0 <= j < b2.keys.len() && b2.keys[j] == head;
            if j < b.keys.len() {
                assert(b.keys[j] == head);
            }
        }
    }
    assert forall|x: u64| #[trigger] seen2.contains(x) implies b2.closed.contains(x) || x == head
        || b2.keys.contains(x) by {
        if x == y {
            assert(b2.keys[b.keys.len() as int] == y);
        } else if !b.closed.contains(x) && x != head {
            let j = choose|j: int| 0 <= j < b.keys.len() && b.keys[j] == x;
            assert(b2.keys[j] == x);
        }
    }
    assert forall|x: u64| #[trigger] b2.closed.contains(x) implies precedes(
        b2.rec[x],
        b2.rec[head],
    ) by {
        assert(b.closed.contains(x));
    }
    assert forall|j: int| 0 <= j < q2.len() implies precedes(b2.rec[head], #[trigger] b2.route(j))
        && precedes(b2.route(j), b2.rec[head].push(i + 1)) by {
        if j < queue.len() {
            assert(b2.route(j) == b.route(j));
            lemma_precedes_transitive(b.route(j), there, here.push(i + 1));
        }
    }
}

/// When all actions of the head have been tried, the round is over and the
/// head is closed.
pub proof fn lemma_close<S, A>(
    m: SearchModel<S, A>,
    key: spec_fn(S) -> u64,
    start: S,
    queue: Seq<(S, Vec<A>)>,
    seen: Set<u64>,
    b: Book,
    head: u64,
)
    requires
        in_round(
            m,
            key,
            start,
            queue,
            seen,
            b,
            head,
            (m.actions)(m.state_at(start, b.rec[head])).len() as int,
        ),
        b.tidy(seen),
    ensures
        between_rounds(m, key, start, queue, seen, b.with_closed(head)),
{
    let b2 = b.with_closed(head);
    let n = (m.actions)(m.state_at(start, b.rec[head])).len() as int;
    let here = b.rec[head];
    assert forall|j: int| 0 <= j < queue.len() implies b2.route(j) == b.route(j) by {}
    assert(recorded(m, key, start, seen, b2));
    assert(queued(m, start, queue, b2)) by {
        assert forall|j: int| 0 <= j < queue.len() implies (#[trigger] queue[j]).0 == m.state_at(
            start,
            b2.route(j),
        ) && queue[j].1@ == m.path_of(start, b2.route(j)) by {
            assert(b2.route(j) == b.route(j));
        }
        assert forall|i: int, j: int| 0 <= i < j < queue.len() implies precedes(
            #[trigger] b2.route(i),
            #[trigger] b2.route(j),
        ) by {
            assert(precedes(b.route(i), b.route(j)));
        }
    }
    assert(closed_done(m, key, start, seen, b2)) by {
        assert forall|x: u64| #[trigger] b2.closed.contains(x) implies tried_upto(
            m,
            key,
            start,
            seen,
            b2,
            x,
            (m.actions)(m.state_at(start, b2.rec[x])).len() as int,
        ) by {
            let nx = (m.actions)(m.state_at(start, b.rec[x])).len() as int;
            if x != head {
                assert(b.closed.contains(x));
            }
            assert(tried_upto(m, key, start, seen, b, x, nx));
            assert forall|k: int| 0 <= k < nx implies #[trigger] tried(
                m,
                key,
                start,
                seen,
                b2,
                x,
                k,
            ) by {
                assert(tried(m, key, start, seen, b, x, k));
            }
        }
    }
    assert forall|x: u64| #[trigger] seen.contains(x) implies b2.closed.contains(x)
        || b2.keys.contains(x) by {}
    assert forall|x: u64, j: int| b2.closed.contains(x) && 0 <= j < queue.len() implies precedes(
        #[trigger] b2.rec[x],
        #[trigger] b2.route(j),
    ) by {
        assert(precedes(here, b.route(j)));
        if x != head {
            assert(b.closed.contains(x));
            lemma_precedes_transitive(b.rec[x], here, b.route(j));
        }
    }
    assert forall|j: int| 1 <= j < queue.len() implies precedes(
        #[trigger] b2.route(j),
        b2.route(0).push(0),
    ) by {
        assert(precedes(here, b.route(0)));
        assert(precedes(b.route(j), here.push(n)));
        lemma_precedes_push(here, n, b.route(0), 0);
        lemma_precedes_transitive(b.route(j), here.push(n), b.route(0).push(0));
    }
}

/// Whether some first part of route `q` is no earlier than the recorded
/// route of a state that waits in the queue.
pub open spec fn waits_on(b: Book, q: Route) -> bool {
    exists|j: int, n: int|
        0 <= j < b.keys.len() && 0 <= n <= q.len() && #[trigger] no_later(b.route(j), q.take(n))
}

/// Between rounds every route that can be walked from the start either
/// waits on the queue, or ends in a closed state that was met by a route no
/// later than it.
pub proof fn lemma_reach<S, A>(
    m: SearchModel<S, A>,
    key: spec_fn(S) -> u64,
    start: S,
    queue: Seq<(S, Vec<A>)>,
    seen: Set<u64>,
    b: Book,
    q: Route,
)
    requires
        between_rounds(m, key, start, queue, seen, b),
        b.tidy(seen),
        injective(key),
        m.walkable(start, q),
    ensures
        waits_on(b, q) || (b.closed.contains(key(m.state_at(start, q))) && no_later(
            b.rec[key(m.state_at(start, q))],
            q,
        )),
    decreases q.len(),
{
    if q.len() == 0 {
        let x = key(start);
        assert(q =~= Seq::<int>::empty());
        if !b.closed.contains(x) {
            let j = choose|j: int| 0 <= j < b.keys.len() && b.keys[j] == x;
            assert(q.take(0) =~= q);
            assert(no_later(b.route(j), q.take(0)));
        }
    } else {
        let q0 = q.drop_last();
        let i = q.last();
        lemma_reach(m, key, start, queue, seen, b, q0);
        if waits_on(b, q0) {
            let (j, n) = choose|j: int, n: int|
                0 <= j < b.keys.len() && 0 <= n <= q0.len() && #[trigger] no_later(
                    b.route(j),
                    q0.take(n),
                );
            assert(q.take(n) =~= q0.take(n));
            assert(no_later(b.route(j), q.take(n)));
        } else {
            let from = m.state_at(start, q0);
            let x0 = key(from);
            assert(seen.contains(x0));
            assert(key(m.state_at(start, b.rec[x0])) == x0);
            assert(m.state_at(start, b.rec[x0]) == from);
            let t = m.next(from, i);
            assert(t == m.state_at(start, q));
            assert(tried_upto(m, key, start, seen, b, x0, (m.actions)(from).len() as int));
            assert(tried(m, key, start, seen, b, x0, i));
            let y = key(t);
            assert(seen.contains(y));
            assert(q =~= q0.push(i));
            assert(no_later(b.rec[x0].push(i), q)) by {
                if b.rec[x0] != q0 {
                    lemma_precedes_push(b.rec[x0], i, q0, i);
                }
            }
            lemma_no_later_transitive(b.rec[y], b.rec[x0].push(i), q);
            if !b.closed.contains(y) {
                let j = choose|j: int| 0 <= j < b.keys.len() && b.keys[j] == y;
                assert(q.take(q.len() as int) =~= q);
                assert(no_later(b.route(j), q.take(q.len() as int)));
            }
        }
    }
}

/// When the head of the queue is a goal, its recorded route is the first
/// solution.
pub proof fn lemma_head_is_first<S, A>(
    m: SearchModel<S, A>,
    key: spec_fn(S) -> u64,
    start: S,
    queue: Seq<(S, Vec<A>)>,
    seen: Set<u64>,
    b: Book,
)
    requires
        between_rounds(m, key, start, queue, seen, b),
        b.tidy(seen),
        injective(key),
        queue.len() > 0,
        (m.goal)(queue[0].0),
    ensures
        m.first_solution(start, b.route(0)),
        queue[0].1@ == m.path_of(start, b.route(0)),
{
    let first = b.route(0);
    assert(queue[0].0 == m.state_at(start, first));
    assert(seen.contains(b.keys[0]));
    assert forall|other: Route| #[trigger] m.solves(start, other) implies no_later(
        first,
        other,
    ) by {
        lemma_reach(m, key, start, queue, seen, b, other);
        if waits_on(b, other) {
            let (j, n) = choose|j: int, n: int|
                0 <= j < b.keys.len() && 0 <= n <= other.len() && #[trigger] no_later(
                    b.route(j),
                    other.take(n),
                );
            if j > 0 {
                assert(precedes(b.route(0), b.route(j)));
            }
            lemma_prefix_no_later(other, n);
            lemma_no_later_transitive(b.route(j), other.take(n), other);
            lemma_no_later_transitive(first, b.route(j), other);
        } else {
            lemma_closed_is_no_goal(m, key, start, seen, b, other);
        }
    }
}

/// A route that ends in a closed state does not end in a goal.
proof fn lemma_closed_is_no_goal<S, A>(
    m: SearchModel<S, A>,
    key: spec_fn(S) -> u64,
    start: S,
    seen: Set<u64>,
    b: Book,
    q: Route,
)
    requires
        recorded(m, key, start, seen, b),
        b.tidy(seen),
        injective(key),
        b.closed.contains(key(m.state_at(start, q))),
    ensures
        !(m.goal)(m.state_at(start, q)),
{
    let x = key(m.state_at(start, q));
    assert(seen.contains(x));
    assert(key(m.state_at(start, b.rec[x])) == x);
    assert(m.state_at(start, b.rec[x]) == m.state_at(start, q));
}

/// When the queue is empty between rounds, nothing solves.
pub proof fn lemma_exhausted<S, A>(
    m: SearchModel<S, A>,
    key: spec_fn(S) -> u64,
    start: S,
    queue: Seq<(S, Vec<A>)>,
    seen: Set<u64>,
    b: Book,
)
    requires
        between_rounds(m, key, start, queue, seen, b),
        b.tidy(seen),
        injective(key),
        queue.len() == 0,
    ensures
        forall|route: Route| !m.solves(start, route),
{
    assert forall|route: Route| !m.solves(start, route) by {
        if m.solves(start, route) {
            lemma_reach(m, key, start, queue, seen, b, route);
            lemma_closed_is_no_goal(m, key, start, seen, b, route);
        }
    }
}

/// Where the start is a goal, the empty route is the first solution.
pub proof fn lemma_start_solved<S, A>(m: SearchModel<S, A>, start: S)
    requires
        (m.goal)(start),
    ensures
        m.first_solution(start, Seq::<int>::empty()),
        m.path_of(start, Seq::<int>::empty()) == Seq::<A>::empty(),
{
    let none = Seq::<int>::empty();
    assert forall|other: Route| #[trigger] m.solves(start, other) implies no_later(none, other) by {
        if other.len() == 0 {
            assert(other =~= none);
        }
    }
}

} // verus!
