//! Breadth-first search.

use crate::search::frontier::{
    between_rounds,
    in_round,
    lemma_close,
    lemma_enqueue,
    lemma_exhausted,
    lemma_head_is_first,
    lemma_pass_over,
    lemma_start,
    lemma_start_solved,
    lemma_take_head,
    Book,
};
use crate::search::model::{bfs_answer, callable, models, SearchModel};
use crate::search::path::extended;
use std::collections::{HashSet, VecDeque};
use vstd::prelude::*;

verus! {

/// A set of keys has at most as many members as there are keys.
proof fn lemma_key_count(s: Set<u64>)
    requires
        s.finite(),
    ensures
        s.len() <= 0x1_0000_0000_0000_0000,
{
    let f = |x: u64| x as int;
    let image = s.map(f);
    assert(vstd::relations::injective_on(f, s));
    vstd::set_lib::lemma_map_size(s, image, f);
    vstd::set_lib::lemma_int_range(0, 0x1_0000_0000_0000_0000);
    let all = vstd::set_lib::set_int_range(0, 0x1_0000_0000_0000_0000);
    assert(image.subset_of(all)) by {
        assert forall|i: int| image.contains(i) implies all.contains(i) by {
            let x = choose|x: u64| s.contains(x) && f(x) == i;
        }
    }
    vstd::set_lib::lemma_len_subset(image, all);
}

/// One round of the search: tries every action open in `state`, and puts
/// each viable state that was not seen before at the end of the queue.
fn expand<S, A, E, P, G, V, K>(
    state: &S,
    path: &Vec<A>,
    enumerate: &E,
    apply: &P,
    Ghost(is_goal): Ghost<G>,
    is_viable: &V,
    state_key: &K,
    queue: &mut VecDeque<(S, Vec<A>)>,
    visited: &mut HashSet<u64>,
    Ghost(start): Ghost<S>,
    Ghost(book): Ghost<Book>,
    Ghost(head): Ghost<u64>,
) -> (after: Ghost<Book>) where
    A: Copy,
    E: Fn(&S) -> Vec<A>,
    P: Fn(&S, &A) -> S,
    G: Fn(&S) -> bool,
    V: Fn(&S) -> bool,
    K: Fn(&S) -> u64,

    requires
        callable(*enumerate, *apply, is_goal, *is_viable),
        forall|s: S| call_requires(*state_key, (&s,)),
        book.tidy(old(visited)@),
        book.keys.len() == old(queue)@.len(),
        old(visited)@.contains(head),
        !book.closed.contains(head),
        !book.keys.contains(head),
        forall|m: SearchModel<S, A>, key: spec_fn(S) -> u64| #[trigger]
            models(*enumerate, *apply, is_goal, *is_viable, *state_key, m, key) ==> in_round(
                m,
                key,
                start,
                old(queue)@,
                old(visited)@,
                book,
                head,
                0,
            ) && *state == m.state_at(start, book.rec[head]) && path@ == m.path_of(
                start,
                book.rec[head],
            ),
    ensures
        after@.tidy(final(visited)@),
        after@.keys.len() == final(queue)@.len(),
        after@.closed == book.closed.insert(head),
        forall|m: SearchModel<S, A>, key: spec_fn(S) -> u64| #[trigger]
            models(*enumerate, *apply, is_goal, *is_viable, *state_key, m, key) ==> between_rounds(
                m,
                key,
                start,
                final(queue)@,
                final(visited)@,
                after@,
            ),
{
    broadcast use vstd::std_specs::hash::group_hash_axioms;

    let acts = enumerate(state);
    let n = acts.len();
    let ghost mut cur = book;
    let mut i: usize = 0;
    while i < n
        invariant
            i <= n,
            n == acts.len(),
            call_ensures(*enumerate, (state,), acts),
            callable(*enumerate, *apply, is_goal, *is_viable),
            forall|s: S| call_requires(*state_key, (&s,)),
            cur.tidy(visited@),
            cur.keys.len() == queue@.len(),
            cur.closed == book.closed,
            visited@.contains(head),
            !cur.keys.contains(head),
            forall|m: SearchModel<S, A>, key: spec_fn(S) -> u64| #[trigger]
                models(*enumerate, *apply, is_goal, *is_viable, *state_key, m, key) ==> in_round(
                    m,
                    key,
                    start,
                    queue@,
                    visited@,
                    cur,
                    head,
                    i as int,
                ) && *state == m.state_at(start, cur.rec[head]) && path@ == m.path_of(
                    start,
                    cur.rec[head],
                ),
        decreases n - i,
    {
        let a: A = acts[i];
        let t = apply(state, &a);
        let ghost was_queue = queue@;
        let ghost was_seen = visited@;
        let ghost was = cur;
        let viable = is_viable(&t);
        let mut fresh = false;
        let mut y: u64 = 0;
        if viable {
            y = state_key(&t);
            fresh = !visited.contains(&y);
        }
        if fresh {
            let longer = extended(path, a);
            visited.insert(y);
            queue.push_back((t, longer));
            proof {
                let entry = queue@.last();
                cur = was.with_new(y, was.rec[head].push(i as int));
                assert forall|m: SearchModel<S, A>, key: spec_fn(S) -> u64| #[trigger]
                    models(
                        *enumerate,
                        *apply,
                        is_goal,
                        *is_viable,
                        *state_key,
                        m,
                        key,
                    ) implies in_round(m, key, start, queue@, visited@, cur, head, i + 1) && *state
                    == m.state_at(start, cur.rec[head]) && path@ == m.path_of(
                    start,
                    cur.rec[head],
                ) by {
                    assert(acts@ == (m.actions)(*state));
                    assert(entry.0 == m.next(*state, i as int));
                    assert(y == key(entry.0));
                    lemma_enqueue(m, key, start, was_queue, was_seen, was, head, i as int, entry);
                }
                was.lemma_with_new_tidy(was_seen, y, was.rec[head].push(i as int));
                if cur.keys.contains(head) {
                    let j = choose|j: int| 0 <= j < cur.keys.len() && cur.keys[j] == head;
                    if j < was.keys.len() {
                        assert(was.keys[j] == head);
                    }
                }
            }
        } else {
            proof {
                assert forall|m: SearchModel<S, A>, key: spec_fn(S) -> u64| #[trigger]
                    models(
                        *enumerate,
                        *apply,
                        is_goal,
                        *is_viable,
                        *state_key,
                        m,
                        key,
                    ) implies in_round(m, key, start, queue@, visited@, cur, head, i + 1) by {
                    assert(acts@ == (m.actions)(*state));
                    assert(t == m.next(*state, i as int));
                    lemma_pass_over(m, key, start, queue@, visited@, cur, head, i as int);
                }
            }
        }
        i += 1;
    }
    let ghost done = cur.with_closed(head);
    proof {
        assert forall|m: SearchModel<S, A>, key: spec_fn(S) -> u64| #[trigger]
            models(
                *enumerate,
                *apply,
                is_goal,
                *is_viable,
                *state_key,
                m,
                key,
            ) implies between_rounds(m, key, start, queue@, visited@, done) by {
            assert(acts@ == (m.actions)(*state));
            lemma_close(m, key, start, queue@, visited@, cur, head);
        }
        cur.lemma_with_closed_tidy(visited@, head);
    }
    Ghost(done)
}

/// Searches breadth first from `initial_state` and returns the actions of
/// the first solution: a shortest one, and among the shortest the one that
/// takes the earliest action wherever two of them part. Returns `None` where
/// no sequence of actions through viable states leads to a goal.
///
/// A state is tried once: `state_key_fn` tells the states apart. The state
/// that an action leads to is dropped where `is_solvable` rejects it.
pub fn bfs<S, A, E, P, G, V, K>(
    initial_state: &S,
    enumerate_actions_fn: E,
    apply_action_fn: P,
    is_goal_fn: G,
    is_solvable: V,
    state_key_fn: K,
) -> (found: Option<Vec<A>>) where
    A: Copy,
    E: Fn(&S) -> Vec<A>,
    P: Fn(&S, &A) -> S,
    G: Fn(&S) -> bool,
    V: Fn(&S) -> bool,
    K: Fn(&S) -> u64,

    requires
        callable(enumerate_actions_fn, apply_action_fn, is_goal_fn, is_solvable),
        forall|s: S| call_requires(state_key_fn, (&s,)),
    ensures
        forall|m: SearchModel<S, A>, key: spec_fn(S) -> u64| #[trigger]
            models(
                enumerate_actions_fn,
                apply_action_fn,
                is_goal_fn,
                is_solvable,
                state_key_fn,
                m,
                key,
            ) ==> bfs_answer(m, *initial_state, found),
{
    broadcast use vstd::std_specs::hash::group_hash_axioms;

    if is_goal_fn(initial_state) {
        let nothing: Vec<A> = Vec::new();
        proof {
            assert forall|m: SearchModel<S, A>, key: spec_fn(S) -> u64| #[trigger]
                models(
                    enumerate_actions_fn,
                    apply_action_fn,
                    is_goal_fn,
                    is_solvable,
                    state_key_fn,
                    m,
                    key,
                ) implies bfs_answer(m, *initial_state, Some(nothing)) by {
                lemma_start_solved(m, *initial_state);
                assert(m.first_solution(*initial_state, Seq::<int>::empty()));
            }
        }
        return Some(nothing);
    }
    let mut queue: VecDeque<(S, Vec<A>)> = VecDeque::new();
    let mut visited: HashSet<u64> = HashSet::new();
    let root = state_key_fn(initial_state);
    visited.insert(root);
    let no_path: Vec<A> = Vec::new();
    let ghost mut book = Book::opening(root);
    proof {
        Book::lemma_opening_tidy(root);
        assert(visited@ =~= Set::<u64>::empty().insert(root));
        assert forall|m: SearchModel<S, A>, key: spec_fn(S) -> u64| #[trigger]
            models(
                enumerate_actions_fn,
                apply_action_fn,
                is_goal_fn,
                is_solvable,
                state_key_fn,
                m,
                key,
            ) implies in_round(m, key, *initial_state, queue@, visited@, book, root, 0)
            && *initial_state == m.state_at(*initial_state, book.rec[root]) && no_path@
            == m.path_of(*initial_state, book.rec[root]) by {
            lemma_start::<S, A>(m, key, *initial_state);
            assert(queue@ =~= Seq::<(S, Vec<A>)>::empty());
            assert(book.rec[root] =~= Seq::<int>::empty());
        }
    }
    let first = expand::<S, A, E, P, G, V, K>(
        initial_state,
        &no_path,
        &enumerate_actions_fn,
        &apply_action_fn,
        Ghost(is_goal_fn),
        &is_solvable,
        &state_key_fn,
        &mut queue,
        &mut visited,
        Ghost(*initial_state),
        Ghost(book),
        Ghost(root),
    );
    proof {
        book = first@;
    }
    loop
        invariant
            callable(enumerate_actions_fn, apply_action_fn, is_goal_fn, is_solvable),
            forall|s: S| call_requires(state_key_fn, (&s,)),
            book.tidy(visited@),
            book.keys.len() == queue@.len(),
            forall|m: SearchModel<S, A>, key: spec_fn(S) -> u64| #[trigger]
                models(
                    enumerate_actions_fn,
                    apply_action_fn,
                    is_goal_fn,
                    is_solvable,
                    state_key_fn,
                    m,
                    key,
                ) ==> between_rounds(m, key, *initial_state, queue@, visited@, book),
        decreases 0x1_0000_0000_0000_0000 - book.closed.len(),
    {
        let ghost was_queue = queue@;
        match queue.pop_front() {
            None => {
                proof {
                    assert forall|m: SearchModel<S, A>, key: spec_fn(S) -> u64| #[trigger]
                        models(
                            enumerate_actions_fn,
                            apply_action_fn,
                            is_goal_fn,
                            is_solvable,
                            state_key_fn,
                            m,
                            key,
                        ) implies bfs_answer(m, *initial_state, None::<Vec<A>>) by {
                        lemma_exhausted(m, key, *initial_state, queue@, visited@, book);
                    }
                }
                return None;
            },
            Some((state, path)) => {
                if is_goal_fn(&state) {
                    proof {
                        assert forall|m: SearchModel<S, A>, key: spec_fn(S) -> u64| #[trigger]
                            models(
                                enumerate_actions_fn,
                                apply_action_fn,
                                is_goal_fn,
                                is_solvable,
                                state_key_fn,
                                m,
                                key,
                            ) implies bfs_answer(m, *initial_state, Some(path)) by {
                            lemma_head_is_first(m, key, *initial_state, was_queue, visited@, book);
                            assert(m.first_solution(*initial_state, book.route(0)));
                        }
                    }
                    return Some(path);
                }
                let ghost head = book.keys[0];
                let ghost rest = book.without_head();
                proof {
                    assert forall|m: SearchModel<S, A>, key: spec_fn(S) -> u64| #[trigger]
                        models(
                            enumerate_actions_fn,
                            apply_action_fn,
                            is_goal_fn,
                            is_solvable,
                            state_key_fn,
                            m,
                            key,
                        ) implies in_round(m, key, *initial_state, queue@, visited@, rest, head, 0)
                        && state == m.state_at(*initial_state, rest.rec[head]) && path@
                        == m.path_of(*initial_state, rest.rec[head]) by {
                        assert(was_queue[0].0 == state);
                        lemma_take_head(m, key, *initial_state, was_queue, visited@, book);
                        assert(queue@ =~= was_queue.drop_first());
                    }
                    book.lemma_without_head_tidy(visited@);
                    lemma_key_count(book.closed.insert(head));
                }
                let next = expand::<S, A, E, P, G, V, K>(
                    &state,
                    &path,
                    &enumerate_actions_fn,
                    &apply_action_fn,
                    Ghost(is_goal_fn),
                    &is_solvable,
                    &state_key_fn,
                    &mut queue,
                    &mut visited,
                    Ghost(*initial_state),
                    Ghost(rest),
                    Ghost(head),
                );
                proof {
                    book = next@;
                }
            },
        }
    }
}

} // verus!
