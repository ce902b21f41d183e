//! Paths: the actions taken so far.

use vstd::prelude::*;

verus! {

/// A copy of `path` with `a` added at its end.
pub fn extended<A: Copy>(path: &Vec<A>, a: A) -> (longer: Vec<A>)
    ensures
        longer@ == path@.push(a),
{
    let mut longer: Vec<A> = Vec::new();
    let mut i: usize = 0;
    while i < path.len()
        invariant
            i <= path.len(),
            longer@ == path@.take(i as int),
        decreases path.len() - i,
    {
        longer.push(path[i]);
        assert(path@.take(i + 1) =~= path@.take(i as int).push(path@[i as int]));
        i += 1;
    }
    longer.push(a);
    assert(path@.take(path.len() as int) =~= path@);
    longer
}

} // verus!
