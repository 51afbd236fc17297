//! The prerequisite graph of a learning path.
//!
//! A level points at the levels it requires. A level's requirement is found
//! by identifier, the first level of that name standing for it; a name that
//! no level carries points nowhere.

use vstd::prelude::*;

use crate::model::{find_level, Level};

verus! {

/// Level `i` requires level `j`.
pub open spec fn requires_edge(levels: Seq<Level>, i: int, j: int) -> bool {
    &&& 0 <= i < levels.len()
    &&& exists|k: int| 0 <= k < levels[i].requires@.len() && find_level(levels, (#[trigger] levels[i].requires@[k])@) == Some(j)
}

/// `p` is a chain of requirements: each level requires the next.
pub open spec fn is_chain(levels: Seq<Level>, p: Seq<int>) -> bool {
    &&& p.len() >= 1
    &&& forall|n: int| 0 <= n < p.len() ==> 0 <= #[trigger] p[n] < levels.len()
    &&& forall|n: int| 0 <= n < p.len() - 1 ==> requires_edge(levels, #[trigger] p[n], p[n + 1])
}

/// Level `j` is reached from level `i` by following one requirement or more.
pub open spec fn reaches(levels: Seq<Level>, i: int, j: int) -> bool {
    exists|p: Seq<int>| is_chain(levels, p) && p.len() >= 2 && p[0] == i && p.last() == j
}

/// Level `i` lies on a cycle of requirements.
pub open spec fn on_cycle(levels: Seq<Level>, i: int) -> bool {
    reaches(levels, i, i)
}

/// A requirement of a reached level is reached too.
pub proof fn lemma_reach_extend(levels: Seq<Level>, i: int, j: int, k: int)
    requires
        reaches(levels, i, j),
        requires_edge(levels, j, k),
        0 <= k < levels.len(),
    ensures
        reaches(levels, i, k),
{
    let p = choose|p: Seq<int>| is_chain(levels, p) && p.len() >= 2 && p[0] == i && p.last() == j;
    let q = p.push(k);
    assert(is_chain(levels, q)) by {
        assert forall|n: int| 0 <= n < q.len() - 1 implies requires_edge(levels, #[trigger] q[n], q[n + 1]) by {
            if n < p.len() - 1 {
                assert(q[n] == p[n] && q[n + 1] == p[n + 1]);
            } else {
                assert(q[n] == j && q[n + 1] == k);
            }
        }
    }
    assert(q[0] == i && q.last() == k);
}

/// A direct requirement is reached.
pub proof fn lemma_reach_direct(levels: Seq<Level>, i: int, k: int)
    requires
        requires_edge(levels, i, k),
        0 <= k < levels.len(),
    ensures
        reaches(levels, i, k),
{
    let q = seq![i, k];
    assert(is_chain(levels, q)) by {
        assert forall|n: int| 0 <= n < q.len() - 1 implies requires_edge(levels, #[trigger] q[n], q[n + 1]) by {
            assert(n == 0);
        }
    }
    assert(q.last() == k);
}

/// A set that holds the requirements of `start` and of all its own members
/// holds every level reached from `start`.
pub proof fn lemma_closed_holds_reached(levels: Seq<Level>, start: int, marked: Seq<bool>, j: int)
    requires
        marked.len() == levels.len(),
        forall|k: int| 0 <= k < levels.len() && requires_edge(levels, start, k) ==> #[trigger] marked[k],
        forall|a: int, k: int|
            0 <= a < levels.len() && 0 <= k < levels.len() && #[trigger] marked[a] && requires_edge(levels, a, k) ==> #[trigger] marked[k],
        reaches(levels, start, j),
    ensures
        marked[j],
{
    let p = choose|p: Seq<int>| is_chain(levels, p) && p.len() >= 2 && p[0] == start && p.last() == j;
    lemma_chain_marked(levels, start, marked, p, p.len() - 1);
}

proof fn lemma_chain_marked(levels: Seq<Level>, start: int, marked: Seq<bool>, p: Seq<int>, n: int)
    requires
        marked.len() == levels.len(),
        forall|k: int| 0 <= k < levels.len() && requires_edge(levels, start, k) ==> #[trigger] marked[k],
        forall|a: int, k: int|
            0 <= a < levels.len() && 0 <= k < levels.len() && #[trigger] marked[a] && requires_edge(levels, a, k) ==> #[trigger] marked[k],
        is_chain(levels, p),
        p[0] == start,
        1 <= n < p.len(),
    ensures
        marked[p[n]],
    decreases n,
{
    assert(requires_edge(levels, p[n - 1], p[n]));
    assert(0 <= p[n] < levels.len());
    if n > 1 {
        lemma_chain_marked(levels, start, marked, p, n - 1);
        assert(0 <= p[n - 1] < levels.len());
    }
}

} // verus!
