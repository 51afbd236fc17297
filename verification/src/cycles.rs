//! Finding a cycle of requirements, which would lock levels away for good.
//!
//! The search goes depth first from each level in turn, following the
//! requirements in their order. A level whose requirements were all searched
//! is finished; a level met again while its own requirements are still being
//! searched closes a cycle.

use vstd::prelude::*;

use crate::draw::knows_sign;
use crate::model::{find_level, find_level_index, is_first_level, lemma_first_level_unique, Level};
use crate::paths::{is_chain, on_cycle, reaches, requires_edge};
use crate::review::{lemma_name_set_push, lemma_unvisited_insert, name_set, unvisited_sum};

verus! {

/// Every level counts once.
pub open spec fn each_once() -> spec_fn(Level) -> nat {
    |level: Level| 1nat
}

/// How many levels have a name not yet on the current chain of the search.
pub open spec fn off_chain(levels: Seq<Level>, visiting: Set<Seq<char>>) -> nat {
    unvisited_sum(levels, visiting, each_once(), levels.len() as int)
}

/// The search from level `k`, given the names already finished and those on
/// the current chain: the names finished afterwards, or the level met again
/// on the chain.
pub open spec fn visit(levels: Seq<Level>, k: int, visited: Set<Seq<char>>, visiting: Set<Seq<char>>) -> Result<
    Set<Seq<char>>,
    int,
>
    decreases off_chain(levels, visiting), 1int, 0int,
{
    if !(0 <= k < levels.len()) {
        Ok(visited)
    } else {
        let id = levels[k].id@;
        if visited.contains(id) {
            Ok(visited)
        } else if visiting.contains(id) {
            Err(k)
        } else {
            proof {
                lemma_unvisited_insert(levels, visiting, each_once(), id, levels.len() as int, k);
            }
            match visit_requirements(levels, k, 0, visited, visiting.insert(id)) {
                Ok(done) => Ok(done.insert(id)),
                Err(e) => Err(e),
            }
        }
    }
}

/// The search through the requirements of level `k` from the `r`-th on; a
/// requirement naming no level is passed over.
pub open spec fn visit_requirements(
    levels: Seq<Level>,
    k: int,
    r: int,
    visited: Set<Seq<char>>,
    visiting: Set<Seq<char>>,
) -> Result<Set<Seq<char>>, int>
    decreases off_chain(levels, visiting), 2int, levels[k].requires@.len() - r,
{
    if !(0 <= k < levels.len()) || r < 0 || r >= levels[k].requires@.len() {
        Ok(visited)
    } else {
        let next = match find_level(levels, levels[k].requires@[r]@) {
            None => Ok(visited),
            Some(p) => visit(levels, p, visited, visiting),
        };
        match next {
            Ok(v) => visit_requirements(levels, k, r + 1, v, visiting),
            Err(e) => Err(e),
        }
    }
}

/// The search from each level from the `k`-th on, in path order.
pub open spec fn search_from(levels: Seq<Level>, k: int, visited: Set<Seq<char>>) -> Result<Set<Seq<char>>, int>
    decreases levels.len() - k,
{
    if k < 0 || k >= levels.len() {
        Ok(visited)
    } else {
        match visit(levels, k, visited, Set::empty()) {
            Ok(v) => search_from(levels, k + 1, v),
            Err(e) => Err(e),
        }
    }
}

/// The level the search of a path meets again on its own chain, if any.
pub open spec fn cycle_found(levels: Seq<Level>) -> Option<int> {
    match search_from(levels, 0, Set::empty()) {
        Ok(_) => None,
        Err(e) => Some(e),
    }
}

/// Level `x` is finished: it is the first of its name, and that name is
/// finished.
pub open spec fn finished(levels: Seq<Level>, visited: Set<Seq<char>>, x: int) -> bool {
    &&& 0 <= x < levels.len()
    &&& find_level(levels, levels[x].id@) == Some(x)
    &&& visited.contains(levels[x].id@)
}

/// What the search keeps true of the finished levels: whatever they reach
/// is finished too, and none lies on a cycle.
pub open spec fn sound(levels: Seq<Level>, visited: Set<Seq<char>>) -> bool {
    &&& forall|x: int, y: int|
        #![trigger finished(levels, visited, x), reaches(levels, x, y)]
        finished(levels, visited, x) && reaches(levels, x, y) ==> finished(levels, visited, y)
    &&& forall|x: int| #[trigger] finished(levels, visited, x) ==> !on_cycle(levels, x)
}

/// The current chain of the search: each level on it is the first of its
/// name and requires the next one, and their names are those on the chain.
pub open spec fn chain_of(levels: Seq<Level>, st: Seq<int>, visiting: Set<Seq<char>>) -> bool {
    &&& forall|i: int|
        0 <= i < st.len() ==> 0 <= #[trigger] st[i] < levels.len() && find_level(levels, levels[st[i]].id@) == Some(
            st[i],
        )
    &&& forall|i: int| 0 <= i < st.len() - 1 ==> requires_edge(levels, #[trigger] st[i], st[i + 1])
    &&& forall|x: Seq<char>|
        #[trigger] visiting.contains(x) <==> exists|i: int| 0 <= i < st.len() && levels[st[i]].id@ == x
}

/// The first level of a name comes no later than any level of that name.
proof fn lemma_named_has_first(levels: Seq<Level>, id: Seq<char>, k: int)
    requires
        0 <= k < levels.len(),
        levels[k].id@ == id,
    ensures
        find_level(levels, id) matches Some(f) && f <= k,
    decreases k,
{
    if exists|j: int| 0 <= j < k && levels[j].id@ == id {
        let j = choose|j: int| 0 <= j < k && levels[j].id@ == id;
        lemma_named_has_first(levels, id, j);
    } else {
        assert(is_first_level(levels, id, k));
        lemma_first_level_unique(levels, id, k);
    }
}

/// The level a requirement resolves to is the first of its own name.
proof fn lemma_resolved_first(levels: Seq<Level>, id: Seq<char>, p: int)
    requires
        find_level(levels, id) == Some(p),
    ensures
        0 <= p < levels.len(),
        levels[p].id@ == id,
        find_level(levels, levels[p].id@) == Some(p),
{
    assert(is_first_level(levels, id, p));
}

/// A chain of requirements starts with one requirement.
proof fn lemma_first_step(levels: Seq<Level>, x: int, y: int) -> (b: int)
    requires
        reaches(levels, x, y),
    ensures
        0 <= b < levels.len(),
        requires_edge(levels, x, b),
        b == y || reaches(levels, b, y),
{
    let c = choose|c: Seq<int>| is_chain(levels, c) && c.len() >= 2 && c[0] == x && c.last() == y;
    assert(requires_edge(levels, c[0], c[1]));
    let b = c[1];
    if c.len() > 2 {
        let rest = c.subrange(1, c.len() as int);
        assert(is_chain(levels, rest)) by {
            assert forall|n: int| 0 <= n < rest.len() - 1 implies requires_edge(levels, #[trigger] rest[n], rest[n + 1]) by {
                assert(rest[n] == c[n + 1] && rest[n + 1] == c[n + 2]);
            }
        }
        assert(rest[0] == b && rest.last() == y);
    }
    b
}

/// A level on a cycle is the first of its name: it is required by the
/// level before it on the cycle.
proof fn lemma_on_cycle_first(levels: Seq<Level>, j: int)
    requires
        on_cycle(levels, j),
    ensures
        0 <= j < levels.len(),
        find_level(levels, levels[j].id@) == Some(j),
{
    let c = choose|c: Seq<int>| is_chain(levels, c) && c.len() >= 2 && c[0] == j && c.last() == j;
    let n = c.len() - 2;
    assert(requires_edge(levels, c[n], c[n + 1]));
    let r = choose|r: int|
        0 <= r < levels[c[n]].requires@.len() && find_level(levels, (#[trigger] levels[c[n]].requires@[r])@) == Some(j);
    lemma_resolved_first(levels, levels[c[n]].requires@[r]@, j);
}

/// The search from level `k` either finishes it, keeping the finished levels
/// sound, or meets a level again on its chain, and that level lies on a
/// cycle.
proof fn lemma_visit(levels: Seq<Level>, k: int, visited: Set<Seq<char>>, visiting: Set<Seq<char>>, st: Seq<int>)
    requires
        0 <= k < levels.len(),
        find_level(levels, levels[k].id@) == Some(k),
        sound(levels, visited),
        chain_of(levels, st, visiting),
        st.len() > 0 ==> requires_edge(levels, st.last(), k),
        forall|x: Seq<char>| visiting.contains(x) ==> !visited.contains(x),
    ensures
        match visit(levels, k, visited, visiting) {
            Ok(v) => {
                &&& sound(levels, v)
                &&& finished(levels, v, k)
                &&& visited.subset_of(v)
                &&& forall|x: Seq<char>| visiting.contains(x) ==> !v.contains(x)
            },
            Err(e) => on_cycle(levels, e),
        },
    decreases off_chain(levels, visiting), 1int, 0int,
{
    let id = levels[k].id@;
    if visited.contains(id) {
    } else if visiting.contains(id) {
        let i = choose|i: int| 0 <= i < st.len() && levels[st[i]].id@ == id;
        assert(find_level(levels, levels[st[i]].id@) == Some(st[i]));
        assert(st[i] == k);
        let c = st.subrange(i, st.len() as int).push(k);
        assert(is_chain(levels, c)) by {
            assert forall|n: int| 0 <= n < c.len() implies 0 <= #[trigger] c[n] < levels.len() by {
                if n < c.len() - 1 {
                    assert(c[n] == st[i + n]);
                }
            }
            assert forall|n: int| 0 <= n < c.len() - 1 implies requires_edge(levels, #[trigger] c[n], c[n + 1]) by {
                if n < c.len() - 2 {
                    assert(c[n] == st[i + n] && c[n + 1] == st[i + n + 1]);
                } else {
                    assert(c[n] == st.last());
                }
            }
        }
        assert(c[0] == k && c.last() == k);
    } else {
        lemma_unvisited_insert(levels, visiting, each_once(), id, levels.len() as int, k);
        let g = visiting.insert(id);
        let st2 = st.push(k);
        assert(chain_of(levels, st2, g)) by {
            assert forall|i: int| 0 <= i < st2.len() implies 0 <= #[trigger] st2[i] < levels.len() && find_level(
                levels,
                levels[st2[i]].id@,
            ) == Some(st2[i]) by {
                if i < st.len() {
                    assert(st2[i] == st[i]);
                }
            }
            assert forall|i: int| 0 <= i < st2.len() - 1 implies requires_edge(levels, #[trigger] st2[i], st2[i + 1]) by {
                if i < st.len() - 1 {
                    assert(st2[i] == st[i] && st2[i + 1] == st[i + 1]);
                } else {
                    assert(st2[i] == st.last());
                }
            }
            assert forall|x: Seq<char>| #[trigger] g.contains(x) <==> exists|i: int|
                0 <= i < st2.len() && levels[st2[i]].id@ == x by {
                if g.contains(x) {
                    if x == id {
                        assert(levels[st2[st.len() as int]].id@ == x);
                    } else {
                        let i = choose|i: int| 0 <= i < st.len() && levels[st[i]].id@ == x;
                        assert(st2[i] == st[i]);
                    }
                }
                if exists|i: int| 0 <= i < st2.len() && levels[st2[i]].id@ == x {
                    let i = choose|i: int| 0 <= i < st2.len() && levels[st2[i]].id@ == x;
                    if i < st.len() {
                        assert(st2[i] == st[i]);
                        assert(visiting.contains(x));
                    }
                }
            }
        }
        assert forall|x: Seq<char>| g.contains(x) implies !visited.contains(x) by {}
        lemma_visit_requirements(levels, k, 0, visited, g, st2);
        match visit_requirements(levels, k, 0, visited, g) {
            Ok(done) => {
                let last = done.insert(id);
                assert(!done.contains(id));
                // Every level `k` requires is finished.
                assert forall|b: int| 0 <= b < levels.len() && requires_edge(levels, k, b) implies finished(
                    levels,
                    done,
                    b,
                ) by {
                    let q = choose|q: int|
                        0 <= q < levels[k].requires@.len() && find_level(levels, (#[trigger] levels[k].requires@[q])@)
                            == Some(b);
                    assert(find_level(levels, levels[k].requires@[q]@) matches Some(p) ==> finished(levels, done, p));
                }
                // Whatever `k` reaches is finished; so `k` lies on no cycle.
                assert forall|y: int| reaches(levels, k, y) implies finished(levels, done, y) by {
                    let b = lemma_first_step(levels, k, y);
                    assert(finished(levels, done, b));
                }
                assert(!on_cycle(levels, k));
                assert forall|x: int| finished(levels, last, x) implies x == k || finished(levels, done, x) by {
                    if levels[x].id@ == id {
                        assert(find_level(levels, levels[x].id@) == Some(k));
                    }
                }
                assert forall|x: int, y: int|
                    #![trigger finished(levels, last, x), reaches(levels, x, y)]
                    finished(levels, last, x) && reaches(levels, x, y) implies finished(levels, last, y) by {
                    if x != k {
                        assert(finished(levels, done, x));
                        assert(finished(levels, done, y));
                    } else {
                        assert(finished(levels, done, y));
                    }
                }
                assert forall|x: int| #[trigger] finished(levels, last, x) implies !on_cycle(levels, x) by {
                    if x != k {
                        assert(finished(levels, done, x));
                    }
                }
                assert(finished(levels, last, k));
            },
            Err(e) => {},
        }
    }
}

/// The search through the requirements of level `k`, the last of the chain,
/// either finishes every level they name, keeping the finished levels sound,
/// or meets a level again on the chain, and that level lies on a cycle.
proof fn lemma_visit_requirements(
    levels: Seq<Level>,
    k: int,
    r: int,
    visited: Set<Seq<char>>,
    visiting: Set<Seq<char>>,
    st: Seq<int>,
)
    requires
        0 <= k < levels.len(),
        0 <= r,
        sound(levels, visited),
        chain_of(levels, st, visiting),
        st.len() > 0,
        st.last() == k,
        forall|x: Seq<char>| visiting.contains(x) ==> !visited.contains(x),
    ensures
        match visit_requirements(levels, k, r, visited, visiting) {
            Ok(v) => {
                &&& sound(levels, v)
                &&& visited.subset_of(v)
                &&& forall|x: Seq<char>| visiting.contains(x) ==> !v.contains(x)
                &&& forall|q: int|
                    r <= q < levels[k].requires@.len() ==> (find_level(levels, (#[trigger] levels[k].requires@[q])@)
                        matches Some(p) ==> finished(levels, v, p))
            },
            Err(e) => on_cycle(levels, e),
        },
    decreases off_chain(levels, visiting), 2int, levels[k].requires@.len() - r,
{
    if r < levels[k].requires@.len() {
        let name = levels[k].requires@[r]@;
        match find_level(levels, name) {
            None => {
                lemma_visit_requirements(levels, k, r + 1, visited, visiting, st);
                match visit_requirements(levels, k, r + 1, visited, visiting) {
                    Ok(v) => {
                        assert forall|q: int|
                            r <= q < levels[k].requires@.len() implies (find_level(
                                levels,
                                (#[trigger] levels[k].requires@[q])@,
                            ) matches Some(b) ==> finished(levels, v, b)) by {
                            if q == r {
                                assert(find_level(levels, name) is None);
                            }
                        }
                    },
                    Err(e) => {},
                }
            },
            Some(p) => {
                lemma_resolved_first(levels, name, p);
                assert(requires_edge(levels, k, p));
                lemma_visit(levels, p, visited, visiting, st);
                match visit(levels, p, visited, visiting) {
                    Ok(v) => {
                        lemma_visit_requirements(levels, k, r + 1, v, visiting, st);
                        match visit_requirements(levels, k, r + 1, v, visiting) {
                            Ok(w) => {
                                assert forall|q: int|
                                    r <= q < levels[k].requires@.len() implies (find_level(
                                        levels,
                                        (#[trigger] levels[k].requires@[q])@,
                                    ) matches Some(b) ==> finished(levels, w, b)) by {
                                    if q == r {
                                        assert(finished(levels, v, p));
                                    }
                                }
                            },
                            Err(e) => {},
                        }
                    },
                    Err(e) => {},
                }
            },
        }
    }
}

/// The search from each level from the `k`-th on.
proof fn lemma_search(levels: Seq<Level>, k: int, visited: Set<Seq<char>>)
    requires
        0 <= k <= levels.len(),
        sound(levels, visited),
        forall|f: int| 0 <= f < k && find_level(levels, levels[f].id@) == Some(f) ==> #[trigger] finished(levels, visited, f),
    ensures
        match search_from(levels, k, visited) {
            Ok(v) => sound(levels, v) && forall|f: int|
                0 <= f < levels.len() && find_level(levels, levels[f].id@) == Some(f) ==> #[trigger] finished(levels, v, f),
            Err(e) => on_cycle(levels, e),
        },
    decreases levels.len() - k,
{
    if k < levels.len() {
        let id = levels[k].id@;
        lemma_named_has_first(levels, id, k);
        let f = find_level(levels, id)->0;
        if f == k {
            lemma_visit(levels, k, visited, Set::empty(), Seq::empty());
        } else {
            assert(find_level(levels, levels[f].id@) == Some(f)) by {
                lemma_resolved_first(levels, id, f);
            }
            assert(finished(levels, visited, f));
        }
        match visit(levels, k, visited, Set::empty()) {
            Ok(v) => {
                assert forall|g: int| 0 <= g < k + 1 && find_level(levels, levels[g].id@) == Some(g) implies #[trigger] finished(
                    levels,
                    v,
                    g,
                ) by {
                    if g < k {
                        assert(finished(levels, visited, g));
                    }
                }
                lemma_search(levels, k + 1, v);
            },
            Err(e) => {},
        }
    }
}

/// The search finds a cycle exactly when a level of the path lies on one,
/// and the level it names lies on one.
pub proof fn law_cycle_search(levels: Seq<Level>)
    ensures
        cycle_found(levels) is None <==> forall|j: int| 0 <= j < levels.len() ==> !on_cycle(levels, j),
        cycle_found(levels) matches Some(j) ==> 0 <= j < levels.len() && on_cycle(levels, j),
{
    lemma_search(levels, 0, Set::empty());
    match search_from(levels, 0, Set::empty()) {
        Ok(v) => {
            assert forall|j: int| 0 <= j < levels.len() implies !on_cycle(levels, j) by {
                if on_cycle(levels, j) {
                    lemma_on_cycle_first(levels, j);
                    assert(finished(levels, v, j));
                }
            }
        },
        Err(e) => {
            lemma_on_cycle_first(levels, e);
        },
    }
}

/// A level met again is a level of the path.
proof fn lemma_found_in_range(levels: Seq<Level>, k: int, visited: Set<Seq<char>>, visiting: Set<Seq<char>>)
    ensures
        visit(levels, k, visited, visiting) matches Err(e) ==> 0 <= e < levels.len(),
    decreases off_chain(levels, visiting), 1int, 0int,
{
    if 0 <= k < levels.len() {
        let id = levels[k].id@;
        if !visited.contains(id) && !visiting.contains(id) {
            lemma_unvisited_insert(levels, visiting, each_once(), id, levels.len() as int, k);
            lemma_found_in_range_requirements(levels, k, 0, visited, visiting.insert(id));
        }
    }
}

proof fn lemma_found_in_range_requirements(
    levels: Seq<Level>,
    k: int,
    r: int,
    visited: Set<Seq<char>>,
    visiting: Set<Seq<char>>,
)
    ensures
        visit_requirements(levels, k, r, visited, visiting) matches Err(e) ==> 0 <= e < levels.len(),
    decreases off_chain(levels, visiting), 2int, levels[k].requires@.len() - r,
{
    if 0 <= k < levels.len() && 0 <= r < levels[k].requires@.len() {
        match find_level(levels, levels[k].requires@[r]@) {
            None => {
                lemma_found_in_range_requirements(levels, k, r + 1, visited, visiting);
            },
            Some(p) => {
                lemma_found_in_range(levels, p, visited, visiting);
                if let Ok(v) = visit(levels, p, visited, visiting) {
                    lemma_found_in_range_requirements(levels, k, r + 1, v, visiting);
                }
            },
        }
    }
}

/// The search from level `k`, with the names finished and those on the
/// current chain kept in lists. The chain comes back as it was when the
/// search finishes.
fn visit_level(levels: &Vec<Level>, k: usize, visited: &mut Vec<String>, visiting: &mut Vec<String>) -> (r: Result<
    (),
    usize,
>)
    requires
        k < levels@.len(),
    ensures
        match visit(levels@, k as int, name_set(old(visited)@), name_set(old(visiting)@)) {
            Ok(v) => r is Ok && name_set(final(visited)@) == v && final(visiting)@ == old(visiting)@,
            Err(e) => 0 <= e < levels@.len() && (r matches Err(x) && x as int == e),
        },
    decreases off_chain(levels@, name_set(old(visiting)@)),
{
    proof {
        lemma_found_in_range(levels@, k as int, name_set(visited@), name_set(visiting@));
    }
    let id = &levels[k].id;
    if knows_sign(visited, id.as_str()) {
        return Ok(());
    }
    if knows_sign(visiting, id.as_str()) {
        return Err(k);
    }
    let ghost v0 = name_set(visited@);
    let ghost g0 = name_set(visiting@);
    proof {
        lemma_unvisited_insert(levels@, g0, each_once(), id@, levels@.len() as int, k as int);
        lemma_name_set_push(visiting@, *id);
    }
    visiting.push(id.clone());
    let ghost stack = visiting@;
    let ghost g = name_set(stack);
    assert(g == g0.insert(id@));
    let needs = &levels[k].requires;
    let mut r: usize = 0;
    while r < needs.len()
        invariant
            k < levels@.len(),
            needs == &levels@[k as int].requires,
            r <= needs@.len(),
            visiting@ == stack,
            g == name_set(stack),
            g0 == name_set(old(visiting)@),
            v0 == name_set(old(visited)@),
            !v0.contains(levels@[k as int].id@),
            !g0.contains(levels@[k as int].id@),
            g == g0.insert(levels@[k as int].id@),
            off_chain(levels@, g) < off_chain(levels@, g0),
            visit_requirements(levels@, k as int, 0, v0, g) == visit_requirements(
                levels@,
                k as int,
                r as int,
                name_set(visited@),
                g,
            ),
        decreases needs@.len() - r,
    {
        let ghost before = name_set(visited@);
        match find_level_index(levels, needs[r].as_str()) {
            None => {},
            Some(p) => {
                match visit_level(levels, p, visited, visiting) {
                    Ok(()) => {},
                    Err(e) => {
                        assert(needs@[r as int] == levels@[k as int].requires@[r as int]);
                        assert(find_level(levels@, levels@[k as int].requires@[r as int]@) == Some(p as int));
                        assert(visit(levels@, p as int, before, g) == Err::<Set<Seq<char>>, int>(e as int));
                        assert(visit_requirements(levels@, k as int, r as int, before, g) == Err::<Set<Seq<char>>, int>(
                            e as int,
                        ));
                        return Err(e);
                    },
                }
            },
        }
        r = r + 1;
    }
    let ghost done = name_set(visited@);
    assert(visit_requirements(levels@, k as int, 0, v0, g) == Ok::<Set<Seq<char>>, int>(done));
    visiting.pop();
    assert(visiting@ =~= stack.drop_last());
    proof {
        lemma_name_set_push(visited@, *id);
    }
    visited.push(id.clone());
    Ok(())
}

/// The level the search of a path meets again on its own chain, if any.
pub fn find_cycle(levels: &Vec<Level>) -> (found: Option<usize>)
    ensures
        match cycle_found(levels@) {
            None => found is None,
            Some(j) => found matches Some(x) && x as int == j && j < levels@.len(),
        },
{
    proof {
        law_cycle_search(levels@);
    }
    let mut visited: Vec<String> = Vec::new();
    let mut k: usize = 0;
    assert(name_set(visited@) =~= Set::<Seq<char>>::empty());
    while k < levels.len()
        invariant
            k <= levels@.len(),
            search_from(levels@, 0, Set::empty()) == search_from(levels@, k as int, name_set(visited@)),
        decreases levels@.len() - k,
    {
        let mut visiting: Vec<String> = Vec::new();
        assert(name_set(visiting@) =~= Set::<Seq<char>>::empty());
        let ghost before = name_set(visited@);
        match visit_level(levels, k, &mut visited, &mut visiting) {
            Ok(()) => {},
            Err(e) => {
                assert(search_from(levels@, k as int, before) == Err::<Set<Seq<char>>, int>(e as int));
                return Some(e);
            },
        }
        k = k + 1;
    }
    None
}

} // verus!
