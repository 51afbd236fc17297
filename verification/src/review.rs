//! The signs a level reviews: those of every level it requires, directly or
//! not, however long the chain.
//!
//! They are gathered by walking the requirements from a pile: the last
//! identifier put on the pile is visited first, a name is visited once, and a
//! level met gives its glyphs then puts its own requirements on the pile. A
//! sign taught again further on is kept once, as first met.

use vstd::prelude::*;

use crate::draw::{first_of_each, has_sign, keep_first, knows, knows_sign, copies, lemma_first_of_each_complete,
    lemma_first_of_each_from, lemma_first_of_each_len, lemma_first_of_each_unique, path_glyphs};
use crate::model::{find_level, find_level_index, Glyph, Level};
use crate::paths::{lemma_closed_holds_reached, lemma_reach_direct, lemma_reach_extend, reaches, requires_edge};

verus! {

/// The identifiers a list of names holds.
pub open spec fn ids(names: Seq<String>) -> Seq<Seq<char>> {
    names.map_values(|name: String| name@)
}

/// Where a walk through the requirements stands: the identifiers still to
/// visit, the last one first; those already visited; and the glyphs of the
/// levels walked through, in the order they were met.
pub ghost struct Walk {
    pub pending: Seq<Seq<char>>,
    pub visited: Set<Seq<char>>,
    pub met: Seq<Glyph>,
}

/// The sum of `size` over those of the first `n` levels whose name is not
/// visited yet.
pub open spec fn unvisited_sum(levels: Seq<Level>, visited: Set<Seq<char>>, size: spec_fn(Level) -> nat, n: int) -> nat
    decreases n,
{
    if n <= 0 {
        0
    } else {
        unvisited_sum(levels, visited, size, n - 1) + if visited.contains(levels[n - 1].id@) {
            0nat
        } else {
            size(levels[n - 1])
        }
    }
}

/// How many requirements a level names.
pub open spec fn requirement_count() -> spec_fn(Level) -> nat {
    |level: Level| level.requires@.len()
}

/// How many glyphs a level teaches.
pub open spec fn glyph_count() -> spec_fn(Level) -> nat {
    |level: Level| level.glyphs@.len()
}

/// What is left of a walk: the identifiers on the pile, and the
/// requirements of every level whose name is still to visit.
pub open spec fn potential(levels: Seq<Level>, w: Walk) -> nat {
    w.pending.len() + unvisited_sum(levels, w.visited, requirement_count(), levels.len() as int)
}

/// One step of the walk: the last identifier leaves the pile. A name not
/// visited yet becomes visited, and the first level of that name, if any,
/// gives its glyphs and puts its own requirements on the pile.
pub open spec fn walk_step(levels: Seq<Level>, w: Walk) -> Walk {
    let id = w.pending.last();
    let rest = w.pending.drop_last();
    if w.visited.contains(id) {
        Walk { pending: rest, ..w }
    } else {
        match find_level(levels, id) {
            None => Walk { pending: rest, visited: w.visited.insert(id), met: w.met },
            Some(k) => Walk {
                pending: rest + ids(levels[k].requires@),
                visited: w.visited.insert(id),
                met: w.met + levels[k].glyphs@,
            },
        }
    }
}

/// Visiting one more name never adds to a sum over the unvisited levels,
/// and visiting the name of level `k` takes its share off.
pub proof fn lemma_unvisited_insert(
    levels: Seq<Level>,
    visited: Set<Seq<char>>,
    size: spec_fn(Level) -> nat,
    id: Seq<char>,
    n: int,
    k: int,
)
    ensures
        unvisited_sum(levels, visited.insert(id), size, n) <= unvisited_sum(levels, visited, size, n),
        0 <= k < n && levels[k].id@ == id && !visited.contains(id) ==> unvisited_sum(levels, visited.insert(id), size, n)
            + size(levels[k]) <= unvisited_sum(levels, visited, size, n),
    decreases n,
{
    if n > 0 {
        lemma_unvisited_insert(levels, visited, size, id, n - 1, k);
    }
}

/// With nothing visited, the glyphs of the unvisited levels are all those of
/// the path.
proof fn lemma_unvisited_none(levels: Seq<Level>, n: int)
    ensures
        unvisited_sum(levels, Set::empty(), glyph_count(), n) == path_glyphs(levels, n).len(),
    decreases n,
{
    if n > 0 {
        lemma_unvisited_none(levels, n - 1);
    }
}

/// Each step leaves less to do.
pub proof fn lemma_step_decreases(levels: Seq<Level>, w: Walk)
    requires
        w.pending.len() > 0,
    ensures
        potential(levels, walk_step(levels, w)) < potential(levels, w),
{
    let id = w.pending.last();
    let n = levels.len() as int;
    match find_level(levels, id) {
        Some(k) => {
            lemma_unvisited_insert(levels, w.visited, requirement_count(), id, n, k);
        },
        None => {
            lemma_unvisited_insert(levels, w.visited, requirement_count(), id, n, 0);
        },
    }
}

/// The walk, until the pile is empty.
pub open spec fn walk(levels: Seq<Level>, w: Walk) -> Walk
    decreases potential(levels, w),
{
    if w.pending.len() == 0 {
        w
    } else {
        proof {
            lemma_step_decreases(levels, w);
        }
        walk(levels, walk_step(levels, w))
    }
}

/// The walk that gathers the review of level `j`, from its own requirements.
pub open spec fn review_walk(levels: Seq<Level>, j: int) -> Walk {
    walk(levels, Walk { pending: ids(levels[j].requires@), visited: Set::empty(), met: Seq::empty() })
}

/// The signs level `j` reviews: one glyph of each sign met along the walk,
/// the first met.
pub open spec fn review_of(levels: Seq<Level>, j: int) -> Seq<Glyph> {
    first_of_each(review_walk(levels, j).met)
}

/// `id` is named as a requirement by level `j` or by a level reached from it.
pub open spec fn required_near(levels: Seq<Level>, j: int, id: Seq<char>) -> bool {
    exists|a: int, r: int|
        0 <= a < levels.len() && (a == j || reaches(levels, j, a)) && 0 <= r < levels[a].requires@.len()
            && (#[trigger] levels[a].requires@[r])@ == id
}

/// Level `k` was walked through: it is the first of its name, and that name
/// was visited.
pub open spec fn walked(levels: Seq<Level>, w: Walk, k: int) -> bool {
    &&& 0 <= k < levels.len()
    &&& find_level(levels, levels[k].id@) == Some(k)
    &&& w.visited.contains(levels[k].id@)
}

/// Glyph `x` is one of a level reached from level `j`.
pub open spec fn from_reached(levels: Seq<Level>, j: int, x: Glyph) -> bool {
    exists|k: int, g: int|
        0 <= k < levels.len() && reaches(levels, j, k) && 0 <= g < levels[k].glyphs@.len() && #[trigger] levels[k].glyphs@[g]
            == x
}

/// A name visited already, or still on the pile.
pub open spec fn handled(w: Walk, id: Seq<char>) -> bool {
    w.visited.contains(id) || w.pending.contains(id)
}

/// What holds all along the walk that gathers the review of level `j`.
pub open spec fn walk_inv(levels: Seq<Level>, j: int, w: Walk) -> bool {
    &&& 0 <= j < levels.len()
    &&& forall|p: int| 0 <= p < w.pending.len() ==> required_near(levels, j, #[trigger] w.pending[p])
    &&& forall|i: int| 0 <= i < w.met.len() ==> from_reached(levels, j, #[trigger] w.met[i])
    &&& forall|r: int| 0 <= r < levels[j].requires@.len() ==> handled(w, (#[trigger] levels[j].requires@[r])@)
    &&& forall|k: int, r: int|
        walked(levels, w, k) && 0 <= r < levels[k].requires@.len() ==> handled(w, (#[trigger] levels[k].requires@[r])@)
    &&& forall|k: int, g: int|
        walked(levels, w, k) && 0 <= g < levels[k].glyphs@.len() ==> w.met.contains(#[trigger] levels[k].glyphs@[g])
    &&& w.met.len() + unvisited_sum(levels, w.visited, glyph_count(), levels.len() as int) <= path_glyphs(
        levels,
        levels.len() as int,
    ).len()
}

/// A name handled stays handled.
proof fn lemma_handled_kept(levels: Seq<Level>, w: Walk, x: Seq<char>)
    requires
        w.pending.len() > 0,
        handled(w, x),
    ensures
        handled(walk_step(levels, w), x),
{
    let id = w.pending.last();
    let rest = w.pending.drop_last();
    let next = walk_step(levels, w);
    if !w.visited.contains(x) {
        let p = choose|p: int| 0 <= p < w.pending.len() && w.pending[p] == x;
        if p < w.pending.len() - 1 {
            assert(rest[p] == x);
            if !w.visited.contains(id) {
                if let Some(k) = find_level(levels, id) {
                    assert(next.pending[p] == x);
                }
            }
            assert(next.pending[p] == x);
        }
    }
}

/// The level a visited requirement names is reached.
proof fn lemma_named_reached(levels: Seq<Level>, j: int, id: Seq<char>, k: int)
    requires
        required_near(levels, j, id),
        find_level(levels, id) == Some(k),
    ensures
        reaches(levels, j, k),
        0 <= k < levels.len(),
        levels[k].id@ == id,
{
    let (a, r) = choose|a: int, r: int|
        0 <= a < levels.len() && (a == j || reaches(levels, j, a)) && 0 <= r < levels[a].requires@.len()
            && (#[trigger] levels[a].requires@[r])@ == id;
    assert(requires_edge(levels, a, k));
    if a == j {
        lemma_reach_direct(levels, j, k);
    } else {
        lemma_reach_extend(levels, j, a, k);
    }
}

/// One step keeps what holds along the walk.
proof fn lemma_step_inv(levels: Seq<Level>, j: int, w: Walk)
    requires
        walk_inv(levels, j, w),
        w.pending.len() > 0,
    ensures
        walk_inv(levels, j, walk_step(levels, w)),
{
    let id = w.pending.last();
    let rest = w.pending.drop_last();
    let next = walk_step(levels, w);
    let n = levels.len() as int;
    assert(required_near(levels, j, w.pending[w.pending.len() - 1]));
    assert forall|r: int| 0 <= r < levels[j].requires@.len() implies handled(next, (#[trigger] levels[j].requires@[r])@) by {
        lemma_handled_kept(levels, w, levels[j].requires@[r]@);
    }
    if w.visited.contains(id) {
        assert(next.met == w.met);
        assert forall|p: int| 0 <= p < next.pending.len() implies required_near(levels, j, #[trigger] next.pending[p]) by {
            assert(next.pending[p] == w.pending[p]);
        }
        assert forall|k: int, r: int|
            walked(levels, next, k) && 0 <= r < levels[k].requires@.len() implies handled(
            next,
            (#[trigger] levels[k].requires@[r])@,
        ) by {
            assert(walked(levels, w, k));
            lemma_handled_kept(levels, w, levels[k].requires@[r]@);
        }
    } else {
        lemma_unvisited_insert(levels, w.visited, glyph_count(), id, n, 0);
        match find_level(levels, id) {
            None => {
                assert(next.met == w.met);
                assert forall|p: int| 0 <= p < next.pending.len() implies required_near(
                    levels,
                    j,
                    #[trigger] next.pending[p],
                ) by {
                    assert(next.pending[p] == w.pending[p]);
                }
                assert forall|k: int, r: int|
                    walked(levels, next, k) && 0 <= r < levels[k].requires@.len() implies handled(
                    next,
                    (#[trigger] levels[k].requires@[r])@,
                ) by {
                    if levels[k].id@ == id {
                        assert(find_level(levels, id) == Some(k));
                    }
                    assert(walked(levels, w, k));
                    lemma_handled_kept(levels, w, levels[k].requires@[r]@);
                }
                assert forall|k: int, g: int|
                    walked(levels, next, k) && 0 <= g < levels[k].glyphs@.len() implies next.met.contains(
                    #[trigger] levels[k].glyphs@[g],
                ) by {
                    if levels[k].id@ == id {
                        assert(find_level(levels, id) == Some(k));
                    }
                    assert(walked(levels, w, k));
                }
            },
            Some(e) => {
                lemma_named_reached(levels, j, id, e);
                lemma_unvisited_insert(levels, w.visited, glyph_count(), id, n, e);
                let added = levels[e].glyphs@;
                assert(next.met == w.met + added);
                assert forall|p: int| 0 <= p < next.pending.len() implies required_near(
                    levels,
                    j,
                    #[trigger] next.pending[p],
                ) by {
                    if p < rest.len() {
                        assert(next.pending[p] == w.pending[p]);
                    } else {
                        let r = p - rest.len();
                        assert(next.pending[p] == levels[e].requires@[r]@);
                        assert(0 <= e < levels.len() && reaches(levels, j, e) && 0 <= r < levels[e].requires@.len()
                            && (levels[e].requires@[r])@ == next.pending[p]);
                    }
                }
                assert forall|i: int| 0 <= i < next.met.len() implies from_reached(levels, j, #[trigger] next.met[i]) by {
                    if i < w.met.len() {
                        assert(next.met[i] == w.met[i]);
                    } else {
                        let g = i - w.met.len();
                        assert(next.met[i] == levels[e].glyphs@[g]);
                    }
                }
                assert forall|k: int, r: int|
                    walked(levels, next, k) && 0 <= r < levels[k].requires@.len() implies handled(
                    next,
                    (#[trigger] levels[k].requires@[r])@,
                ) by {
                    if levels[k].id@ == id {
                        assert(k == e);
                        assert(next.pending[rest.len() + r] == levels[k].requires@[r]@);
                    } else {
                        assert(walked(levels, w, k));
                        lemma_handled_kept(levels, w, levels[k].requires@[r]@);
                    }
                }
                assert forall|k: int, g: int|
                    walked(levels, next, k) && 0 <= g < levels[k].glyphs@.len() implies next.met.contains(
                    #[trigger] levels[k].glyphs@[g],
                ) by {
                    if levels[k].id@ == id {
                        assert(k == e);
                        assert(next.met[w.met.len() + g] == levels[k].glyphs@[g]);
                    } else {
                        assert(walked(levels, w, k));
                        let i = choose|i: int| 0 <= i < w.met.len() && w.met[i] == levels[k].glyphs@[g];
                        assert(next.met[i] == levels[k].glyphs@[g]);
                    }
                }
            },
        }
    }
}

/// What holds along the walk holds at its end, where the pile is empty.
proof fn lemma_walk_inv(levels: Seq<Level>, j: int, w: Walk)
    requires
        walk_inv(levels, j, w),
    ensures
        walk_inv(levels, j, walk(levels, w)),
        walk(levels, w).pending.len() == 0,
    decreases potential(levels, w),
{
    if w.pending.len() > 0 {
        lemma_step_inv(levels, j, w);
        lemma_step_decreases(levels, w);
        lemma_walk_inv(levels, j, walk_step(levels, w));
    }
}

/// The walk of level `j` starts in a state where all of it holds.
proof fn lemma_walk_start(levels: Seq<Level>, j: int)
    requires
        0 <= j < levels.len(),
    ensures
        walk_inv(levels, j, Walk { pending: ids(levels[j].requires@), visited: Set::empty(), met: Seq::empty() }),
{
    let w = Walk { pending: ids(levels[j].requires@), visited: Set::empty(), met: Seq::empty() };
    lemma_unvisited_none(levels, levels.len() as int);
    assert forall|p: int| 0 <= p < w.pending.len() implies required_near(levels, j, #[trigger] w.pending[p]) by {
        assert(w.pending[p] == levels[j].requires@[p]@);
    }
    assert forall|r: int| 0 <= r < levels[j].requires@.len() implies handled(w, (#[trigger] levels[j].requires@[r])@) by {
        assert(w.pending[r] == levels[j].requires@[r]@);
    }
}

/// The review of level `j` holds every sign taught by the levels it
/// requires, directly or not; each sign once; nothing but glyphs of those
/// levels; and no more glyphs than the whole path teaches.
pub proof fn lemma_review(levels: Seq<Level>, j: int)
    requires
        0 <= j < levels.len(),
    ensures
        forall|a: int, b: int|
            0 <= a < b < review_of(levels, j).len() ==> (#[trigger] review_of(levels, j)[a]).char@
                != (#[trigger] review_of(levels, j)[b]).char@,
        forall|k: int, g: int|
            0 <= k < levels.len() && reaches(levels, j, k) && 0 <= g < levels[k].glyphs@.len() ==> has_sign(
                review_of(levels, j),
                (#[trigger] levels[k].glyphs@[g]).char@,
            ),
        forall|a: int| 0 <= a < review_of(levels, j).len() ==> from_reached(levels, j, #[trigger] review_of(levels, j)[a]),
        review_of(levels, j).len() <= path_glyphs(levels, levels.len() as int).len(),
{
    let start = Walk { pending: ids(levels[j].requires@), visited: Set::empty(), met: Seq::empty() };
    lemma_walk_start(levels, j);
    lemma_walk_inv(levels, j, start);
    let end = review_walk(levels, j);
    let met = end.met;
    let n = levels.len() as int;
    lemma_first_of_each_unique(met);
    lemma_first_of_each_complete(met);
    lemma_first_of_each_from(met);
    lemma_first_of_each_len(met);
    let marks = Seq::new(levels.len(), |k: int| walked(levels, end, k));
    assert forall|k: int| 0 <= k < n && requires_edge(levels, j, k) implies #[trigger] marks[k] by {
        let r = choose|r: int| 0 <= r < levels[j].requires@.len() && find_level(levels, (#[trigger] levels[j].requires@[r])@) == Some(k);
        let id = levels[j].requires@[r]@;
        assert(handled(end, id));
        assert(levels[k].id@ == id);
    }
    assert forall|a: int, k: int|
        0 <= a < n && 0 <= k < n && #[trigger] marks[a] && requires_edge(levels, a, k) implies #[trigger] marks[k] by {
        let r = choose|r: int| 0 <= r < levels[a].requires@.len() && find_level(levels, (#[trigger] levels[a].requires@[r])@) == Some(k);
        let id = levels[a].requires@[r]@;
        assert(walked(levels, end, a));
        assert(handled(end, id));
        assert(levels[k].id@ == id);
    }
    assert forall|k: int, g: int|
        0 <= k < levels.len() && reaches(levels, j, k) && 0 <= g < levels[k].glyphs@.len() implies has_sign(
        review_of(levels, j),
        (#[trigger] levels[k].glyphs@[g]).char@,
    ) by {
        lemma_closed_holds_reached(levels, j, marks, k);
        assert(walked(levels, end, k));
        let i = choose|i: int| 0 <= i < met.len() && met[i] == levels[k].glyphs@[g];
        assert(has_sign(first_of_each(met), met[i].char@));
    }
    assert forall|a: int| 0 <= a < review_of(levels, j).len() implies from_reached(levels, j, #[trigger] review_of(levels, j)[a]) by {
        let i = choose|i: int| 0 <= i < met.len() && met[i] == first_of_each(met)[a];
        assert(met[i] == review_of(levels, j)[a]);
        assert(from_reached(levels, j, met[i]));
    }
}

/// The names of a list, as a set.
pub open spec fn name_set(names: Seq<String>) -> Set<Seq<char>> {
    Set::new(|x: Seq<char>| knows(names, x))
}

/// A name added at the end of a list joins its set.
pub proof fn lemma_name_set_push(names: Seq<String>, s: String)
    ensures
        name_set(names.push(s)) == name_set(names).insert(s@),
{
    let longer = names.push(s);
    assert forall|x: Seq<char>| knows(longer, x) == (knows(names, x) || x == s@) by {
        if knows(longer, x) {
            let i = choose|i: int| 0 <= i < longer.len() && (#[trigger] longer[i])@ == x;
            if i < names.len() {
                assert(names[i] == longer[i]);
            }
        }
        if knows(names, x) {
            let i = choose|i: int| 0 <= i < names.len() && (#[trigger] names[i])@ == x;
            assert(longer[i] == names[i]);
        }
        if x == s@ {
            assert(longer[names.len() as int] == s);
        }
    }
    assert(name_set(longer) =~= name_set(names).insert(s@));
}

/// One glyph of each sign taught by the levels level `j` requires, directly
/// or not: the first met when walking the requirements.
pub fn gather_review(levels: &Vec<Level>, j: usize) -> (pool: Vec<Glyph>)
    requires
        j < levels@.len(),
    ensures
        copies(pool@, review_of(levels@, j as int)),
{
    let first = &levels[j].requires;
    let mut pending: Vec<String> = Vec::new();
    let mut r: usize = 0;
    while r < first.len()
        invariant
            r <= first@.len(),
            ids(pending@) == ids(first@.take(r as int)),
        decreases first@.len() - r,
    {
        let ghost prev = pending@;
        pending.push(first[r].clone());
        proof {
            assert(ids(pending@) =~= ids(prev).push(first@[r as int]@));
            assert(ids(first@.take(r + 1)) =~= ids(first@.take(r as int)).push(first@[r as int]@));
        }
        r = r + 1;
    }
    assert(first@.take(first@.len() as int) =~= first@);
    let mut visited: Vec<String> = Vec::new();
    let mut pool: Vec<Glyph> = Vec::new();
    let ghost start = Walk { pending: ids(levels@[j as int].requires@), visited: Set::empty(), met: Seq::empty() };
    let ghost mut w = start;
    proof {
        assert(name_set(visited@) =~= Set::<Seq<char>>::empty());
        assert(first_of_each(w.met) =~= Seq::<Glyph>::empty());
    }
    while pending.len() > 0
        invariant
            j < levels@.len(),
            ids(pending@) == w.pending,
            name_set(visited@) == w.visited,
            copies(pool@, first_of_each(w.met)),
            walk(levels@, w) == walk(levels@, start),
        decreases potential(levels@, w),
    {
        let ghost before = w;
        let id = pending.pop().unwrap();
        proof {
            assert(ids(pending@) =~= before.pending.drop_last());
            assert(id@ == before.pending.last());
            lemma_step_decreases(levels@, before);
            w = walk_step(levels@, before);
        }
        if knows_sign(&visited, id.as_str()) {
            assert(before.visited.contains(id@));
        } else {
            assert(!before.visited.contains(id@));
            match find_level_index(levels, id.as_str()) {
                None => {},
                Some(k) => {
                    let level = &levels[k];
                    let mut g: usize = 0;
                    while g < level.glyphs.len()
                        invariant
                            g <= level.glyphs@.len(),
                            copies(pool@, first_of_each(before.met + level.glyphs@.take(g as int))),
                        decreases level.glyphs@.len() - g,
                    {
                        proof {
                            assert((before.met + level.glyphs@.take(g as int)).push(level.glyphs@[g as int])
                                =~= before.met + level.glyphs@.take(g + 1));
                        }
                        keep_first(&mut pool, &level.glyphs[g], Ghost(before.met + level.glyphs@.take(g as int)));
                        g = g + 1;
                    }
                    assert(level.glyphs@.take(level.glyphs@.len() as int) =~= level.glyphs@);
                    let ghost rest = pending@;
                    let mut q: usize = 0;
                    while q < level.requires.len()
                        invariant
                            q <= level.requires@.len(),
                            ids(pending@) == ids(rest) + ids(level.requires@.take(q as int)),
                        decreases level.requires@.len() - q,
                    {
                        let ghost prev = pending@;
                        pending.push(level.requires[q].clone());
                        proof {
                            assert(ids(pending@) =~= ids(prev).push(level.requires@[q as int]@));
                            assert(ids(level.requires@.take(q + 1)) =~= ids(level.requires@.take(q as int)).push(
                                level.requires@[q as int]@,
                            ));
                        }
                        q = q + 1;
                    }
                    assert(level.requires@.take(level.requires@.len() as int) =~= level.requires@);
                },
            }
            let ghost seen = visited@;
            let ghost name = id@;
            visited.push(id);
            proof {
                assert(visited@ == seen.push(visited@.last()));
                assert(visited@.last()@ == name);
                assert(name_set(visited@) =~= before.visited.insert(name)) by {
                    assert forall|x: Seq<char>| knows(visited@, x) == (before.visited.contains(x) || x == name) by {
                        if knows(visited@, x) {
                            let i = choose|i: int| 0 <= i < visited@.len() && (#[trigger] visited@[i])@ == x;
                            if i < seen.len() {
                                assert(seen[i] == visited@[i]);
                            }
                        }
                        if before.visited.contains(x) {
                            assert(knows(seen, x));
                            let i = choose|i: int| 0 <= i < seen.len() && (#[trigger] seen[i])@ == x;
                            assert(visited@[i] == seen[i]);
                        }
                        if x == name {
                            assert(visited@[visited@.len() - 1]@ == x);
                        }
                    }
                }
            }
        }
    }
    proof {
        assert(walk(levels@, w) == w);
    }
    pool
}

} // verus!
