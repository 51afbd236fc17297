//! Which sign falls next: the pools a round draws from, and the weighted
//! draw that favours what the player knows badly.

use vstd::prelude::*;

use crate::keyed::TextMap;
use crate::model::{same_glyph, Glyph, Level};
use crate::random::{random_below, RANDOM_LIMIT};
use crate::text::same_text;

verus! {

/// The heaviest draw weight a sign can carry.
pub const MAX_WEIGHT: u32 = 9;

/// Some glyph of `s` carries the sign `c`.
pub open spec fn has_sign(s: Seq<Glyph>, c: Seq<char>) -> bool {
    exists|i: int| 0 <= i < s.len() && (#[trigger] s[i]).char@ == c
}

/// `s` with only the first glyph of each sign, in order.
pub open spec fn first_of_each(s: Seq<Glyph>) -> Seq<Glyph>
    decreases s.len(),
{
    if s.len() == 0 {
        Seq::empty()
    } else {
        let kept = first_of_each(s.drop_last());
        if has_sign(kept, s.last().char@) {
            kept
        } else {
            kept.push(s.last())
        }
    }
}

/// `a` holds copies of the glyphs of `b`, in the same order.
pub open spec fn copies(a: Seq<Glyph>, b: Seq<Glyph>) -> bool {
    &&& a.len() == b.len()
    &&& forall|i: int| 0 <= i < a.len() ==> same_glyph(#[trigger] a[i], b[i])
}

/// Copies carry the same signs.
pub proof fn lemma_copies_sign(a: Seq<Glyph>, b: Seq<Glyph>, c: Seq<char>)
    requires
        copies(a, b),
    ensures
        has_sign(a, c) == has_sign(b, c),
{
    if has_sign(a, c) {
        let i = choose|i: int| 0 <= i < a.len() && (#[trigger] a[i]).char@ == c;
        assert(same_glyph(a[i], b[i]));
    }
    if has_sign(b, c) {
        let i = choose|i: int| 0 <= i < b.len() && (#[trigger] b[i]).char@ == c;
        assert(same_glyph(a[i], b[i]));
    }
}

/// Adding a glyph at the end of the source adds it to the kept ones unless
/// its sign is already kept.
proof fn lemma_first_push(s: Seq<Glyph>, g: Glyph)
    ensures
        first_of_each(s.push(g)) == (if has_sign(first_of_each(s), g.char@) {
            first_of_each(s)
        } else {
            first_of_each(s).push(g)
        }),
{
    assert(s.push(g).drop_last() =~= s);
}

/// Every glyph kept comes from the source.
pub proof fn lemma_first_of_each_from(s: Seq<Glyph>)
    ensures
        forall|i: int| 0 <= i < first_of_each(s).len() ==> s.contains(#[trigger] first_of_each(s)[i]),
    decreases s.len(),
{
    if s.len() > 0 {
        lemma_first_of_each_from(s.drop_last());
        let kept = first_of_each(s.drop_last());
        assert forall|i: int| 0 <= i < first_of_each(s).len() implies s.contains(#[trigger] first_of_each(s)[i]) by {
            if i < kept.len() {
                let j = choose|j: int| 0 <= j < s.drop_last().len() && s.drop_last()[j] == kept[i];
                assert(s[j] == kept[i]);
            } else {
                assert(s[s.len() - 1] == s.last());
            }
        }
    }
}

/// No sign is kept twice.
pub proof fn lemma_first_of_each_unique(s: Seq<Glyph>)
    ensures
        forall|i: int, j: int|
            0 <= i < j < first_of_each(s).len() ==> (#[trigger] first_of_each(s)[i]).char@ != (#[trigger] first_of_each(
                s,
            )[j]).char@,
    decreases s.len(),
{
    if s.len() > 0 {
        lemma_first_of_each_unique(s.drop_last());
        let kept = first_of_each(s.drop_last());
        if !has_sign(kept, s.last().char@) {
            assert forall|i: int, j: int|
                0 <= i < j < first_of_each(s).len() implies (#[trigger] first_of_each(s)[i]).char@
                != (#[trigger] first_of_each(s)[j]).char@ by {
                if j == kept.len() {
                    assert(kept[i] == first_of_each(s)[i]);
                }
            }
        }
    }
}

/// Every sign of the source is kept.
pub proof fn lemma_first_of_each_complete(s: Seq<Glyph>)
    ensures
        forall|i: int| 0 <= i < s.len() ==> has_sign(first_of_each(s), (#[trigger] s[i]).char@),
    decreases s.len(),
{
    if s.len() > 0 {
        lemma_first_of_each_complete(s.drop_last());
        let kept = first_of_each(s.drop_last());
        assert forall|i: int| 0 <= i < s.len() implies has_sign(first_of_each(s), (#[trigger] s[i]).char@) by {
            if i < s.len() - 1 {
                assert(s.drop_last()[i] == s[i]);
                let k = choose|k: int| 0 <= k < kept.len() && (#[trigger] kept[k]).char@ == s[i].char@;
                assert(first_of_each(s)[k] == kept[k]);
            } else if !has_sign(kept, s.last().char@) {
                assert(first_of_each(s)[kept.len() as int] == s.last());
            }
        }
    }
}

/// Extending copies by a copy.
proof fn lemma_copies_push(a: Seq<Glyph>, b: Seq<Glyph>, x: Glyph, y: Glyph)
    requires
        copies(a, b),
        same_glyph(x, y),
    ensures
        copies(a.push(x), b.push(y)),
{
    assert forall|i: int| 0 <= i < a.push(x).len() implies same_glyph(#[trigger] a.push(x)[i], b.push(y)[i]) by {
        if i < a.len() {
            assert(a.push(x)[i] == a[i] && b.push(y)[i] == b[i]);
        }
    }
}

/// Does `pool` hold a glyph of sign `c`?
fn holds_sign(pool: &Vec<Glyph>, c: &str) -> (b: bool)
    ensures
        b == has_sign(pool@, c@),
{
    let mut i: usize = 0;
    while i < pool.len()
        invariant
            i <= pool@.len(),
            forall|j: int| 0 <= j < i ==> (#[trigger] pool@[j]).char@ != c@,
        decreases pool@.len() - i,
    {
        if same_text(pool[i].char.as_str(), c) {
            return true;
        }
        i = i + 1;
    }
    false
}

/// Adds a copy of `g` to `pool` unless its sign is already there.
pub(crate) fn keep_first(pool: &mut Vec<Glyph>, g: &Glyph, Ghost(source): Ghost<Seq<Glyph>>)
    requires
        copies(old(pool)@, first_of_each(source)),
    ensures
        copies(final(pool)@, first_of_each(source.push(*g))),
{
    proof {
        lemma_first_push(source, *g);
        lemma_copies_sign(old(pool)@, first_of_each(source), g.char@);
    }
    if !holds_sign(pool, g.char.as_str()) {
        let copy = g.clone();
        proof {
            lemma_copies_push(pool@, first_of_each(source), copy, *g);
        }
        pool.push(copy);
    }
}

/// Was sign `c` met?
pub open spec fn knows(learned: Seq<String>, c: Seq<char>) -> bool {
    exists|i: int| 0 <= i < learned.len() && (#[trigger] learned[i])@ == c
}

/// The signs listed in `learned`, as a predicate.
pub open spec fn known_in(learned: Seq<String>) -> spec_fn(Seq<char>) -> bool {
    |c: Seq<char>| knows(learned, c)
}

/// The glyphs of `s` whose sign was met, in order.
pub open spec fn met_glyphs(s: Seq<Glyph>, met: spec_fn(Seq<char>) -> bool) -> Seq<Glyph>
    decreases s.len(),
{
    if s.len() == 0 {
        Seq::empty()
    } else if met(s.last().char@) {
        met_glyphs(s.drop_last(), met).push(s.last())
    } else {
        met_glyphs(s.drop_last(), met)
    }
}

/// The glyphs of the first `n` levels whose sign was met, level after level.
pub open spec fn learned_glyphs(levels: Seq<Level>, met: spec_fn(Seq<char>) -> bool, n: int) -> Seq<Glyph>
    decreases n,
{
    if n <= 0 {
        Seq::empty()
    } else {
        learned_glyphs(levels, met, n - 1) + met_glyphs(levels[n - 1].glyphs@, met)
    }
}

/// Is `c` among the learned signs?
pub fn knows_sign(learned: &Vec<String>, c: &str) -> (b: bool)
    ensures
        b == knows(learned@, c@),
{
    let mut i: usize = 0;
    while i < learned.len()
        invariant
            i <= learned@.len(),
            forall|j: int| 0 <= j < i ==> (#[trigger] learned@[j])@ != c@,
        decreases learned@.len() - i,
    {
        if same_text(learned[i].as_str(), c) {
            return true;
        }
        i = i + 1;
    }
    false
}

/// One glyph of each sign met, the first met along the path.
pub fn gather_learned(levels: &Vec<Level>, learned: &Vec<String>) -> (pool: Vec<Glyph>)
    ensures
        copies(pool@, first_of_each(learned_glyphs(levels@, known_in(learned@), levels@.len() as int))),
{
    let ghost met = known_in(learned@);
    let mut pool: Vec<Glyph> = Vec::new();
    let mut j: usize = 0;
    while j < levels.len()
        invariant
            j <= levels@.len(),
            met == known_in(learned@),
            copies(pool@, first_of_each(learned_glyphs(levels@, met, j as int))),
        decreases levels@.len() - j,
    {
        let ghost before = learned_glyphs(levels@, met, j as int);
        let glyphs = &levels[j].glyphs;
        let mut k: usize = 0;
        while k < glyphs.len()
            invariant
                k <= glyphs@.len(),
                met == known_in(learned@),
                copies(pool@, first_of_each(before + met_glyphs(glyphs@.take(k as int), met))),
            decreases glyphs@.len() - k,
        {
            let ghost prefix = before + met_glyphs(glyphs@.take(k as int), met);
            proof {
                assert(glyphs@.take(k + 1).drop_last() =~= glyphs@.take(k as int));
                assert(glyphs@.take(k + 1).last() == glyphs@[k as int]);
            }
            if knows_sign(learned, glyphs[k].char.as_str()) {
                proof {
                    assert(prefix.push(glyphs@[k as int]) =~= before + met_glyphs(glyphs@.take(k + 1), met));
                }
                keep_first(&mut pool, &glyphs[k], Ghost(prefix));
            } else {
                assert(prefix =~= before + met_glyphs(glyphs@.take(k + 1), met));
            }
            k = k + 1;
        }
        assert(glyphs@.take(glyphs@.len() as int) =~= glyphs@);
        j = j + 1;
    }
    pool
}

/// The glyphs of every level of a path, level after level.
pub open spec fn path_glyphs(levels: Seq<Level>, n: int) -> Seq<Glyph>
    decreases n,
{
    if n <= 0 {
        Seq::empty()
    } else {
        path_glyphs(levels, n - 1) + levels[n - 1].glyphs@
    }
}

/// Keeping one glyph of each sign never lengthens a list.
pub proof fn lemma_first_of_each_len(s: Seq<Glyph>)
    ensures
        first_of_each(s).len() <= s.len(),
    decreases s.len(),
{
    if s.len() > 0 {
        lemma_first_of_each_len(s.drop_last());
    }
}

/// A level's glyphs and the met ones are no more than the glyphs of the
/// whole path.
pub proof fn lemma_within_path(levels: Seq<Level>, met: spec_fn(Seq<char>) -> bool, n: int)
    ensures
        learned_glyphs(levels, met, n).len() <= path_glyphs(levels, n).len(),
        forall|j: int| 0 <= j < n ==> (#[trigger] levels[j]).glyphs@.len() <= path_glyphs(levels, n).len(),
    decreases n,
{
    if n > 0 {
        lemma_within_path(levels, met, n - 1);
        lemma_met_len(levels[n - 1].glyphs@, met);
    }
}

proof fn lemma_met_len(s: Seq<Glyph>, met: spec_fn(Seq<char>) -> bool)
    ensures
        met_glyphs(s, met).len() <= s.len(),
    decreases s.len(),
{
    if s.len() > 0 {
        lemma_met_len(s.drop_last(), met);
    }
}

/// How heavily a sign weighs in the draw: its recorded weight, at least one;
/// one when none is recorded.
pub open spec fn weight_of(weights: Map<Seq<char>, u32>, c: Seq<char>) -> int {
    if weights.contains_key(c) && weights[c] >= 1 {
        weights[c] as int
    } else {
        1
    }
}

/// No recorded weight is above the heaviest.
pub open spec fn light_weights(weights: Map<Seq<char>, u32>) -> bool {
    forall|c: Seq<char>| #[trigger] weights.contains_key(c) ==> weights[c] <= MAX_WEIGHT
}

/// The weights of the glyphs of `pool`, in order.
pub fn pool_weights(pool: &Vec<Glyph>, weights: &TextMap<u32>) -> (shares: Vec<u32>)
    requires
        weights.wf(),
    ensures
        shares@.len() == pool@.len(),
        forall|i: int| 0 <= i < pool@.len() ==> shares@[i] == weight_of(weights.as_map(), #[trigger] pool@[i].char@),
{
    let mut shares: Vec<u32> = Vec::new();
    let mut i: usize = 0;
    while i < pool.len()
        invariant
            weights.wf(),
            i <= pool@.len(),
            shares@.len() == i,
            forall|j: int| 0 <= j < i ==> shares@[j] == weight_of(weights.as_map(), #[trigger] pool@[j].char@),
        decreases pool@.len() - i,
    {
        let share: u32 = match weights.get(pool[i].char.as_str()) {
            Some(w) => if *w >= 1 {
                *w
            } else {
                1
            },
            None => 1,
        };
        shares.push(share);
        i = i + 1;
    }
    shares
}

/// The sum of the first `k` shares.
pub open spec fn prefix_sum(shares: Seq<u32>, k: int) -> int
    decreases k,
{
    if k <= 0 {
        0
    } else {
        prefix_sum(shares, k - 1) + shares[k - 1]
    }
}

/// Sums only grow.
pub proof fn lemma_prefix_monotone(shares: Seq<u32>, i: int, j: int)
    requires
        i <= j,
    ensures
        prefix_sum(shares, i) <= prefix_sum(shares, j),
    decreases j - i,
{
    if i < j {
        lemma_prefix_monotone(shares, i, j - 1);
    }
}

/// Shares of at most `m` sum to at most `k * m`.
proof fn lemma_prefix_bounded(shares: Seq<u32>, k: int, m: int)
    requires
        0 <= k <= shares.len(),
        forall|i: int| 0 <= i < shares.len() ==> shares[i] <= m,
    ensures
        prefix_sum(shares, k) <= k * m,
    decreases k,
{
    if k > 0 {
        lemma_prefix_bounded(shares, k - 1, m);
        assert(shares[k - 1] <= m);
        assert(prefix_sum(shares, k) == prefix_sum(shares, k - 1) + shares[k - 1]);
        assert((k - 1) * m + m == k * m) by (nonlinear_arith);
    } else {
        assert(k * m == 0) by (nonlinear_arith)
            requires
                k == 0,
        ;
    }
}

/// The glyph that a ticket lands on: the one whose share covers it, the
/// shares laid end to end in order.
pub fn weighted_index(shares: &Vec<u32>, ticket: u32) -> (k: usize)
    requires
        ticket < prefix_sum(shares@, shares@.len() as int),
    ensures
        k < shares@.len(),
        prefix_sum(shares@, k as int) <= ticket < prefix_sum(shares@, k + 1),
{
    let mut rest: u32 = ticket;
    let mut i: usize = 0;
    while i < shares.len()
        invariant
            i <= shares@.len(),
            rest + prefix_sum(shares@, i as int) == ticket,
            ticket < prefix_sum(shares@, shares@.len() as int),
        decreases shares@.len() - i,
    {
        if rest < shares[i] {
            return i;
        }
        rest = rest - shares[i];
        i = i + 1;
    }
    0
}

/// A ticket lands on glyph `k` for exactly as many tickets as its weight:
/// each glyph is drawn in proportion to its weight.
pub proof fn law_draw_in_proportion(shares: Seq<u32>, k: int)
    requires
        0 <= k < shares.len(),
    ensures
        Set::new(
            |t: int|
                0 <= t < prefix_sum(shares, shares.len() as int) && prefix_sum(shares, k) <= t < prefix_sum(
                    shares,
                    k + 1,
                ),
        ).len() == shares[k],
{
    lemma_prefix_monotone(shares, k + 1, shares.len() as int);
    let s = Set::new(
        |t: int|
            0 <= t < prefix_sum(shares, shares.len() as int) && prefix_sum(shares, k) <= t < prefix_sum(
                shares,
                k + 1,
            ),
    );
    lemma_prefix_monotone(shares, 0, k);
    assert(s =~= vstd::set_lib::set_int_range(prefix_sum(shares, k), prefix_sum(shares, k + 1)));
    vstd::set_lib::lemma_int_range(prefix_sum(shares, k), prefix_sum(shares, k + 1));
}

/// Sums the shares.
fn total_of(shares: &Vec<u32>) -> (total: u32)
    requires
        shares@.len() * MAX_WEIGHT <= RANDOM_LIMIT,
        forall|i: int| 0 <= i < shares@.len() ==> shares@[i] <= MAX_WEIGHT,
    ensures
        total == prefix_sum(shares@, shares@.len() as int),
{
    let mut total: u32 = 0;
    let mut i: usize = 0;
    while i < shares.len()
        invariant
            i <= shares@.len(),
            shares@.len() * MAX_WEIGHT <= RANDOM_LIMIT,
            forall|j: int| 0 <= j < shares@.len() ==> shares@[j] <= MAX_WEIGHT,
            total == prefix_sum(shares@, i as int),
        decreases shares@.len() - i,
    {
        proof {
            lemma_prefix_bounded(shares@, i + 1, MAX_WEIGHT as int);
            assert((i + 1) * MAX_WEIGHT <= shares@.len() * MAX_WEIGHT) by (nonlinear_arith)
                requires
                    i + 1 <= shares@.len(),
            ;
        }
        total = total + shares[i];
        i = i + 1;
    }
    total
}

/// The shares of the glyphs of `pool` in a weighted draw: their weights.
pub open spec fn pool_shares(pool: Seq<Glyph>, weights: Map<Seq<char>, u32>) -> Seq<u32> {
    Seq::new(pool.len(), |i: int| weight_of(weights, pool[i].char@) as u32)
}

/// Ticket `t`, below the total of the shares, falls in the share of glyph
/// `k`.
pub open spec fn share_covers(shares: Seq<u32>, k: int, t: int) -> bool {
    0 <= t < prefix_sum(shares, shares.len() as int) && prefix_sum(shares, k) <= t < prefix_sum(shares, k + 1)
}

/// Glyph `k` is the one some ticket below the total of the shares lands on.
pub open spec fn lands_on(shares: Seq<u32>, k: int) -> bool {
    exists|t: int| #[trigger] share_covers(shares, k, t)
}

/// Draws a glyph of `pool` at random, each in proportion to its weight, and
/// gives its position.
///
/// The ticket is drawn by the game's generator; the position is the one
/// whose share covers it. Which ticket came out is not stated: every one is
/// a possible outcome.
pub fn weighted_pick(pool: &Vec<Glyph>, weights: &TextMap<u32>) -> (k: usize)
    requires
        pool@.len() > 0,
        pool@.len() * MAX_WEIGHT <= RANDOM_LIMIT,
        weights.wf(),
        light_weights(weights.as_map()),
    ensures
        k < pool@.len(),
        lands_on(pool_shares(pool@, weights.as_map()), k as int),
{
    let shares = pool_weights(pool, weights);
    assert forall|i: int| 0 <= i < shares@.len() implies shares@[i] <= MAX_WEIGHT && shares@[i] >= 1 by {
        assert(shares@[i] == weight_of(weights.as_map(), pool@[i].char@));
    }
    let total = total_of(&shares);
    proof {
        assert(prefix_sum(shares@, 0) == 0);
        assert(shares@[0] >= 1);
        assert(prefix_sum(shares@, 1) >= 1);
        lemma_prefix_monotone(shares@, 1, shares@.len() as int);
        lemma_prefix_bounded(shares@, shares@.len() as int, MAX_WEIGHT as int);
    }
    let ticket = random_below(total);
    let k = weighted_index(&shares, ticket);
    assert(shares@ =~= pool_shares(pool@, weights.as_map())) by {
        assert forall|i: int| 0 <= i < pool@.len() implies shares@[i] == pool_shares(pool@, weights.as_map())[i] by {
            assert(shares@[i] == weight_of(weights.as_map(), pool@[i].char@));
        }
    }
    assert(lands_on(shares@, k as int)) by {
        assert(share_covers(shares@, k as int, ticket as int));
    }
    k
}

} // verus!
