//! The display order of the content: the levels of a path by their rank, then
//! by identifier so that two levels of the same rank always come in the same
//! order; the scripts by name.

use vstd::prelude::*;

use crate::model::{Language, Level};
use crate::text::{compare_text, lemma_lex_asymmetric, lemma_lex_total, lemma_lex_transitive, lex_lt, TextOrder};

verus! {

/// Level `a` comes no later than level `b`: a lower rank, or the same rank
/// and an identifier not after.
pub open spec fn level_le(a: Level, b: Level) -> bool {
    a.order < b.order || (a.order == b.order && !lex_lt(b.id@, a.id@))
}

/// Script `a` comes no later than script `b`: its name is not after.
pub open spec fn language_le(a: Language, b: Language) -> bool {
    !lex_lt(b.name@, a.name@)
}

/// The levels are in display order.
pub open spec fn levels_in_order(s: Seq<Level>) -> bool {
    forall|i: int, j: int| 0 <= i < j < s.len() ==> level_le(#[trigger] s[i], #[trigger] s[j])
}

/// The scripts are in display order.
pub open spec fn languages_in_order(s: Seq<Language>) -> bool {
    forall|i: int, j: int| 0 <= i < j < s.len() ==> language_le(#[trigger] s[i], #[trigger] s[j])
}

/// `sorted` holds the levels of `input`, the one at `i` coming from position
/// `perm[i]`; levels that compare equal keep the order they came in.
pub open spec fn stable_levels(input: Seq<Level>, sorted: Seq<Level>, perm: Seq<int>) -> bool {
    &&& perm.len() == sorted.len()
    &&& sorted.len() == input.len()
    &&& forall|i: int| 0 <= i < perm.len() ==> 0 <= #[trigger] perm[i] < input.len() && sorted[i] == input[perm[i]]
    &&& forall|i: int, j: int| 0 <= i < j < perm.len() ==> #[trigger] perm[i] != #[trigger] perm[j]
    &&& forall|i: int, j: int|
        0 <= i < j < perm.len() && level_le(#[trigger] sorted[j], #[trigger] sorted[i]) ==> perm[i] < perm[j]
}

/// `sorted` holds the scripts of `input`, the one at `i` coming from
/// position `perm[i]`; scripts that compare equal keep the order they came
/// in.
pub open spec fn stable_languages(input: Seq<Language>, sorted: Seq<Language>, perm: Seq<int>) -> bool {
    &&& perm.len() == sorted.len()
    &&& sorted.len() == input.len()
    &&& forall|i: int| 0 <= i < perm.len() ==> 0 <= #[trigger] perm[i] < input.len() && sorted[i] == input[perm[i]]
    &&& forall|i: int, j: int| 0 <= i < j < perm.len() ==> #[trigger] perm[i] != #[trigger] perm[j]
    &&& forall|i: int, j: int|
        0 <= i < j < perm.len() && language_le(#[trigger] sorted[j], #[trigger] sorted[i]) ==> perm[i] < perm[j]
}

proof fn lemma_not_after(a: Seq<char>, b: Seq<char>, c: Seq<char>)
    requires
        !lex_lt(b, a),
        !lex_lt(c, b),
    ensures
        !lex_lt(c, a),
{
    lemma_lex_total(a, b);
    lemma_lex_total(b, c);
    if lex_lt(c, a) {
        if a == b {
            assert(lex_lt(c, b));
        } else if b == c {
            assert(lex_lt(b, a));
        } else {
            lemma_lex_transitive(a, b, c);
            lemma_lex_asymmetric(a, c);
        }
    }
}

proof fn lemma_level_le_transitive(a: Level, b: Level, c: Level)
    requires
        level_le(a, b),
        level_le(b, c),
    ensures
        level_le(a, c),
{
    if a.order == b.order && b.order == c.order {
        lemma_not_after(a.id@, b.id@, c.id@);
    }
}

proof fn lemma_level_le_total(a: Level, b: Level)
    ensures
        level_le(a, b) || level_le(b, a),
{
    if a.order == b.order && lex_lt(b.id@, a.id@) {
        lemma_lex_asymmetric(b.id@, a.id@);
    }
}

proof fn lemma_language_le_transitive(a: Language, b: Language, c: Language)
    requires
        language_le(a, b),
        language_le(b, c),
    ensures
        language_le(a, c),
{
    lemma_not_after(a.name@, b.name@, c.name@);
}

proof fn lemma_language_le_total(a: Language, b: Language)
    ensures
        language_le(a, b) || language_le(b, a),
{
    if lex_lt(b.name@, a.name@) {
        lemma_lex_asymmetric(b.name@, a.name@);
    }
}

/// Does level `a` come no later than level `b`?
fn level_not_after(a: &Level, b: &Level) -> (le: bool)
    ensures
        le == level_le(*a, *b),
{
    if a.order != b.order {
        return a.order < b.order;
    }
    match compare_text(b.id.as_str(), a.id.as_str()) {
        TextOrder::Before => false,
        _ => true,
    }
}

/// Does script `a` come no later than script `b`?
fn language_not_after(a: &Language, b: &Language) -> (le: bool)
    ensures
        le == language_le(*a, *b),
{
    match compare_text(b.name.as_str(), a.name.as_str()) {
        TextOrder::Before => false,
        _ => true,
    }
}

/// Puts the levels of a path in display order: by rank, then by identifier
/// to stay the same whatever order the files were found in.
pub fn sort_levels(levels: Vec<Level>) -> (sorted: Vec<Level>)
    ensures
        sorted@.to_multiset() == levels@.to_multiset(),
        levels_in_order(sorted@),
        exists|perm: Seq<int>| stable_levels(levels@, sorted@, perm),
{
    broadcast use vstd::seq_lib::to_multiset_remove, vstd::seq_lib::to_multiset_insert;

    let ghost all = levels@;
    let mut rest = levels;
    let mut sorted: Vec<Level> = Vec::new();
    proof {
        assert(sorted@.to_multiset().add(rest@.to_multiset()) =~= all.to_multiset()) by {
            broadcast use vstd::multiset::group_multiset_axioms;
            assert(sorted@.to_multiset() =~= vstd::multiset::Multiset::empty()) by {
                broadcast use vstd::seq_lib::to_multiset_len, vstd::multiset::lemma_multiset_empty_len;
                assert(sorted@.to_multiset().len() == 0);
            }
        }
    }
    let ghost mut perm: Seq<int> = Seq::empty();
    let ghost mut t: int = 0;
    assert(rest@ =~= all.subrange(0, all.len() as int));
    while rest.len() > 0
        invariant
            sorted@.to_multiset().add(rest@.to_multiset()) == all.to_multiset(),
            levels_in_order(sorted@),
            0 <= t <= all.len(),
            rest@ == all.subrange(t, all.len() as int),
            sorted@.len() == t,
            perm.len() == t,
            forall|i: int| 0 <= i < perm.len() ==> 0 <= #[trigger] perm[i] < t && sorted@[i] == all[perm[i]],
            forall|i: int, j: int| 0 <= i < j < perm.len() ==> #[trigger] perm[i] != #[trigger] perm[j],
            forall|i: int, j: int|
                0 <= i < j < perm.len() && level_le(#[trigger] sorted@[j], #[trigger] sorted@[i]) ==> perm[i] < perm[j],
        decreases rest@.len(),
    {
        let ghost before_rest = rest@;
        let ghost before_sorted = sorted@;
        let ghost before_perm = perm;
        let level = rest.remove(0);
        let mut p: usize = 0;
        while p < sorted.len() && level_not_after(&sorted[p], &level)
            invariant
                p <= sorted@.len(),
                sorted@ == before_sorted,
                forall|k: int| 0 <= k < p ==> level_le(#[trigger] sorted@[k], level),
            decreases sorted@.len() - p,
        {
            p = p + 1;
        }
        proof {
            if p < sorted@.len() {
                lemma_level_le_total(sorted@[p as int], level);
                assert(level_le(level, sorted@[p as int]));
            }
        }
        sorted.insert(p, level);
        proof {
            assert(before_rest[0] == all[t]);
            assert(rest@ =~= all.subrange(t + 1, all.len() as int));
            perm = before_perm.insert(p as int, t);
            let s2 = sorted@;
            assert forall|i: int| 0 <= i < perm.len() implies 0 <= #[trigger] perm[i] < t + 1 && s2[i] == all[perm[i]] by {
                if i < p {
                    assert(perm[i] == before_perm[i] && s2[i] == before_sorted[i]);
                } else if i > p {
                    assert(perm[i] == before_perm[i - 1] && s2[i] == before_sorted[i - 1]);
                }
            }
            assert forall|i: int, j: int| 0 <= i < j < perm.len() implies #[trigger] perm[i] != #[trigger] perm[j] by {
                if i != p && j != p {
                    let a = if i < p { i } else { i - 1 };
                    let b = if j < p { j } else { j - 1 };
                    assert(perm[i] == before_perm[a] && perm[j] == before_perm[b]);
                } else if i == p {
                    assert(perm[j] == before_perm[j - 1]);
                } else {
                    assert(perm[i] == before_perm[i]);
                }
            }
            assert forall|i: int, j: int|
                0 <= i < j < perm.len() && level_le(#[trigger] s2[j], #[trigger] s2[i]) implies perm[i] < perm[j] by {
                if j < p {
                    assert(s2[i] == before_sorted[i] && s2[j] == before_sorted[j]);
                    assert(perm[i] == before_perm[i] && perm[j] == before_perm[j]);
                } else if j == p {
                    assert(perm[i] == before_perm[i]);
                } else if i == p {
                    assert(s2[j] == before_sorted[j - 1]);
                    assert(!level_le(before_sorted[p as int], level));
                    if j - 1 > p {
                        assert(level_le(before_sorted[p as int], before_sorted[j - 1]));
                        lemma_level_le_transitive(before_sorted[p as int], before_sorted[j - 1], level);
                    }
                } else if i > p {
                    assert(s2[i] == before_sorted[i - 1] && s2[j] == before_sorted[j - 1]);
                    assert(perm[i] == before_perm[i - 1] && perm[j] == before_perm[j - 1]);
                } else {
                    assert(s2[i] == before_sorted[i] && s2[j] == before_sorted[j - 1]);
                    assert(perm[i] == before_perm[i] && perm[j] == before_perm[j - 1]);
                }
            }
            t = t + 1;
        }
        proof {
            let s = sorted@;
            assert forall|i: int, j: int| 0 <= i < j < s.len() implies level_le(#[trigger] s[i], #[trigger] s[j]) by {
                if j < p {
                    assert(s[i] == before_sorted[i] && s[j] == before_sorted[j]);
                } else if j == p {
                    assert(s[i] == before_sorted[i]);
                } else if i == p {
                    assert(s[j] == before_sorted[j - 1]);
                    if j - 1 > p {
                        assert(level_le(before_sorted[p as int], before_sorted[j - 1]));
                        lemma_level_le_transitive(level, before_sorted[p as int], before_sorted[j - 1]);
                    }
                } else if i > p {
                    assert(s[i] == before_sorted[i - 1] && s[j] == before_sorted[j - 1]);
                } else {
                    assert(s[i] == before_sorted[i] && s[j] == before_sorted[j - 1]);
                    assert(level_le(before_sorted[i], level));
                    lemma_level_le_transitive(before_sorted[i], level, before_sorted[p as int]);
                    if j - 1 > p {
                        assert(level_le(before_sorted[p as int], before_sorted[j - 1]));
                        lemma_level_le_transitive(before_sorted[i], before_sorted[p as int], before_sorted[j - 1]);
                    }
                }
            }
            assert(sorted@.to_multiset().add(rest@.to_multiset()) =~= all.to_multiset()) by {
                broadcast use vstd::multiset::group_multiset_axioms, vstd::seq_lib::to_multiset_contains;
                assert(before_rest[0] == level);
                assert(before_rest.contains(level));
                let ms = before_sorted.to_multiset();
                let mr = before_rest.to_multiset();
                vstd::seq_lib::to_multiset_remove(before_rest, 0);
                vstd::seq_lib::to_multiset_insert(before_sorted, p as int, level);
                assert(rest@ == before_rest.remove(0));
                assert(sorted@ == before_sorted.insert(p as int, level));
                assert(rest@.to_multiset() == mr.remove(level));
                assert(sorted@.to_multiset() == ms.insert(level));
                assert(mr.count(level) > 0);
                assert(ms.insert(level).add(mr.remove(level)) =~= ms.add(mr));
            }
        }
    }
    proof {
        assert(sorted@.to_multiset() =~= all.to_multiset()) by {
            broadcast use vstd::multiset::group_multiset_axioms;
            assert(rest@.to_multiset() =~= vstd::multiset::Multiset::empty()) by {
                broadcast use vstd::seq_lib::to_multiset_len, vstd::multiset::lemma_multiset_empty_len;
                assert(rest@.to_multiset().len() == 0);
            }
        }
        assert(t == all.len());
        assert(stable_levels(all, sorted@, perm));
    }
    sorted
}

/// Puts the scripts in display order, by name.
pub fn sort_languages(languages: Vec<Language>) -> (sorted: Vec<Language>)
    ensures
        sorted@.to_multiset() == languages@.to_multiset(),
        languages_in_order(sorted@),
        exists|perm: Seq<int>| stable_languages(languages@, sorted@, perm),
{
    broadcast use vstd::seq_lib::to_multiset_remove, vstd::seq_lib::to_multiset_insert;

    let ghost all = languages@;
    let mut rest = languages;
    let mut sorted: Vec<Language> = Vec::new();
    proof {
        assert(sorted@.to_multiset().add(rest@.to_multiset()) =~= all.to_multiset()) by {
            broadcast use vstd::multiset::group_multiset_axioms;
            assert(sorted@.to_multiset() =~= vstd::multiset::Multiset::empty()) by {
                broadcast use vstd::seq_lib::to_multiset_len, vstd::multiset::lemma_multiset_empty_len;
                assert(sorted@.to_multiset().len() == 0);
            }
        }
    }
    let ghost mut perm: Seq<int> = Seq::empty();
    let ghost mut t: int = 0;
    assert(rest@ =~= all.subrange(0, all.len() as int));
    while rest.len() > 0
        invariant
            sorted@.to_multiset().add(rest@.to_multiset()) == all.to_multiset(),
            languages_in_order(sorted@),
            0 <= t <= all.len(),
            rest@ == all.subrange(t, all.len() as int),
            sorted@.len() == t,
            perm.len() == t,
            forall|i: int| 0 <= i < perm.len() ==> 0 <= #[trigger] perm[i] < t && sorted@[i] == all[perm[i]],
            forall|i: int, j: int| 0 <= i < j < perm.len() ==> #[trigger] perm[i] != #[trigger] perm[j],
            forall|i: int, j: int|
                0 <= i < j < perm.len() && language_le(#[trigger] sorted@[j], #[trigger] sorted@[i]) ==> perm[i] < perm[j],
        decreases rest@.len(),
    {
        let ghost before_rest = rest@;
        let ghost before_sorted = sorted@;
        let ghost before_perm = perm;
        let language = rest.remove(0);
        let mut p: usize = 0;
        while p < sorted.len() && language_not_after(&sorted[p], &language)
            invariant
                p <= sorted@.len(),
                sorted@ == before_sorted,
                forall|k: int| 0 <= k < p ==> language_le(#[trigger] sorted@[k], language),
            decreases sorted@.len() - p,
        {
            p = p + 1;
        }
        proof {
            if p < sorted@.len() {
                lemma_language_le_total(sorted@[p as int], language);
            }
        }
        sorted.insert(p, language);
        proof {
            assert(before_rest[0] == all[t]);
            assert(rest@ =~= all.subrange(t + 1, all.len() as int));
            perm = before_perm.insert(p as int, t);
            let s2 = sorted@;
            assert forall|i: int| 0 <= i < perm.len() implies 0 <= #[trigger] perm[i] < t + 1 && s2[i] == all[perm[i]] by {
                if i < p {
                    assert(perm[i] == before_perm[i] && s2[i] == before_sorted[i]);
                } else if i > p {
                    assert(perm[i] == before_perm[i - 1] && s2[i] == before_sorted[i - 1]);
                }
            }
            assert forall|i: int, j: int| 0 <= i < j < perm.len() implies #[trigger] perm[i] != #[trigger] perm[j] by {
                if i != p && j != p {
                    let a = if i < p { i } else { i - 1 };
                    let b = if j < p { j } else { j - 1 };
                    assert(perm[i] == before_perm[a] && perm[j] == before_perm[b]);
                } else if i == p {
                    assert(perm[j] == before_perm[j - 1]);
                } else {
                    assert(perm[i] == before_perm[i]);
                }
            }
            assert forall|i: int, j: int|
                0 <= i < j < perm.len() && language_le(#[trigger] s2[j], #[trigger] s2[i]) implies perm[i] < perm[j] by {
                if j < p {
                    assert(s2[i] == before_sorted[i] && s2[j] == before_sorted[j]);
                    assert(perm[i] == before_perm[i] && perm[j] == before_perm[j]);
                } else if j == p {
                    assert(perm[i] == before_perm[i]);
                } else if i == p {
                    assert(s2[j] == before_sorted[j - 1]);
                    assert(!language_le(before_sorted[p as int], language));
                    if j - 1 > p {
                        assert(language_le(before_sorted[p as int], before_sorted[j - 1]));
                        lemma_language_le_transitive(before_sorted[p as int], before_sorted[j - 1], language);
                    }
                } else if i > p {
                    assert(s2[i] == before_sorted[i - 1] && s2[j] == before_sorted[j - 1]);
                    assert(perm[i] == before_perm[i - 1] && perm[j] == before_perm[j - 1]);
                } else {
                    assert(s2[i] == before_sorted[i] && s2[j] == before_sorted[j - 1]);
                    assert(perm[i] == before_perm[i] && perm[j] == before_perm[j - 1]);
                }
            }
            t = t + 1;
        }
        proof {
            let s = sorted@;
            assert forall|i: int, j: int| 0 <= i < j < s.len() implies language_le(#[trigger] s[i], #[trigger] s[j]) by {
                if j < p {
                    assert(s[i] == before_sorted[i] && s[j] == before_sorted[j]);
                } else if j == p {
                    assert(s[i] == before_sorted[i]);
                } else if i == p {
                    assert(s[j] == before_sorted[j - 1]);
                    if j - 1 > p {
                        assert(language_le(before_sorted[p as int], before_sorted[j - 1]));
                        lemma_language_le_transitive(language, before_sorted[p as int], before_sorted[j - 1]);
                    }
                } else if i > p {
                    assert(s[i] == before_sorted[i - 1] && s[j] == before_sorted[j - 1]);
                } else {
                    assert(s[i] == before_sorted[i] && s[j] == before_sorted[j - 1]);
                    assert(language_le(before_sorted[i], language));
                    lemma_language_le_transitive(before_sorted[i], language, before_sorted[p as int]);
                    if j - 1 > p {
                        assert(language_le(before_sorted[p as int], before_sorted[j - 1]));
                        lemma_language_le_transitive(before_sorted[i], before_sorted[p as int], before_sorted[j - 1]);
                    }
                }
            }
            assert(sorted@.to_multiset().add(rest@.to_multiset()) =~= all.to_multiset()) by {
                broadcast use vstd::multiset::group_multiset_axioms, vstd::seq_lib::to_multiset_contains;
                assert(before_rest[0] == language);
                assert(before_rest.contains(language));
                let ms = before_sorted.to_multiset();
                let mr = before_rest.to_multiset();
                vstd::seq_lib::to_multiset_remove(before_rest, 0);
                vstd::seq_lib::to_multiset_insert(before_sorted, p as int, language);
                assert(rest@ == before_rest.remove(0));
                assert(sorted@ == before_sorted.insert(p as int, language));
                assert(rest@.to_multiset() == mr.remove(language));
                assert(sorted@.to_multiset() == ms.insert(language));
                assert(mr.count(language) > 0);
                assert(ms.insert(language).add(mr.remove(language)) =~= ms.add(mr));
            }
        }
    }
    proof {
        assert(sorted@.to_multiset() =~= all.to_multiset()) by {
            broadcast use vstd::multiset::group_multiset_axioms;
            assert(rest@.to_multiset() =~= vstd::multiset::Multiset::empty()) by {
                broadcast use vstd::seq_lib::to_multiset_len, vstd::multiset::lemma_multiset_empty_len;
                assert(rest@.to_multiset().len() == 0);
            }
        }
        assert(t == all.len());
        assert(stable_languages(all, sorted@, perm));
    }
    sorted
}

} // verus!
