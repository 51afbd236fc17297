//! A map from texts to values, kept in the order of its keys.
//!
//! The saves of the game are written from ordered maps, so that a file stays
//! stable from one writing to the next and readable by eye. This map keeps
//! that order itself: its entries are always sorted by key.

use vstd::prelude::*;

use crate::text::{compare_text, lemma_lex_irreflexive, lemma_lex_transitive, lex_lt, TextOrder};

verus! {

/// Keys strictly increasing along the entries: sorted, and none twice.
pub open spec fn sorted_entries<V>(s: Seq<(String, V)>) -> bool {
    forall|i: int, j: int| 0 <= i < j < s.len() ==> lex_lt(#[trigger] s[i].0@, #[trigger] s[j].0@)
}

/// Is there an entry under `k`?
pub open spec fn has_key<V>(s: Seq<(String, V)>, k: Seq<char>) -> bool {
    exists|i: int| 0 <= i < s.len() && s[i].0@ == k
}

/// A position where the entries hold `k`.
pub open spec fn key_index<V>(s: Seq<(String, V)>, k: Seq<char>) -> int {
    choose|i: int| 0 <= i < s.len() && s[i].0@ == k
}

/// The map that a list of entries stands for.
pub open spec fn entries_map<V>(s: Seq<(String, V)>) -> Map<Seq<char>, V> {
    Map::new(|k: Seq<char>| has_key(s, k), |k: Seq<char>| s[key_index(s, k)].1)
}

/// In sorted entries, the entry at `i` is what the map holds under its key.
pub proof fn lemma_entry_in_map<V>(s: Seq<(String, V)>, i: int)
    requires
        sorted_entries(s),
        0 <= i < s.len(),
    ensures
        entries_map(s).contains_key(s[i].0@),
        entries_map(s)[s[i].0@] == s[i].1,
{
    let k = s[i].0@;
    assert(has_key(s, k));
    let j = key_index(s, k);
    if j != i {
        lemma_lex_irreflexive(k);
        if j < i {
            assert(lex_lt(s[j].0@, s[i].0@));
        } else {
            assert(lex_lt(s[i].0@, s[j].0@));
        }
    }
    assert(entries_map(s).contains_key(k));
    assert(entries_map(s)[k] == s[j].1);
}

proof fn lemma_absent<V>(s: Seq<(String, V)>, k: Seq<char>, p: int)
    requires
        sorted_entries(s),
        0 <= p <= s.len(),
        forall|j: int| 0 <= j < p ==> lex_lt(#[trigger] s[j].0@, k),
        forall|j: int| p <= j < s.len() ==> lex_lt(k, #[trigger] s[j].0@),
    ensures
        !has_key(s, k),
{
    if has_key(s, k) {
        let j = choose|j: int| 0 <= j < s.len() && s[j].0@ == k;
        lemma_lex_irreflexive(k);
        if j < p {
            assert(lex_lt(s[j].0@, k));
        } else {
            assert(lex_lt(k, s[j].0@));
        }
    }
}

proof fn lemma_replace<V>(s: Seq<(String, V)>, p: int, e: (String, V))
    requires
        sorted_entries(s),
        0 <= p < s.len(),
        s[p].0@ == e.0@,
    ensures
        sorted_entries(s.update(p, e)),
        entries_map(s.update(p, e)) == entries_map(s).insert(e.0@, e.1),
{
    let t = s.update(p, e);
    assert(sorted_entries(t)) by {
        assert forall|i: int, j: int| 0 <= i < j < t.len() implies lex_lt(#[trigger] t[i].0@, #[trigger] t[j].0@) by {
            assert(t[i].0@ == s[i].0@);
            assert(t[j].0@ == s[j].0@);
        }
    }
    assert forall|k: Seq<char>| has_key(t, k) == has_key(s, k) by {
        if has_key(t, k) {
            let i = choose|i: int| 0 <= i < t.len() && t[i].0@ == k;
            assert(s[i].0@ == k);
        }
        if has_key(s, k) {
            let i = choose|i: int| 0 <= i < s.len() && s[i].0@ == k;
            assert(t[i].0@ == k);
        }
    }
    assert forall|k: Seq<char>| #[trigger] entries_map(t).contains_key(k) implies entries_map(t)[k] == entries_map(s).insert(e.0@, e.1)[k] by {
        let i = choose|i: int| 0 <= i < t.len() && t[i].0@ == k;
        lemma_entry_in_map(t, i);
        lemma_entry_in_map(s, i);
        if i != p {
            assert(t[i] == s[i]);
            if k == e.0@ {
                lemma_lex_irreflexive(k);
                if i < p {
                    assert(lex_lt(s[i].0@, s[p].0@));
                } else {
                    assert(lex_lt(s[p].0@, s[i].0@));
                }
            }
        }
    }
    assert(entries_map(t) =~= entries_map(s).insert(e.0@, e.1));
}

proof fn lemma_insert<V>(s: Seq<(String, V)>, p: int, e: (String, V))
    requires
        sorted_entries(s),
        0 <= p <= s.len(),
        forall|j: int| 0 <= j < p ==> lex_lt(#[trigger] s[j].0@, e.0@),
        forall|j: int| p <= j < s.len() ==> lex_lt(e.0@, #[trigger] s[j].0@),
    ensures
        sorted_entries(s.insert(p, e)),
        entries_map(s.insert(p, e)) == entries_map(s).insert(e.0@, e.1),
{
    let t = s.insert(p, e);
    assert(sorted_entries(t)) by {
        assert forall|i: int, j: int| 0 <= i < j < t.len() implies lex_lt(#[trigger] t[i].0@, #[trigger] t[j].0@) by {
            if j < p {
                assert(t[i] == s[i] && t[j] == s[j]);
            } else if j == p {
                assert(t[i] == s[i]);
            } else if i < p {
                assert(t[i] == s[i] && t[j] == s[j - 1]);
                lemma_lex_transitive(s[i].0@, e.0@, s[j - 1].0@);
            } else if i == p {
                assert(t[j] == s[j - 1]);
            } else {
                assert(t[i] == s[i - 1] && t[j] == s[j - 1]);
            }
        }
    }
    lemma_absent(s, e.0@, p);
    assert forall|k: Seq<char>| has_key(t, k) == (has_key(s, k) || k == e.0@) by {
        if has_key(t, k) {
            let i = choose|i: int| 0 <= i < t.len() && t[i].0@ == k;
            if i < p {
                assert(s[i].0@ == k);
            } else if i > p {
                assert(s[i - 1].0@ == k);
            }
        }
        if has_key(s, k) {
            let i = choose|i: int| 0 <= i < s.len() && s[i].0@ == k;
            if i < p {
                assert(t[i].0@ == k);
            } else {
                assert(t[i + 1].0@ == k);
            }
        }
        if k == e.0@ {
            assert(t[p].0@ == k);
        }
    }
    assert forall|k: Seq<char>| #[trigger] entries_map(t).contains_key(k) implies entries_map(t)[k] == entries_map(s).insert(e.0@, e.1)[k] by {
        let i = choose|i: int| 0 <= i < t.len() && t[i].0@ == k;
        lemma_entry_in_map(t, i);
        if i < p {
            assert(t[i] == s[i]);
            lemma_entry_in_map(s, i);
        } else if i > p {
            assert(t[i] == s[i - 1]);
            lemma_entry_in_map(s, i - 1);
        } else {
            assert(t[i] == e);
        }
    }
    assert(entries_map(t) =~= entries_map(s).insert(e.0@, e.1));
}

proof fn lemma_remove<V>(s: Seq<(String, V)>, p: int)
    requires
        sorted_entries(s),
        0 <= p < s.len(),
    ensures
        sorted_entries(s.remove(p)),
        entries_map(s.remove(p)) == entries_map(s).remove(s[p].0@),
{
    let t = s.remove(p);
    let k0 = s[p].0@;
    assert(sorted_entries(t)) by {
        assert forall|i: int, j: int| 0 <= i < j < t.len() implies lex_lt(#[trigger] t[i].0@, #[trigger] t[j].0@) by {
            if j < p {
                assert(t[i] == s[i] && t[j] == s[j]);
            } else if i < p {
                assert(t[i] == s[i] && t[j] == s[j + 1]);
            } else {
                assert(t[i] == s[i + 1] && t[j] == s[j + 1]);
            }
        }
    }
    assert forall|k: Seq<char>| has_key(t, k) == (has_key(s, k) && k != k0) by {
        lemma_lex_irreflexive(k0);
        if has_key(t, k) {
            let i = choose|i: int| 0 <= i < t.len() && t[i].0@ == k;
            if i < p {
                assert(s[i].0@ == k);
                assert(lex_lt(s[i].0@, s[p].0@));
            } else {
                assert(s[i + 1].0@ == k);
                assert(lex_lt(s[p].0@, s[i + 1].0@));
            }
        }
        if has_key(s, k) && k != k0 {
            let i = choose|i: int| 0 <= i < s.len() && s[i].0@ == k;
            if i < p {
                assert(t[i].0@ == k);
            } else {
                assert(i != p);
                assert(t[i - 1].0@ == k);
            }
        }
    }
    assert forall|k: Seq<char>| #[trigger] entries_map(t).contains_key(k) implies entries_map(t)[k] == entries_map(s).remove(k0)[k] by {
        let i = choose|i: int| 0 <= i < t.len() && t[i].0@ == k;
        lemma_entry_in_map(t, i);
        if i < p {
            assert(t[i] == s[i]);
            lemma_entry_in_map(s, i);
        } else {
            assert(t[i] == s[i + 1]);
            lemma_entry_in_map(s, i + 1);
        }
    }
    assert(entries_map(t) =~= entries_map(s).remove(k0));
}

/// The map obtained by inserting pairs one after the other: a later pair
/// replaces an earlier one with the same key.
pub open spec fn inserted_all<V>(s: Seq<(String, V)>) -> Map<Seq<char>, V>
    decreases s.len(),
{
    if s.len() == 0 {
        Map::empty()
    } else {
        inserted_all(s.drop_last()).insert(s.last().0@, s.last().1)
    }
}

/// A sorted prefix grows by one entry at a time.
pub proof fn lemma_prefix_map<V>(s: Seq<(String, V)>, i: int)
    requires
        sorted_entries(s),
        0 <= i < s.len(),
    ensures
        sorted_entries(s.take(i)),
        entries_map(s.take(i + 1)) == entries_map(s.take(i)).insert(s[i].0@, s[i].1),
{
    let t = s.take(i);
    assert(sorted_entries(t));
    assert(t.insert(i, s[i]) =~= s.take(i + 1));
    lemma_insert(t, i, s[i]);
}

/// Inserting sorted entries one after the other builds the map they stand
/// for.
pub proof fn lemma_inserted_sorted<V>(s: Seq<(String, V)>)
    requires
        sorted_entries(s),
    ensures
        inserted_all(s) == entries_map(s),
    decreases s.len(),
{
    if s.len() == 0 {
        assert(entries_map(s) =~= Map::<Seq<char>, V>::empty());
    } else {
        let n = s.len() - 1;
        lemma_prefix_map(s, n);
        assert(s.take(n) =~= s.drop_last());
        assert(s.take(n + 1) =~= s);
        lemma_inserted_sorted(s.drop_last());
    }
}

/// Entries sorted by key, each key present once.
pub struct TextMap<V> {
    entries: Vec<(String, V)>,
}

impl<V> TextMap<V> {
    /// The entries, in the order of their keys.
    pub closed spec fn entries(&self) -> Seq<(String, V)> {
        self.entries@
    }

    /// Well formed: the entries are sorted.
    pub open spec fn wf(&self) -> bool {
        sorted_entries(self.entries())
    }

    /// The map the entries stand for.
    pub open spec fn as_map(&self) -> Map<Seq<char>, V> {
        entries_map(self.entries())
    }

    /// The keys, in increasing order.
    pub open spec fn keys(&self) -> Seq<Seq<char>> {
        self.entries().map_values(|e: (String, V)| e.0@)
    }

    /// An empty map.
    pub fn new() -> (m: Self)
        ensures
            m.wf(),
            m.entries().len() == 0,
            m.as_map() == Map::<Seq<char>, V>::empty(),
    {
        let m = TextMap { entries: Vec::new() };
        assert(m.as_map() =~= Map::<Seq<char>, V>::empty());
        m
    }

    /// The number of entries.
    pub fn len(&self) -> (n: usize)
        ensures
            n == self.entries().len(),
    {
        self.entries.len()
    }

    /// The key and value of the entry at `index`, in key order.
    pub fn entry_at(&self, index: usize) -> (e: (&String, &V))
        requires
            index < self.entries().len(),
        ensures
            *e.0 == self.entries()[index as int].0,
            *e.1 == self.entries()[index as int].1,
    {
        (&self.entries[index].0, &self.entries[index].1)
    }

    /// Where `key` stands: `Ok` with its position when present, otherwise
    /// `Err` with the position where it would go.
    fn locate(&self, key: &str) -> (r: Result<usize, usize>)
        requires
            self.wf(),
        ensures
            match r {
                Ok(i) => i < self.entries().len() && self.entries()[i as int].0@ == key@,
                Err(i) => i <= self.entries().len() && (forall|j: int|
                    0 <= j < i ==> lex_lt(#[trigger] self.entries()[j].0@, key@)) && (forall|j: int|
                    i <= j < self.entries().len() ==> lex_lt(key@, #[trigger] self.entries()[j].0@)),
            },
    {
        let mut i: usize = 0;
        while i < self.entries.len()
            invariant
                self.wf(),
                i <= self.entries@.len(),
                forall|j: int| 0 <= j < i ==> lex_lt(#[trigger] self.entries@[j].0@, key@),
            decreases self.entries@.len() - i,
        {
            match compare_text(self.entries[i].0.as_str(), key) {
                TextOrder::Before => {},
                TextOrder::Same => {
                    return Ok(i);
                },
                TextOrder::After => {
                    assert forall|j: int| i <= j < self.entries@.len() implies lex_lt(
                        key@,
                        #[trigger] self.entries@[j].0@,
                    ) by {
                        if j > i {
                            assert(lex_lt(self.entries@[i as int].0@, self.entries@[j].0@));
                            lemma_lex_transitive(key@, self.entries@[i as int].0@, self.entries@[j].0@);
                        }
                    }
                    return Err(i);
                },
            }
            i = i + 1;
        }
        Err(i)
    }

    /// The value kept under `key`.
    pub fn get(&self, key: &str) -> (v: Option<&V>)
        requires
            self.wf(),
        ensures
            match v {
                Some(v) => self.as_map().contains_key(key@) && self.as_map()[key@] == *v,
                None => !self.as_map().contains_key(key@),
            },
    {
        match self.locate(key) {
            Ok(i) => {
                proof {
                    lemma_entry_in_map(self.entries@, i as int);
                }
                Some(&self.entries[i].1)
            },
            Err(i) => {
                proof {
                    lemma_absent(self.entries@, key@, i as int);
                }
                None
            },
        }
    }

    /// Is there an entry under `key`?
    pub fn contains_key(&self, key: &str) -> (b: bool)
        requires
            self.wf(),
        ensures
            b == self.as_map().contains_key(key@),
    {
        match self.get(key) {
            Some(_) => true,
            None => false,
        }
    }

    /// Puts `value` under `key`, replacing what was there.
    pub fn insert(&mut self, key: String, value: V)
        requires
            old(self).wf(),
        ensures
            final(self).wf(),
            final(self).as_map() == old(self).as_map().insert(key@, value),
    {
        let ghost before = self.entries@;
        let ghost entry = (key, value);
        match self.locate(key.as_str()) {
            Ok(i) => {
                self.entries.set(i, (key, value));
                proof {
                    lemma_replace(before, i as int, entry);
                }
            },
            Err(i) => {
                self.entries.insert(i, (key, value));
                proof {
                    lemma_insert(before, i as int, entry);
                }
            },
        }
    }

    /// Takes out the entry under `key`, if any.
    pub fn remove(&mut self, key: &str) -> (v: Option<V>)
        requires
            old(self).wf(),
        ensures
            final(self).wf(),
            final(self).as_map() == old(self).as_map().remove(key@),
            match v {
                Some(v) => old(self).as_map().contains_key(key@) && old(self).as_map()[key@] == v,
                None => !old(self).as_map().contains_key(key@),
            },
    {
        let ghost before = self.entries@;
        match self.locate(key) {
            Ok(i) => {
                proof {
                    lemma_entry_in_map(before, i as int);
                    lemma_remove(before, i as int);
                }
                let (_, value) = self.entries.remove(i);
                Some(value)
            },
            Err(i) => {
                proof {
                    lemma_absent(before, key@, i as int);
                    assert(entries_map(before).remove(key@) =~= entries_map(before));
                }
                None
            },
        }
    }
}

impl<V: Copy> TextMap<V> {
    /// A map holding the given pairs, inserted in order.
    pub fn from_pairs(pairs: &Vec<(String, V)>) -> (m: Self)
        ensures
            m.wf(),
            m.as_map() == inserted_all(pairs@),
    {
        let mut m = TextMap::new();
        let mut i: usize = 0;
        while i < pairs.len()
            invariant
                m.wf(),
                i <= pairs@.len(),
                m.as_map() == inserted_all(pairs@.take(i as int)),
            decreases pairs@.len() - i,
        {
            assert(pairs@.take(i + 1).drop_last() =~= pairs@.take(i as int));
            m.insert(pairs[i].0.clone(), pairs[i].1);
            i = i + 1;
        }
        assert(pairs@.take(i as int) =~= pairs@);
        m
    }

    /// The entries as pairs, in key order.
    pub fn to_pairs(&self) -> (pairs: Vec<(String, V)>)
        ensures
            pairs@.len() == self.entries().len(),
            forall|i: int| 0 <= i < pairs@.len() ==> (#[trigger] pairs@[i]).0 == self.entries()[i].0 && pairs@[i].1 == self.entries()[i].1,
    {
        let mut pairs: Vec<(String, V)> = Vec::new();
        let mut i: usize = 0;
        while i < self.len()
            invariant
                i <= self.entries().len(),
                pairs@.len() == i,
                forall|j: int| 0 <= j < i ==> (#[trigger] pairs@[j]).0 == self.entries()[j].0 && pairs@[j].1 == self.entries()[j].1,
            decreases self.entries().len() - i,
        {
            let (key, value) = self.entry_at(i);
            pairs.push((key.clone(), *value));
            i = i + 1;
        }
        pairs
    }
}

} // verus!
