//! A string-keyed map that keeps its entries in insertion order, as the
//! schema and document models need.
use crate::text::str_eq;
use vstd::prelude::*;

verus! {

/// A map from strings to values that remembers insertion order.
/// Inserting an existing key replaces its value in place.
#[derive(Debug, Clone, PartialEq, Eq)]
pub struct OrderedMap<V> {
    /// The entries in insertion order.
    pub entries: Vec<(String, V)>,
}

/// The position of the first entry whose key is `key`, if any.
pub open spec fn find_key<V>(entries: Seq<(String, V)>, key: Seq<char>) -> Option<int>
    decreases entries.len(),
{
    if entries.len() == 0 {
        None
    } else {
        match find_key(entries.drop_last(), key) {
            Some(i) => Some(i),
            None => if entries.last().0@ == key {
                Some(entries.len() - 1)
            } else {
                None
            },
        }
    }
}

/// The value stored under `key` (the first such entry).
pub open spec fn lookup<V>(entries: Seq<(String, V)>, key: Seq<char>) -> Option<V> {
    match find_key(entries, key) {
        Some(i) => Some(entries[i].1),
        None => None,
    }
}

/// The keys of the entries, in order.
pub open spec fn keys_of<V>(entries: Seq<(String, V)>) -> Seq<Seq<char>> {
    entries.map_values(|e: (String, V)| e.0@)
}

/// No key occurs twice.
pub open spec fn keys_distinct<V>(entries: Seq<(String, V)>) -> bool {
    forall|i: int, j: int|
        0 <= i < j < entries.len() ==> #[trigger] entries[i].0@ != #[trigger] entries[j].0@
}

/// What `find_key` gives: the first position holding the key.
pub proof fn lemma_find_key<V>(entries: Seq<(String, V)>, key: Seq<char>)
    ensures
        match find_key(entries, key) {
            Some(i) => 0 <= i < entries.len() && entries[i].0@ == key && forall|j: int|
                0 <= j < i ==> entries[j].0@ != key,
            None => forall|j: int| 0 <= j < entries.len() ==> entries[j].0@ != key,
        },
    decreases entries.len(),
{
    if entries.len() > 0 {
        let init = entries.drop_last();
        lemma_find_key(init, key);
        assert(forall|j: int| 0 <= j < init.len() ==> init[j] == entries[j]);
    }
}

/// The entry position found by a left-to-right scan.
pub proof fn lemma_find_key_first<V>(entries: Seq<(String, V)>, key: Seq<char>, i: int)
    requires
        0 <= i < entries.len(),
        entries[i].0@ == key,
        forall|j: int| 0 <= j < i ==> entries[j].0@ != key,
    ensures
        find_key(entries, key) == Some(i),
{
    lemma_find_key(entries, key);
    match find_key(entries, key) {
        Some(k) => {
            if k < i {
            } else if k > i {
            }
        },
        None => {},
    }
}

impl<V> OrderedMap<V> {
    /// An empty map.
    pub fn new() -> (r: Self)
        ensures
            r.entries@.len() == 0,
    {
        OrderedMap { entries: Vec::new() }
    }

    /// The number of entries.
    pub fn len(&self) -> (r: usize)
        ensures
            r == self.entries@.len(),
    {
        self.entries.len()
    }

    /// The position of `key`, if present.
    pub fn index_of(&self, key: &str) -> (r: Option<usize>)
        ensures
            match r {
                Some(i) => find_key(self.entries@, key@) == Some(i as int) && i
                    < self.entries@.len(),
                None => find_key(self.entries@, key@) is None,
            },
    {
        let mut i: usize = 0;
        while i < self.entries.len()
            invariant
                i <= self.entries@.len(),
                forall|j: int| 0 <= j < i ==> self.entries@[j].0@ != key@,
            decreases self.entries@.len() - i,
        {
            if str_eq(self.entries[i].0.as_str(), key) {
                proof {
                    lemma_find_key_first(self.entries@, key@, i as int);
                }
                return Some(i);
            }
            i = i + 1;
        }
        proof {
            lemma_find_key(self.entries@, key@);
        }
        None
    }

    /// Whether `key` is present.
    pub fn contains_key(&self, key: &str) -> (r: bool)
        ensures
            r == (find_key(self.entries@, key@) is Some),
    {
        self.index_of(key).is_some()
    }

    /// The value stored under `key`.
    pub fn get(&self, key: &str) -> (r: Option<&V>)
        ensures
            match r {
                Some(v) => lookup(self.entries@, key@) == Some(*v),
                None => lookup(self.entries@, key@) is None,
            },
    {
        match self.index_of(key) {
            Some(i) => Some(&self.entries[i].1),
            None => None,
        }
    }

    /// Inserts `value` under `key`: an existing entry keeps its position and
    /// gets the new value (the old one is returned); otherwise the entry is
    /// appended.
    pub fn insert(&mut self, key: String, value: V) -> (r: Option<V>)
        ensures
            final(self).entries@ == insert_spec(old(self).entries@, key, value),
            r == lookup(old(self).entries@, key@),
    {
        match self.index_of(key.as_str()) {
            Some(i) => {
                let (k, old_v) = self.entries.remove(i);
                self.entries.insert(i, (k, value));
                assert(self.entries@ =~= old(self).entries@.update(
                    i as int,
                    (old(self).entries@[i as int].0, value),
                ));
                Some(old_v)
            },
            None => {
                self.entries.push((key, value));
                None
            },
        }
    }
}

/// The entries after inserting `value` under `key`: an existing entry
/// keeps its position (and key) and takes the value; a new one is appended.
pub open spec fn insert_spec<V>(es: Seq<(String, V)>, key: String, value: V) -> Seq<(String, V)> {
    match find_key(es, key@) {
        Some(i) => es.update(i, (es[i].0, value)),
        None => es.push((key, value)),
    }
}

/// What a lookup gives after an insert: the inserted value under its key,
/// and what it gave before under any other key.
pub proof fn law_lookup_after_insert<V>(es: Seq<(String, V)>, key: String, value: V, other: Seq<char>)
    ensures
        lookup(insert_spec(es, key, value), key@) == Some(value),
        other != key@ ==> lookup(insert_spec(es, key, value), other) == lookup(es, other),
{
    let after = insert_spec(es, key, value);
    lemma_find_key(es, key@);
    lemma_find_key(es, other);
    lemma_find_key(after, other);
    match find_key(es, key@) {
        Some(i) => {
            lemma_find_key_first(after, key@, i);
            if other != key@ {
                match find_key(es, other) {
                    Some(j) => {
                        assert(after[j].0 == es[j].0);
                        assert forall|m: int| 0 <= m < j implies after[m].0@ != other by {
                            assert(after[m].0 == es[m].0);
                        }
                        lemma_find_key_first(after, other, j);
                    },
                    None => {
                        match find_key(after, other) {
                            Some(j) => {
                                assert(after[j].0 == es[j].0);
                            },
                            None => {},
                        }
                    },
                }
            }
        },
        None => {
            assert forall|m: int| 0 <= m < es.len() implies after[m].0@ != key@ by {
                assert(after[m] == es[m]);
            }
            lemma_find_key_first(after, key@, es.len() as int);
            if other != key@ {
                match find_key(es, other) {
                    Some(j) => {
                        assert(after[j] == es[j]);
                        assert forall|m: int| 0 <= m < j implies after[m].0@ != other by {
                            assert(after[m] == es[m]);
                        }
                        lemma_find_key_first(after, other, j);
                    },
                    None => {
                        match find_key(after, other) {
                            Some(j) => {
                                if j < es.len() {
                                    assert(after[j] == es[j]);
                                }
                            },
                            None => {},
                        }
                    },
                }
            }
        },
    }
}

/// Inserting keeps the keys distinct.
pub proof fn law_insert_keeps_keys_distinct<V>(es: Seq<(String, V)>, key: String, value: V)
    requires
        keys_distinct(es),
    ensures
        keys_distinct(insert_spec(es, key, value)),
{
    let after = insert_spec(es, key, value);
    lemma_find_key(es, key@);
    match find_key(es, key@) {
        Some(i) => {
            assert forall|a: int, b: int| 0 <= a < b < after.len() implies #[trigger] after[a].0@
                != #[trigger] after[b].0@ by {
                assert(after[a].0 == es[a].0);
                assert(after[b].0 == es[b].0);
            }
        },
        None => {
            assert forall|a: int, b: int| 0 <= a < b < after.len() implies #[trigger] after[a].0@
                != #[trigger] after[b].0@ by {
                if b < es.len() {
                    assert(after[a] == es[a]);
                    assert(after[b] == es[b]);
                } else {
                    assert(after[a] == es[a]);
                }
            }
        },
    }
}

} // verus!
