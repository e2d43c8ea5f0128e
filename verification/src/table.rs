//! An insertion-ordered table keyed by byte strings.

use vstd::prelude::*;
use crate::text::bytes_eq;

verus! {

/// Whether `i` is the position of the first entry with the given key.
pub open spec fn is_position<V>(entries: Seq<(Seq<u8>, V)>, key: Seq<u8>, i: int) -> bool {
    &&& 0 <= i < entries.len()
    &&& entries[i].0 == key
    &&& forall|j: int| 0 <= j < i ==> entries[j].0 != key
}

/// Whether some entry has the given key.
pub open spec fn has_key<V>(entries: Seq<(Seq<u8>, V)>, key: Seq<u8>) -> bool {
    exists|i: int| 0 <= i < entries.len() && entries[i].0 == key
}

/// The position of the first entry with the given key.
pub open spec fn position_of<V>(entries: Seq<(Seq<u8>, V)>, key: Seq<u8>) -> Option<int> {
    if exists|i: int| is_position(entries, key, i) {
        Some(choose|i: int| is_position(entries, key, i))
    } else {
        None
    }
}

/// The value stored under a key, if any.
pub open spec fn lookup<V>(entries: Seq<(Seq<u8>, V)>, key: Seq<u8>) -> Option<V> {
    match position_of(entries, key) {
        Some(i) => Some(entries[i].1),
        None => None,
    }
}

/// The entries after `key` is set to `value`: an entry that holds the key
/// keeps its place and takes the value, a new key goes to the end.
pub open spec fn store<V>(entries: Seq<(Seq<u8>, V)>, key: Seq<u8>, value: V) -> Seq<(Seq<u8>, V)> {
    match position_of(entries, key) {
        Some(i) => entries.update(i, (key, value)),
        None => entries.push((key, value)),
    }
}

/// No two entries share a key.
pub open spec fn distinct_keys<V>(entries: Seq<(Seq<u8>, V)>) -> bool {
    forall|i: int, j: int|
        0 <= i < entries.len() && 0 <= j < entries.len() && i != j ==> entries[i].0 != entries[j].0
}

/// The first position of a key is unique, and exists as soon as the key occurs.
pub proof fn lemma_position_of<V>(entries: Seq<(Seq<u8>, V)>, key: Seq<u8>)
    ensures
        match position_of(entries, key) {
            Some(i) => is_position(entries, key, i),
            None => !has_key(entries, key),
        },
        forall|i: int| is_position(entries, key, i) ==> position_of(entries, key) == Some(i),
{
    if has_key(entries, key) {
        let k = choose|i: int| 0 <= i < entries.len() && entries[i].0 == key;
        lemma_first_exists(entries, key, k);
    }
    assert forall|i: int| is_position(entries, key, i) implies position_of(entries, key) == Some(
        i,
    ) by {
        let c = choose|c: int| is_position(entries, key, c);
        if c < i {
            assert(entries[c].0 == key);
        } else if i < c {
            assert(entries[i].0 == key);
        }
    }
}

/// A key that occurs at `k` has a first position.
proof fn lemma_first_exists<V>(entries: Seq<(Seq<u8>, V)>, key: Seq<u8>, k: int)
    requires
        0 <= k < entries.len(),
        entries[k].0 == key,
    ensures
        exists|i: int| is_position(entries, key, i),
    decreases k,
{
    if exists|j: int| 0 <= j < k && entries[j].0 == key {
        let j = choose|j: int| 0 <= j < k && entries[j].0 == key;
        lemma_first_exists(entries, key, j);
    } else {
        assert(is_position(entries, key, k));
    }
}

/// Storing a value keeps the keys distinct, and afterwards the key leads to
/// the value while every other key leads to what it led to before.
pub proof fn lemma_store<V>(entries: Seq<(Seq<u8>, V)>, key: Seq<u8>, value: V)
    requires
        distinct_keys(entries),
    ensures
        distinct_keys(store(entries, key, value)),
        lookup(store(entries, key, value), key) == Some(value),
        forall|other: Seq<u8>|
            other != key ==> lookup(store(entries, key, value), other) == lookup(entries, other),
        forall|other: Seq<u8>|
            other != key ==> position_of(store(entries, key, value), other) == position_of(
                entries,
                other,
            ),
{
    let after = store(entries, key, value);
    lemma_position_of(entries, key);
    match position_of(entries, key) {
        Some(i) => {
            assert(is_position(after, key, i));
        },
        None => {
            assert(is_position(after, key, entries.len() as int));
        },
    }
    lemma_position_of(after, key);
    assert forall|other: Seq<u8>| other != key implies position_of(after, other) == position_of(
        entries,
        other,
    ) && lookup(after, other) == lookup(entries, other) by {
        lemma_position_of(entries, other);
        lemma_position_of(after, other);
        match position_of(entries, other) {
            Some(i) => {
                assert(is_position(after, other, i));
            },
            None => {
                if has_key(after, other) {
                    let k = choose|k: int| 0 <= k < after.len() && after[k].0 == other;
                    assert(entries[k].0 == other);
                }
            },
        }
    }
}

/// A table from byte-string keys to values that remembers the order in which
/// its keys arrived.
#[derive(Debug)]
pub struct Table<V> {
    entries: Vec<(Vec<u8>, V)>,
}

impl<V> View for Table<V> {
    type V = Seq<(Seq<u8>, V)>;

    closed spec fn view(&self) -> Seq<(Seq<u8>, V)> {
        Seq::new(self.entries@.len(), |i: int| (self.entries@[i].0@, self.entries@[i].1))
    }
}

impl<V> Table<V> {
    /// The table's invariant: no key occurs twice.
    pub open spec fn wf(&self) -> bool {
        distinct_keys(self@)
    }

    /// The empty table.
    pub fn new() -> (t: Self)
        ensures
            t@ == Seq::<(Seq<u8>, V)>::empty(),
            t.wf(),
    {
        let t = Table { entries: Vec::new() };
        assert(t@ =~= Seq::<(Seq<u8>, V)>::empty());
        t
    }

    /// The number of entries.
    pub fn len(&self) -> (n: usize)
        ensures
            n == self@.len(),
    {
        self.entries.len()
    }

    /// The key of the entry at a position.
    pub fn key_at(&self, i: usize) -> (k: &Vec<u8>)
        requires
            i < self@.len(),
        ensures
            k@ == self@[i as int].0,
    {
        &self.entries[i].0
    }

    /// The value of the entry at a position.
    pub fn value_at(&self, i: usize) -> (v: &V)
        requires
            i < self@.len(),
        ensures
            *v == self@[i as int].1,
    {
        &self.entries[i].1
    }

    /// The position of the entry with the given key.
    pub fn position(&self, key: &[u8]) -> (r: Option<usize>)
        ensures
            match r {
                Some(i) => position_of(self@, key@) == Some(i as int),
                None => position_of(self@, key@) is None,
            },
    {
        let mut i: usize = 0;
        while i < self.entries.len()
            invariant
                i <= self.entries@.len(),
                forall|j: int| 0 <= j < i ==> self@[j].0 != key@,
            decreases self.entries@.len() - i,
        {
            if bytes_eq(self.entries[i].0.as_slice(), key) {
                proof {
                    assert(is_position(self@, key@, i as int));
                    lemma_position_of(self@, key@);
                }
                return Some(i);
            }
            i += 1;
        }
        proof {
            lemma_position_of(self@, key@);
        }
        None
    }

    /// Whether the table holds the key.
    pub fn contains_key(&self, key: &[u8]) -> (r: bool)
        ensures
            r == lookup(self@, key@).is_some(),
    {
        self.position(key).is_some()
    }

    /// The value stored under the key.
    pub fn get(&self, key: &[u8]) -> (r: Option<&V>)
        ensures
            match r {
                Some(v) => lookup(self@, key@) == Some(*v),
                None => lookup(self@, key@) is None,
            },
    {
        match self.position(key) {
            Some(i) => Some(&self.entries[i].1),
            None => None,
        }
    }

    /// Sets the key to the value. An entry that holds the key keeps its place;
    /// a new key goes to the end.
    pub fn insert(&mut self, key: Vec<u8>, value: V)
        requires
            old(self).wf(),
        ensures
            final(self)@ == store(old(self)@, key@, value),
            final(self).wf(),
    {
        proof {
            lemma_store(self@, key@, value);
        }
        match self.position(key.as_slice()) {
            Some(i) => {
                self.entries.set(i, (key, value));
                assert(self@ =~= store(old(self)@, key@, value));
            },
            None => {
                self.entries.push((key, value));
                assert(self@ =~= store(old(self)@, key@, value));
            },
        }
    }

    /// Removes every entry.
    pub fn clear(&mut self)
        ensures
            final(self)@ == Seq::<(Seq<u8>, V)>::empty(),
            final(self).wf(),
    {
        self.entries.clear();
        assert(self@ =~= Seq::<(Seq<u8>, V)>::empty());
    }
}

} // verus!
