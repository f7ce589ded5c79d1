//! A small map that keeps its entries in insertion order.

use vstd::prelude::*;
use vstd::laws_eq::obeys_concrete_eq;
use vstd::std_specs::cmp::PartialEqSpec;

verus! {

/// A map backed by a vector of key-value pairs, in the order in which the keys were first
/// inserted. Look-ups scan the vector, so it suits maps of a handful of entries.
///
/// The map's view is the sequence of its entries. A key is looked up by the first entry
/// that holds it; [`insert`](VecMap::insert) never adds a second entry for a key, so a map
/// that is only changed through the methods here holds each key once
/// ([`keys_distinct`](VecMap::keys_distinct)).
pub struct VecMap<K, V> {
    pub inner: Vec<(K, V)>,
}

impl<K, V> View for VecMap<K, V> {
    type V = Seq<(K, V)>;

    open spec fn view(&self) -> Seq<(K, V)> {
        self.inner@
    }
}

/// The position of the first entry of `entries` that holds `key`, or the length of
/// `entries` where none does.
pub open spec fn first_index<K, V>(entries: Seq<(K, V)>, key: K) -> int
    decreases entries.len(),
{
    if entries.len() == 0 {
        0
    } else if entries[0].0 == key {
        0
    } else {
        1 + first_index(entries.drop_first(), key)
    }
}

/// Whether some entry of `entries` holds `key`.
pub open spec fn has_key<K, V>(entries: Seq<(K, V)>, key: K) -> bool {
    first_index(entries, key) < entries.len()
}

/// Whether no two entries of `entries` hold the same key.
pub open spec fn distinct_keys<K, V>(entries: Seq<(K, V)>) -> bool {
    forall|i: int, j: int|
        0 <= i < j < entries.len() ==> (#[trigger] entries[i]).0 != (#[trigger] entries[j]).0
}

/// `first_index` is within bounds, points at an entry with the key where it is below the
/// length, and no entry before it holds the key.
pub proof fn lemma_first_index<K, V>(entries: Seq<(K, V)>, key: K)
    ensures
        0 <= first_index(entries, key) <= entries.len(),
        first_index(entries, key) < entries.len() ==> entries[first_index(entries, key)].0 == key,
        forall|i: int| 0 <= i < first_index(entries, key) ==> (#[trigger] entries[i]).0 != key,
    decreases entries.len(),
{
    if entries.len() == 0 {
    } else if entries[0].0 == key {
    } else {
        let rest = entries.drop_first();
        lemma_first_index(rest, key);
        assert forall|i: int| 0 <= i < first_index(entries, key) implies (#[trigger] entries[i]).0
            != key by {
            if i > 0 {
                assert(entries[i] == rest[i - 1]);
            }
        }
    }
}

/// An entry that holds the key bounds `first_index` from above.
pub proof fn lemma_first_index_at_most<K, V>(entries: Seq<(K, V)>, key: K, i: int)
    requires
        0 <= i < entries.len(),
        entries[i].0 == key,
    ensures
        first_index(entries, key) <= i,
        has_key(entries, key),
{
    lemma_first_index(entries, key);
    if first_index(entries, key) > i {
        assert(entries[i].0 != key);
    }
}

/// Where keys are distinct, the entry that holds a key is the one `first_index` finds.
pub proof fn lemma_first_index_unique<K, V>(entries: Seq<(K, V)>, key: K, i: int)
    requires
        distinct_keys(entries),
        0 <= i < entries.len(),
        entries[i].0 == key,
    ensures
        first_index(entries, key) == i,
{
    lemma_first_index_at_most(entries, key, i);
    lemma_first_index(entries, key);
}

/// Replacing the value of an entry changes neither which keys are held nor where.
pub proof fn lemma_update_value<K, V>(entries: Seq<(K, V)>, i: int, value: V)
    requires
        0 <= i < entries.len(),
    ensures
        forall|key: K| #[trigger]
            first_index(entries.update(i, (entries[i].0, value)), key) == first_index(entries, key),
        distinct_keys(entries) ==> distinct_keys(entries.update(i, (entries[i].0, value))),
{
    let out = entries.update(i, (entries[i].0, value));
    assert forall|key: K| #[trigger] first_index(out, key) == first_index(entries, key) by {
        lemma_first_index(entries, key);
        lemma_first_index(out, key);
        let a = first_index(entries, key);
        let b = first_index(out, key);
        if a < b {
            assert(out[a].0 == entries[a].0);
        }
        if b < a {
            assert(out[b].0 == entries[b].0);
        }
    }
    if distinct_keys(entries) {
        assert forall|a: int, b: int| 0 <= a < b < out.len() implies (#[trigger] out[a]).0 != (
        #[trigger] out[b]).0 by {
            assert(out[a].0 == entries[a].0);
            assert(out[b].0 == entries[b].0);
        }
    }
}

/// Pushing an entry with a new key keeps the other keys where they are and puts the new
/// key last.
pub proof fn lemma_push_new_key<K, V>(entries: Seq<(K, V)>, key: K, value: V)
    requires
        !has_key(entries, key),
    ensures
        first_index(entries.push((key, value)), key) == entries.len(),
        forall|other: K|
            other != key ==> (#[trigger] has_key(entries.push((key, value)), other) <==> has_key(
                entries,
                other,
            )),
        forall|other: K|
            has_key(entries, other) ==> #[trigger] first_index(entries.push((key, value)), other)
                == first_index(entries, other),
        distinct_keys(entries) ==> distinct_keys(entries.push((key, value))),
{
    let out = entries.push((key, value));
    lemma_first_index(entries, key);
    lemma_first_index(out, key);
    lemma_first_index_at_most(out, key, entries.len() as int);
    if first_index(out, key) < entries.len() {
        assert(out[first_index(out, key)] == entries[first_index(out, key)]);
    }
    assert forall|other: K| other != key implies (#[trigger] has_key(out, other) <==> has_key(
        entries,
        other,
    )) by {
        lemma_first_index(entries, other);
        lemma_first_index(out, other);
        if has_key(out, other) {
            let j = first_index(out, other);
            assert(out[j] == entries[j]);
            lemma_first_index_at_most(entries, other, j);
        }
        if has_key(entries, other) {
            let j = first_index(entries, other);
            assert(out[j] == entries[j]);
            lemma_first_index_at_most(out, other, j);
        }
    }
    assert forall|other: K| has_key(entries, other) implies #[trigger] first_index(out, other)
        == first_index(entries, other) by {
        lemma_first_index(entries, other);
        lemma_first_index(out, other);
        let a = first_index(entries, other);
        let b = first_index(out, other);
        assert(out[a] == entries[a]);
        lemma_first_index_at_most(out, other, a);
        if b < a {
            assert(out[b] == entries[b]);
        }
    }
    if distinct_keys(entries) {
        assert forall|a: int, b: int| 0 <= a < b < out.len() implies (#[trigger] out[a]).0 != (
        #[trigger] out[b]).0 by {
            if b == entries.len() {
                assert(entries[a].0 != key);
            }
        }
    }
}

/// Removing an entry from a map of distinct keys removes its key and no other.
pub proof fn lemma_remove_entry<K, V>(entries: Seq<(K, V)>, i: int)
    requires
        distinct_keys(entries),
        0 <= i < entries.len(),
    ensures
        distinct_keys(entries.remove(i)),
        !has_key(entries.remove(i), entries[i].0),
        forall|other: K|
            other != entries[i].0 ==> (#[trigger] has_key(entries.remove(i), other) <==> has_key(
                entries,
                other,
            )),
        forall|other: K|
            other != entries[i].0 && has_key(entries, other) ==> #[trigger] first_index(
                entries.remove(i),
                other,
            ) == if first_index(entries, other) < i {
                first_index(entries, other)
            } else {
                first_index(entries, other) - 1
            },
{
    let out = entries.remove(i);
    let key = entries[i].0;
    assert forall|a: int, b: int| 0 <= a < b < out.len() implies (#[trigger] out[a]).0 != (
    #[trigger] out[b]).0 by {
        let a0 = if a < i { a } else { a + 1 };
        let b0 = if b < i { b } else { b + 1 };
        assert(out[a] == entries[a0]);
        assert(out[b] == entries[b0]);
    }
    lemma_first_index(out, key);
    if has_key(out, key) {
        let j = first_index(out, key);
        let j0 = if j < i { j } else { j + 1 };
        assert(out[j] == entries[j0]);
    }
    assert forall|other: K| other != key implies (#[trigger] has_key(out, other) <==> has_key(
        entries,
        other,
    )) by {
        lemma_first_index(entries, other);
        lemma_first_index(out, other);
        if has_key(out, other) {
            let j = first_index(out, other);
            let j0 = if j < i { j } else { j + 1 };
            assert(out[j] == entries[j0]);
            lemma_first_index_at_most(entries, other, j0);
        }
        if has_key(entries, other) {
            let j0 = first_index(entries, other);
            let j = if j0 < i { j0 } else { j0 - 1 };
            assert(out[j] == entries[j0]);
            lemma_first_index_at_most(out, other, j);
        }
    }
    assert forall|other: K| other != key && has_key(entries, other) implies #[trigger] first_index(
        out,
        other,
    ) == if first_index(entries, other) < i {
        first_index(entries, other)
    } else {
        first_index(entries, other) - 1
    } by {
        lemma_first_index(entries, other);
        let j0 = first_index(entries, other);
        let j = if j0 < i { j0 } else { j0 - 1 };
        assert(out[j] == entries[j0]);
        lemma_first_index_unique(out, other, j);
    }
}

impl<K: Eq, V> VecMap<K, V> {
    /// Whether the map holds each key once.
    pub open spec fn keys_distinct(&self) -> bool {
        distinct_keys(self@)
    }

    pub fn new() -> (map: Self)
        ensures
            map@ == Seq::<(K, V)>::empty(),
            map.keys_distinct(),
    {
        VecMap { inner: Vec::new() }
    }

    /// The number of entries, in contracts.
    pub open spec fn spec_len(&self) -> usize {
        self.inner.len()
    }

    /// The number of entries.
    #[verifier::when_used_as_spec(spec_len)]
    pub fn len(&self) -> (n: usize)
        ensures
            n == self@.len(),
            n == self.spec_len(),
    {
        self.inner.len()
    }

    /// Whether the map has no entry.
    pub fn is_empty(&self) -> (empty: bool)
        ensures
            empty == (self@.len() == 0),
    {
        self.inner.len() == 0
    }

    /// The position of the first entry that holds `key`.
    pub fn position(&self, key: &K) -> (found: Option<usize>)
        requires
            obeys_concrete_eq::<K>(),
        ensures
            found matches Some(i)
                ==> i == first_index(self@, *key) && i < self@.len() && self@[i as int].0 == *key,
            found is None ==> !has_key(self@, *key),
            found is Some <==> has_key(self@, *key),
    {
        proof {
            reveal(obeys_concrete_eq);
            lemma_first_index(self@, *key);
        }
        let mut i: usize = 0;
        while i < self.inner.len()
            invariant
                i <= self.inner.len(),
                K::obeys_eq_spec(),
                forall|x: K, y: K| x.eq_spec(&y) <==> (x == y),
                forall|j: int| 0 <= j < i ==> (#[trigger] self@[j]).0 != *key,
            decreases self.inner.len() - i,
        {
            if self.inner[i].0 == *key {
                proof {
                    lemma_first_index_at_most(self@, *key, i as int);
                    lemma_first_index(self@, *key);
                    if first_index(self@, *key) < i {
                        assert(self@[first_index(self@, *key)].0 != *key);
                    }
                }
                return Some(i);
            }
            i += 1;
        }
        proof {
            lemma_first_index(self@, *key);
            if first_index(self@, *key) < self@.len() {
                assert(self@[first_index(self@, *key)].0 != *key);
            }
        }
        None
    }

    pub fn contains_key(&self, key: &K) -> (found: bool)
        requires
            obeys_concrete_eq::<K>(),
        ensures
            found == has_key(self@, *key),
    {
        self.position(key).is_some()
    }

    /// The keys, in insertion order.
    pub fn keys(&self) -> (keys: Vec<&K>)
        ensures
            keys@.len() == self@.len(),
            forall|i: int| 0 <= i < self@.len() ==> *(#[trigger] keys@[i]) == self@[i].0,
    {
        let mut keys: Vec<&K> = Vec::new();
        let mut i: usize = 0;
        while i < self.inner.len()
            invariant
                i <= self.inner.len(),
                keys@.len() == i,
                forall|j: int| 0 <= j < i ==> *(#[trigger] keys@[j]) == self@[j].0,
            decreases self.inner.len() - i,
        {
            keys.push(&self.inner[i].0);
            i += 1;
        }
        keys
    }

    /// The values, in insertion order.
    pub fn values(&self) -> (values: Vec<&V>)
        ensures
            values@.len() == self@.len(),
            forall|i: int| 0 <= i < self@.len() ==> *(#[trigger] values@[i]) == self@[i].1,
    {
        let mut values: Vec<&V> = Vec::new();
        let mut i: usize = 0;
        while i < self.inner.len()
            invariant
                i <= self.inner.len(),
                values@.len() == i,
                forall|j: int| 0 <= j < i ==> *(#[trigger] values@[j]) == self@[j].1,
            decreases self.inner.len() - i,
        {
            values.push(&self.inner[i].1);
            i += 1;
        }
        values
    }

    /// Sets the value of `key`: in place where the map holds the key, else as a new last
    /// entry.
    pub fn insert(&mut self, key: K, value: V)
        requires
            obeys_concrete_eq::<K>(),
        ensures
            has_key(old(self)@, key) ==> final(self)@ == old(self)@.update(
                first_index(old(self)@, key),
                (old(self)@[first_index(old(self)@, key)].0, value),
            ),
            !has_key(old(self)@, key) ==> final(self)@ == old(self)@.push((key, value)),
            old(self).keys_distinct() ==> final(self).keys_distinct(),
    {
        match self.position(&key) {
            Some(i) => {
                self.inner[i].1 = value;
                assert(self@ =~= old(self)@.update(i as int, (old(self)@[i as int].0, value)));
            },
            None => {
                proof {
                    lemma_first_index(self@, key);
                }
                self.inner.push((key, value));
                assert forall|i: int, j: int| 0 <= i < j < self@.len() && old(
                    self,
                ).keys_distinct() implies (#[trigger] self@[i]).0 != (#[trigger] self@[j]).0 by {
                    if j == old(self)@.len() {
                        assert(old(self)@[i].0 != key);
                    }
                }
            },
        }
    }

    /// The value of `key`.
    pub fn get(&self, key: &K) -> (value: Option<&V>)
        requires
            obeys_concrete_eq::<K>(),
        ensures
            value matches Some(v)
                ==> has_key(self@, *key) && *v == self@[first_index(self@, *key)].1,
            value is None ==> !has_key(self@, *key),
    {
        match self.position(key) {
            Some(i) => Some(&self.inner[i].1),
            None => None,
        }
    }

    /// The value of `key`, for changing it in place.
    pub fn get_mut(&mut self, key: &K) -> (value: Option<&mut V>)
        requires
            obeys_concrete_eq::<K>(),
        ensures
            value matches Some(v) ==> has_key(old(self)@, *key) && *v == old(self)@[first_index(
                old(self)@,
                *key,
            )].1 && final(self)@ == old(self)@.update(
                first_index(old(self)@, *key),
                (*key, *final(v)),
            ),
            value is None ==> !has_key(old(self)@, *key) && final(self)@ == old(self)@,
    {
        match self.position(key) {
            Some(i) => {
                let entry = &mut self.inner[i];
                Some(&mut entry.1)
            },
            None => None,
        }
    }

    /// The values, one at a time: the value of the entry at `index`, for changing it in
    /// place.
    pub fn values_mut(&mut self, index: usize) -> (value: &mut V)
        requires
            index < old(self)@.len(),
        ensures
            *value == old(self)@[index as int].1,
            final(self)@ == old(self)@.update(
                index as int,
                (old(self)@[index as int].0, *final(value)),
            ),
    {
        &mut self.inner[index].1
    }

    /// Removes the first entry that holds `key` and returns its value.
    pub fn remove(&mut self, key: &K) -> (value: Option<V>)
        requires
            obeys_concrete_eq::<K>(),
        ensures
            value matches Some(v) ==> has_key(old(self)@, *key) && v == old(self)@[first_index(
                old(self)@,
                *key,
            )].1 && final(self)@ == old(self)@.remove(first_index(old(self)@, *key)),
            value is None ==> !has_key(old(self)@, *key) && final(self)@ == old(self)@,
            old(self).keys_distinct() ==> final(self).keys_distinct(),
            old(self).keys_distinct() ==> !has_key(final(self)@, *key),
    {
        match self.position(key) {
            Some(i) => {
                let entry = self.inner.remove(i);
                proof {
                    if old(self).keys_distinct() {
                        lemma_first_index(self@, *key);
                        if has_key(self@, *key) {
                            let j = first_index(self@, *key);
                            if j < i {
                                assert(old(self)@[j].0 == *key);
                            } else {
                                assert(old(self)@[j + 1].0 == *key);
                            }
                        }
                    }
                }
                Some(entry.1)
            },
            None => None,
        }
    }
}

} // verus!
