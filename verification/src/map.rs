//! The ordered map and the record type it stores.

use vstd::prelude::*;
use vstd::std_specs::cmp::PartialEqSpec;
use crate::equivalent::Equivalent;
use crate::hashing::HashBuilder;
use crate::map::engine::IndexMapCore;

pub mod engine;
pub mod raw_entry_v1;

pub use crate::map::raw_entry_v1::RawEntryApiV1;

verus! {

/// The integer by which a record is placed in the index table.
pub type HashValue = u64;

/// One record of the entry store: a key and its value, with the hash under
/// which the index table files the record.
pub struct Bucket<K, V> {
    /// The hash under which the record is filed, as it was given when the record came in.
    pub hash: HashValue,
    /// The key of the record.
    pub key: K,
    /// The value of the record.
    pub value: V,
}

/// A hash map that keeps its records in insertion order and gives access to
/// them by position as well as by key.
pub struct IndexMap<K, V, S> {
    engine: IndexMapCore<K, V>,
    hash_builder: S,
}

impl<K, V, S> View for IndexMap<K, V, S> {
    type V = Seq<Bucket<K, V>>;

    /// The records, in storage order.
    open spec fn view(&self) -> Seq<Bucket<K, V>> {
        self.engine()@
    }
}

impl<K, V, S> IndexMap<K, V, S> {
    /// The engine that holds the records and their index.
    pub closed spec fn engine(&self) -> IndexMapCore<K, V> {
        self.engine
    }

    /// The hash builder that the map was made with.
    pub closed spec fn hash_builder(&self) -> S {
        self.hash_builder
    }

    /// The invariant of the map, which is that of its engine.
    pub open spec fn wf(&self) -> bool {
        self.engine().wf()
    }

    /// An empty map that hashes its keys with `hash_builder`.
    pub fn with_hasher(hash_builder: S) -> (map: Self)
        ensures
            map.wf(),
            map@ == Seq::<Bucket<K, V>>::empty(),
            map.hash_builder() == hash_builder,
    {
        IndexMap { engine: IndexMapCore::new(), hash_builder }
    }

    /// The number of records.
    pub fn len(&self) -> (n: usize)
        ensures
            n == self@.len(),
    {
        self.engine.len()
    }

    /// Whether the map holds no record.
    pub fn is_empty(&self) -> (b: bool)
        ensures
            b == (self@.len() == 0),
    {
        self.engine.is_empty()
    }

    /// The engine of the map.
    pub fn as_engine(&self) -> (engine: &IndexMapCore<K, V>)
        ensures
            *engine == self.engine(),
    {
        &self.engine
    }

    /// The engine of the map, open to change, and the hash builder.
    pub fn parts_mut(&mut self) -> (parts: (&mut IndexMapCore<K, V>, &S))
        ensures
            *parts.0 == old(self).engine(),
            *parts.1 == old(self).hash_builder(),
            final(self).engine() == *final(parts.0),
            final(self).hash_builder() == old(self).hash_builder(),
    {
        (&mut self.engine, &self.hash_builder)
    }

    /// The hash builder of the map.
    pub fn hasher(&self) -> (hash_builder: &S)
        ensures
            *hash_builder == self.hash_builder(),
    {
        &self.hash_builder
    }

    /// The hash of `key` under the map's hash builder.
    pub fn hash<Q: ?Sized>(&self, key: &Q) -> (hash: HashValue) where S: HashBuilder<Q>
        ensures
            hash == self.hash_builder().hash_spec(key),
    {
        self.hash_builder.hash_one(key)
    }

    /// The key and the value at position `index`, if there is such a position.
    pub fn get_index(&self, index: usize) -> (pair: Option<(&K, &V)>)
        ensures
            match pair {
                Some((key, value)) => index < self@.len() && *key == self@[index as int].key
                    && *value == self@[index as int].value,
                None => index >= self@.len(),
            },
    {
        if index < self.engine.len() {
            Some(self.engine.refs(index))
        } else {
            None
        }
    }
}

impl<K, V, S> IndexMap<K, V, S> {
    /// Whether `other` holds, for the key of the record at `index` of this map,
    /// a record with an equal value.
    pub open spec fn pair_held_by(&self, other: &Self, index: int) -> bool where
        K: Equivalent<K>,
        S: HashBuilder<K>,
        V: PartialEq,
     {
        exists|found: Option<usize>|
            {
                &&& #[trigger] other.engine().located_key(
                    other.hash_builder().hash_spec(&self@[index].key),
                    &self@[index].key,
                    found,
                )
                &&& found is Some
                &&& self@[index].value.eq_spec(&other@[found.unwrap() as int].value)
            }
    }

    /// Whether the two maps hold the same keys with equal values, in whatever
    /// order: they have the same number of records, and `other` holds every
    /// key of this map with an equal value.
    pub open spec fn same_pairs(&self, other: &Self) -> bool where
        K: Equivalent<K>,
        S: HashBuilder<K>,
        V: PartialEq,
     {
        &&& self@.len() == other@.len()
        &&& forall|i: int| 0 <= i < self@.len() ==> #[trigger] self.pair_held_by(other, i)
    }

    /// Compares the two maps without regard to the order of their records.
    pub fn eq(&self, other: &Self) -> (equal: bool) where
        K: Equivalent<K>,
        S: HashBuilder<K>,
        V: PartialEq,

        requires
            self.wf(),
            other.wf(),
        ensures
            V::obeys_eq_spec() ==> equal == self.same_pairs(other),
    {
        if self.len() != other.len() {
            return false;
        }
        let n = self.len();
        let mut i: usize = 0;
        while i < n
            invariant
                self.wf(),
                other.wf(),
                n == self@.len(),
                self@.len() == other@.len(),
                i <= n,
                V::obeys_eq_spec() ==> forall|j: int|
                    0 <= j < i ==> #[trigger] self.pair_held_by(other, j),
            decreases n - i,
        {
            let (key, value) = self.engine.refs(i);
            let hash = other.hash_builder.hash_one(key);
            let found = other.engine.locate_key(hash, key);
            let held = match found {
                Some(p) => *value == *other.engine.refs(p).1,
                None => false,
            };
            proof {
                assert(*key == self@[i as int].key && *value == self@[i as int].value);
                if V::obeys_eq_spec() && held {
                    assert(other.engine().located_key(
                        other.hash_builder().hash_spec(&self@[i as int].key),
                        &self@[i as int].key,
                        found,
                    ));
                    assert(found is Some);
                    assert(self@[i as int].value.eq_spec(&other@[found.unwrap() as int].value));
                    assert(self.pair_held_by(other, i as int));
                }
                if V::obeys_eq_spec() && !held && self.pair_held_by(other, i as int) {
                    let again = choose|again: Option<usize>|
                        {
                            &&& #[trigger] other.engine().located_key(hash, key, again)
                            &&& again is Some
                            &&& self@[i as int].value.eq_spec(&other@[again.unwrap() as int].value)
                        };
                    other.engine().lemma_located_key_unique(hash, key, found, again);
                }
            }
            if !held {
                return false;
            }
            i += 1;
        }
        true
    }
}

} // verus!
