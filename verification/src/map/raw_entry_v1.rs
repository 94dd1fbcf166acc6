//! The raw entry layer: lookups, insertions, updates and removals that take
//! the hash, and if wanted the test for a match, from the caller.
//!
//! The operations whose names end in `nocheck` trust the hash that they are
//! given. A hash that is not the one the map's hash builder computes for the
//! key makes the record unreachable for lookups by key; the map stays sound.

use vstd::prelude::*;
use core::marker::PhantomData;
use crate::equivalent::Equivalent;
use crate::hashing::HashBuilder;
use crate::map::Bucket;
use crate::map::IndexMap;
use crate::map::engine::IndexMapCore;
use crate::map::engine::with_pair;

mod private;

verus! {

/// Access to the raw entry layer of a map.
pub trait RawEntryApiV1<K, V, S>: private::Sealed {
    /// A builder for lookups that leave the map as it is.
    fn raw_entry_v1(&self) -> RawEntryBuilder<'_, K, V, S>;

    /// A builder for lookups that lead to an entry, occupied or vacant,
    /// through which the map can be changed.
    fn raw_entry_mut_v1(&mut self) -> RawEntryBuilderMut<'_, K, V, S>;
}

impl<K, V, S> RawEntryApiV1<K, V, S> for IndexMap<K, V, S> {
    fn raw_entry_v1(&self) -> (builder: RawEntryBuilder<'_, K, V, S>)
        ensures
            *builder.map == *self,
    {
        RawEntryBuilder { map: self }
    }

    fn raw_entry_mut_v1(&mut self) -> (builder: RawEntryBuilderMut<'_, K, V, S>)
        ensures
            *builder.map == *old(self),
            *final(builder.map) == *final(self),
    {
        RawEntryBuilderMut { map: self }
    }
}

/// A builder of lookups in a map that is borrowed shared.
pub struct RawEntryBuilder<'a, K, V, S> {
    /// The map in which the builder looks.
    pub map: &'a IndexMap<K, V, S>,
}

/// A builder of entries in a map that is borrowed exclusively.
pub struct RawEntryBuilderMut<'a, K, V, S> {
    /// The map in which the builder looks, and which its entries change.
    pub map: &'a mut IndexMap<K, V, S>,
}

impl<'a, K, V, S> RawEntryBuilder<'a, K, V, S> {
    /// Looks a key up under the hash that the map's hash builder computes for it.
    pub fn from_key<Q: ?Sized>(self, key: &Q) -> (pair: Option<(&'a K, &'a V)>) where
        S: HashBuilder<Q>,
        Q: Equivalent<K>,

        requires
            self.map.wf(),
        ensures
            exists|found: Option<usize>|
                #[trigger] self.map.engine().located_key(
                    self.map.hash_builder().hash_spec(key),
                    key,
                    found,
                ) && pair == self.map.engine().refs_at(found),
    {
        let hash = self.map.hash(key);
        self.from_key_hashed_nocheck(hash, key)
    }

    /// Looks a key up under a hash that the caller supplies. A record whose
    /// cached hash is another is not found, whatever its key.
    pub fn from_key_hashed_nocheck<Q: ?Sized>(self, hash: u64, key: &Q) -> (pair: Option<
        (&'a K, &'a V),
    >) where Q: Equivalent<K>
        requires
            self.map.wf(),
        ensures
            exists|found: Option<usize>|
                #[trigger] self.map.engine().located_key(hash, key, found) && pair
                    == self.map.engine().refs_at(found),
    {
        let engine = self.map.as_engine();
        match engine.locate_key(hash, key) {
            Some(index) => Some(engine.refs(index)),
            None => None,
        }
    }

    /// Looks a record up under a hash with a test of the caller's own on the stored keys.
    pub fn from_hash<F>(self, hash: u64, is_match: F) -> (pair: Option<(&'a K, &'a V)>) where
        F: FnMut(&K) -> bool,

        requires
            self.map.wf(),
            forall|i: int|
                0 <= i < self.map@.len() ==> is_match.requires((&(#[trigger] self.map@[i]).key,)),
        ensures
            exists|found: Option<usize>|
                #[trigger] self.map.engine().located(hash, is_match, found) && pair
                    == self.map.engine().refs_at(found),
    {
        let engine = self.map.as_engine();
        assert(engine@ == self.map@);
        match engine.locate(hash, is_match) {
            Some(index) => Some(engine.refs(index)),
            None => None,
        }
    }
}

/// An entry of a map: a record that is there, or the place where one can come in.
pub enum RawEntryMut<'a, K, V, S> {
    /// A record with a matching key.
    Occupied(RawOccupiedEntryMut<'a, K, V, S>),
    /// No record matched.
    Vacant(RawVacantEntryMut<'a, K, V, S>),
}

/// An entry for a record that is in the map, at position `index`.
pub struct RawOccupiedEntryMut<'a, K, V, S> {
    /// The engine of the map.
    pub map: &'a mut IndexMapCore<K, V>,
    /// The position of the record.
    pub index: usize,
    /// Stands for the hash builder of the map, which the entry has no use for.
    pub hash_builder: PhantomData<&'a S>,
}

/// An entry for a record that is not in the map yet. The record comes in at the
/// end of the entry store.
pub struct RawVacantEntryMut<'a, K, V, S> {
    /// The engine of the map.
    pub map: &'a mut IndexMapCore<K, V>,
    /// The hash builder of the map.
    pub hash_builder: &'a S,
}

impl<'a, K, V, S> RawEntryMut<'a, K, V, S> {
    /// The engine as the entry holds it now.
    pub open spec fn engine(&self) -> IndexMapCore<K, V> {
        match self {
            RawEntryMut::Occupied(entry) => *entry.map,
            RawEntryMut::Vacant(entry) => *entry.map,
        }
    }

    /// The position of the record, for an occupied entry.
    pub open spec fn found(&self) -> Option<usize> {
        match self {
            RawEntryMut::Occupied(entry) => Some(entry.index),
            RawEntryMut::Vacant(_) => None,
        }
    }

    /// The entry holds a sound engine, and an occupied entry a position in it.
    pub open spec fn wf(&self) -> bool {
        match self {
            RawEntryMut::Occupied(entry) => entry.wf(),
            RawEntryMut::Vacant(entry) => entry.wf(),
        }
    }
}

impl<'a, K, V, S> RawOccupiedEntryMut<'a, K, V, S> {
    /// The engine as the entry holds it now.
    pub open spec fn engine(&self) -> IndexMapCore<K, V> {
        *self.map
    }

    /// The record of the entry.
    pub open spec fn bucket(&self) -> Bucket<K, V> {
        self.map@[self.index as int]
    }

    /// The entry holds a sound engine and a position in it.
    pub open spec fn wf(&self) -> bool {
        self.map.wf() && self.index < self.map@.len()
    }
}

impl<'a, K, V, S> RawVacantEntryMut<'a, K, V, S> {
    /// The engine as the entry holds it now.
    pub open spec fn engine(&self) -> IndexMapCore<K, V> {
        *self.map
    }

    /// The entry holds a sound engine.
    pub open spec fn wf(&self) -> bool {
        self.map.wf()
    }
}

impl<'a, K, V, S> RawEntryBuilderMut<'a, K, V, S> {
    /// The map as the builder holds it now.
    pub open spec fn map_now(&self) -> IndexMap<K, V, S> {
        *self.map
    }

    /// Looks a key up under the hash that the map's hash builder computes for
    /// it, and returns the entry of the record, or a vacant entry.
    pub fn from_key<Q: ?Sized>(self, key: &Q) -> (entry: RawEntryMut<'a, K, V, S>) where
        S: HashBuilder<Q>,
        Q: Equivalent<K>,

        requires
            self.map_now().wf(),
        ensures
            entry.engine() == self.map_now().engine(),
            entry.engine().located_key(
                self.map_now().hash_builder().hash_spec(key),
                key,
                entry.found(),
            ),
            match entry {
                RawEntryMut::Occupied(occupied) => final(self.map).engine() == *final(occupied.map),
                RawEntryMut::Vacant(vacant) => final(self.map).engine() == *final(vacant.map)
                    && *vacant.hash_builder == self.map_now().hash_builder(),
            },
            final(self.map).hash_builder() == self.map_now().hash_builder(),
    {
        let hash = self.map.hash(key);
        self.from_key_hashed_nocheck(hash, key)
    }

    /// Looks a key up under a hash that the caller supplies, and returns the
    /// entry of the record, or a vacant entry. A record whose cached hash is
    /// another is not found, whatever its key.
    pub fn from_key_hashed_nocheck<Q: ?Sized>(self, hash: u64, key: &Q) -> (entry: RawEntryMut<
        'a,
        K,
        V,
        S,
    >) where Q: Equivalent<K>
        requires
            self.map_now().wf(),
        ensures
            entry.engine() == self.map_now().engine(),
            entry.engine().located_key(hash, key, entry.found()),
            match entry {
                RawEntryMut::Occupied(occupied) => final(self.map).engine() == *final(occupied.map),
                RawEntryMut::Vacant(vacant) => final(self.map).engine() == *final(vacant.map)
                    && *vacant.hash_builder == self.map_now().hash_builder(),
            },
            final(self.map).hash_builder() == self.map_now().hash_builder(),
    {
        let (engine, hash_builder) = self.map.parts_mut();
        match engine.locate_key(hash, key) {
            Some(index) => RawEntryMut::Occupied(
                RawOccupiedEntryMut { map: engine, index, hash_builder: PhantomData },
            ),
            None => RawEntryMut::Vacant(RawVacantEntryMut { map: engine, hash_builder }),
        }
    }

    /// Looks a record up under a hash with a test of the caller's own on the
    /// stored keys, and returns the entry of the first match in probing order,
    /// or a vacant entry.
    pub fn from_hash<F>(self, hash: u64, is_match: F) -> (entry: RawEntryMut<'a, K, V, S>) where
        F: FnMut(&K) -> bool,

        requires
            self.map_now().wf(),
            forall|i: int|
                0 <= i < self.map_now()@.len() ==> is_match.requires(
                    (&(#[trigger] self.map_now()@[i]).key,),
                ),
        ensures
            entry.engine() == self.map_now().engine(),
            entry.engine().located(hash, is_match, entry.found()),
            match entry {
                RawEntryMut::Occupied(occupied) => final(self.map).engine() == *final(occupied.map),
                RawEntryMut::Vacant(vacant) => final(self.map).engine() == *final(vacant.map)
                    && *vacant.hash_builder == self.map_now().hash_builder(),
            },
            final(self.map).hash_builder() == self.map_now().hash_builder(),
    {
        let ghost before = self.map_now();
        let (engine, hash_builder) = self.map.parts_mut();
        assert(engine@ == before@);
        match engine.locate(hash, is_match) {
            Some(index) => RawEntryMut::Occupied(
                RawOccupiedEntryMut { map: engine, index, hash_builder: PhantomData },
            ),
            None => RawEntryMut::Vacant(RawVacantEntryMut { map: engine, hash_builder }),
        }
    }
}

impl<'a, K, V, S> RawOccupiedEntryMut<'a, K, V, S> {
    /// The position of the record.
    #[inline]
    pub fn index(&self) -> (index: usize)
        ensures
            index == self.index,
    {
        self.index
    }

    /// The key that the map stores, which need not be the key that found it.
    pub fn key(&self) -> (key: &K)
        requires
            self.wf(),
        ensures
            *key == self.bucket().key,
    {
        self.map.refs(self.index).0
    }

    /// The stored key, open to change. The record keeps the hash it was filed
    /// under: a key that hashes or compares otherwise is lost to lookups by key.
    pub fn key_mut(&mut self) -> (key: &mut K)
        requires
            old(self).wf(),
        ensures
            *key == old(self).bucket().key,
            old(self).engine().rewrites(
                final(self).engine(),
                old(self).index as int,
                *final(key),
                old(self).bucket().value,
            ),
            final(self).index == old(self).index,
            *final(final(self).map) == *final(old(self).map),
    {
        self.map.muts(self.index).0
    }

    /// The stored key, open to change for as long as the map is borrowed.
    pub fn into_key(self) -> (key: &'a mut K)
        requires
            self.wf(),
        ensures
            *key == self.bucket().key,
            self.engine().rewrites(
                *final(self.map),
                self.index as int,
                *final(key),
                self.bucket().value,
            ),
    {
        self.map.muts(self.index).0
    }

    /// The value of the record.
    pub fn get(&self) -> (value: &V)
        requires
            self.wf(),
        ensures
            *value == self.bucket().value,
    {
        self.map.refs(self.index).1
    }

    /// The value of the record, open to change.
    pub fn get_mut(&mut self) -> (value: &mut V)
        requires
            old(self).wf(),
        ensures
            *value == old(self).bucket().value,
            old(self).engine().rewrites(
                final(self).engine(),
                old(self).index as int,
                old(self).bucket().key,
                *final(value),
            ),
            final(self).index == old(self).index,
            *final(final(self).map) == *final(old(self).map),
    {
        self.map.muts(self.index).1
    }

    /// The value of the record, open to change for as long as the map is borrowed.
    pub fn into_mut(self) -> (value: &'a mut V)
        requires
            self.wf(),
        ensures
            *value == self.bucket().value,
            self.engine().rewrites(
                *final(self.map),
                self.index as int,
                self.bucket().key,
                *final(value),
            ),
    {
        self.map.muts(self.index).1
    }

    /// The key and the value of the record.
    pub fn get_key_value(&self) -> (pair: (&K, &V))
        requires
            self.wf(),
        ensures
            *pair.0 == self.bucket().key,
            *pair.1 == self.bucket().value,
    {
        self.map.refs(self.index)
    }

    /// The key and the value of the record, both open to change.
    pub fn get_key_value_mut(&mut self) -> (pair: (&mut K, &mut V))
        requires
            old(self).wf(),
        ensures
            *pair.0 == old(self).bucket().key,
            *pair.1 == old(self).bucket().value,
            old(self).engine().rewrites(
                final(self).engine(),
                old(self).index as int,
                *final(pair.0),
                *final(pair.1),
            ),
            final(self).index == old(self).index,
            *final(final(self).map) == *final(old(self).map),
    {
        self.map.muts(self.index)
    }

    /// The key and the value of the record, both open to change for as long as
    /// the map is borrowed.
    pub fn into_key_value_mut(self) -> (pair: (&'a mut K, &'a mut V))
        requires
            self.wf(),
        ensures
            *pair.0 == self.bucket().key,
            *pair.1 == self.bucket().value,
            self.engine().rewrites(
                *final(self.map),
                self.index as int,
                *final(pair.0),
                *final(pair.1),
            ),
    {
        self.map.muts(self.index)
    }

    /// Puts `value` in the record and returns the value that was there.
    pub fn insert(&mut self, value: V) -> (replaced: V)
        requires
            old(self).wf(),
        ensures
            replaced == old(self).bucket().value,
            old(self).engine().rewrites(
                final(self).engine(),
                old(self).index as int,
                old(self).bucket().key,
                value,
            ),
            final(self).index == old(self).index,
            *final(final(self).map) == *final(old(self).map),
    {
        let mut value = value;
        core::mem::swap(self.get_mut(), &mut value);
        value
    }

    /// Puts `key` in the record and returns the key that was there. The record
    /// keeps the hash it was filed under.
    pub fn insert_key(&mut self, key: K) -> (replaced: K)
        requires
            old(self).wf(),
        ensures
            replaced == old(self).bucket().key,
            old(self).engine().rewrites(
                final(self).engine(),
                old(self).index as int,
                key,
                old(self).bucket().value,
            ),
            final(self).index == old(self).index,
            *final(final(self).map) == *final(old(self).map),
    {
        let mut key = key;
        core::mem::swap(self.key_mut(), &mut key);
        key
    }

    /// Removes the record and returns its value. The last record takes its
    /// place, as with `swap_remove`.
    pub fn remove(self) -> (value: V)
        requires
            self.wf(),
        ensures
            self.engine().swap_removes(*final(self.map), self.index as int),
            value == self.bucket().value,
    {
        self.swap_remove()
    }

    /// Removes the record and returns its value. The last record takes its
    /// place, so the order of the records changes.
    pub fn swap_remove(self) -> (value: V)
        requires
            self.wf(),
        ensures
            self.engine().swap_removes(*final(self.map), self.index as int),
            value == self.bucket().value,
    {
        self.swap_remove_entry().1
    }

    /// Removes the record and returns its value. The later records move down
    /// by one, so the order of the records stays.
    pub fn shift_remove(self) -> (value: V)
        requires
            self.wf(),
        ensures
            self.engine().shift_removes(*final(self.map), self.index as int),
            value == self.bucket().value,
    {
        self.shift_remove_entry().1
    }

    /// Removes the record and returns its key and value. The last record takes
    /// its place, as with `swap_remove_entry`.
    pub fn remove_entry(self) -> (pair: (K, V))
        requires
            self.wf(),
        ensures
            self.engine().swap_removes(*final(self.map), self.index as int),
            pair.0 == self.bucket().key,
            pair.1 == self.bucket().value,
    {
        self.swap_remove_entry()
    }

    /// Removes the record and returns its key and value. The last record takes
    /// its place, so the order of the records changes.
    pub fn swap_remove_entry(self) -> (pair: (K, V))
        requires
            self.wf(),
        ensures
            self.engine().swap_removes(*final(self.map), self.index as int),
            pair.0 == self.bucket().key,
            pair.1 == self.bucket().value,
    {
        self.map.swap_remove(self.index)
    }

    /// Removes the record and returns its key and value. The later records move
    /// down by one, so the order of the records stays.
    pub fn shift_remove_entry(self) -> (pair: (K, V))
        requires
            self.wf(),
        ensures
            self.engine().shift_removes(*final(self.map), self.index as int),
            pair.0 == self.bucket().key,
            pair.1 == self.bucket().value,
    {
        self.map.shift_remove(self.index)
    }
}

impl<'a, K, V, S> RawVacantEntryMut<'a, K, V, S> {
    /// The position at which a record would come in: the number of records.
    pub fn index(&self) -> (index: usize)
        ensures
            index == self.engine()@.len(),
    {
        self.map.len()
    }

    /// Appends a record with `key` and `value`, filed under the hash that the
    /// map's hash builder computes for `key`, and returns the two, open to change.
    pub fn insert(self, key: K, value: V) -> (pair: (&'a mut K, &'a mut V)) where S: HashBuilder<K>
        requires
            self.wf(),
        ensures
            *pair.0 == key,
            *pair.1 == value,
            self.engine().appends(
                *final(self.map),
                Bucket {
                    hash: self.hash_builder.hash_spec(&key),
                    key: *final(pair.0),
                    value: *final(pair.1),
                },
            ),
    {
        let hash = self.hash_builder.hash_one(&key);
        self.insert_hashed_nocheck(hash, key, value)
    }

    /// Appends a record with `key` and `value`, filed under `hash`, and returns
    /// the two, open to change. Lookups by key find the record only if `hash`
    /// is the hash that the map's hash builder computes for the key.
    pub fn insert_hashed_nocheck(self, hash: u64, key: K, value: V) -> (pair: (&'a mut K, &'a mut V))
        requires
            self.wf(),
        ensures
            *pair.0 == key,
            *pair.1 == value,
            self.engine().appends(
                *final(self.map),
                Bucket { hash, key: *final(pair.0), value: *final(pair.1) },
            ),
    {
        let map = self.map;
        let index = map.append(hash, key, value);
        let ghost appended = map@;
        let pair = map.muts(index);
        proof {
            assert(with_pair(appended, index as int, *final(pair.0), *final(pair.1))
                =~= self.engine()@.push(
                Bucket { hash, key: *final(pair.0), value: *final(pair.1) },
            ));
        }
        pair
    }
}

impl<'a, K, V, S> RawEntryMut<'a, K, V, S> {
    /// The key and the value of the record, if there is one; otherwise those
    /// of a new record with the given key and value. Both are open to change.
    pub fn or_insert(self, default_key: K, default_value: V) -> (pair: (&'a mut K, &'a mut V)) where
        S: HashBuilder<K>,

        requires
            self.wf(),
        ensures
            match self {
                RawEntryMut::Occupied(entry) => {
                    &&& *pair.0 == entry.bucket().key
                    &&& *pair.1 == entry.bucket().value
                    &&& entry.engine().rewrites(
                        *final(entry.map),
                        entry.index as int,
                        *final(pair.0),
                        *final(pair.1),
                    )
                },
                RawEntryMut::Vacant(entry) => {
                    &&& *pair.0 == default_key
                    &&& *pair.1 == default_value
                    &&& entry.engine().appends(
                        *final(entry.map),
                        Bucket {
                            hash: entry.hash_builder.hash_spec(&default_key),
                            key: *final(pair.0),
                            value: *final(pair.1),
                        },
                    )
                },
            },
    {
        match self {
            RawEntryMut::Occupied(entry) => entry.into_key_value_mut(),
            RawEntryMut::Vacant(entry) => entry.insert(default_key, default_value),
        }
    }

    /// The key and the value of the record, if there is one; otherwise those
    /// of a new record with the key and value that `call` makes. `call` runs
    /// only for a vacant entry. Both are open to change.
    pub fn or_insert_with<F>(self, call: F) -> (pair: (&'a mut K, &'a mut V)) where
        F: FnOnce() -> (K, V),
        S: HashBuilder<K>,

        requires
            self.wf(),
            self is Vacant ==> call.requires(()),
        ensures
            match self {
                RawEntryMut::Occupied(entry) => {
                    &&& *pair.0 == entry.bucket().key
                    &&& *pair.1 == entry.bucket().value
                    &&& entry.engine().rewrites(
                        *final(entry.map),
                        entry.index as int,
                        *final(pair.0),
                        *final(pair.1),
                    )
                },
                RawEntryMut::Vacant(entry) => {
                    &&& call.ensures((), (*pair.0, *pair.1))
                    &&& entry.engine().appends(
                        *final(entry.map),
                        Bucket {
                            hash: entry.hash_builder.hash_spec(&*pair.0),
                            key: *final(pair.0),
                            value: *final(pair.1),
                        },
                    )
                },
            },
    {
        match self {
            RawEntryMut::Occupied(entry) => entry.into_key_value_mut(),
            RawEntryMut::Vacant(entry) => {
                let (key, value) = call();
                entry.insert(key, value)
            },
        }
    }

    /// Runs `f` on the key and the value of the record, if there is one, and
    /// returns the entry.
    pub fn and_modify<F>(self, f: F) -> (entry: Self) where F: FnOnce(&mut K, &mut V)
        requires
            self.wf(),
            match self {
                RawEntryMut::Occupied(occupied) => forall|key: &mut K, value: &mut V|
                    *key == occupied.bucket().key && *value == occupied.bucket().value
                        ==> #[trigger] f.requires((key, value)),
                RawEntryMut::Vacant(_) => true,
            },
        ensures
            match (self, entry) {
                (RawEntryMut::Occupied(before), RawEntryMut::Occupied(after)) => {
                    &&& after.index == before.index
                    &&& *final(after.map) == *final(before.map)
                    &&& exists|key: &mut K, value: &mut V|
                        {
                            &&& *key == before.bucket().key
                            &&& *value == before.bucket().value
                            &&& #[trigger] f.ensures((key, value), ())
                            &&& before.engine().rewrites(
                                after.engine(),
                                before.index as int,
                                *final(key),
                                *final(value),
                            )
                        }
                },
                (RawEntryMut::Vacant(before), RawEntryMut::Vacant(after)) => {
                    &&& after.engine() == before.engine()
                    &&& *final(after.map) == *final(before.map)
                    &&& after.hash_builder == before.hash_builder
                },
                _ => false,
            },
    {
        match self {
            RawEntryMut::Occupied(mut occupied) => {
                let (key, value) = occupied.get_key_value_mut();
                f(key, value);
                RawEntryMut::Occupied(occupied)
            },
            RawEntryMut::Vacant(vacant) => RawEntryMut::Vacant(vacant),
        }
    }
}

/// A record that came in through a vacant entry is what a lookup by its key
/// returns next: where the entry was vacant for `key`, and `after` is the
/// engine once `insert` has appended `key` with `value`, `from_key` with `key`
/// returns that key and that value.
pub proof fn lemma_insert_then_lookup<K: Equivalent<K>, V, S: HashBuilder<K>>(
    before: IndexMapCore<K, V>,
    after: IndexMapCore<K, V>,
    hash_builder: S,
    key: K,
    value: V,
    pair: Option<(&K, &V)>,
)
    requires
        key.equivalent_spec(&key),
        before.located_key(hash_builder.hash_spec(&key), &key, None),
        after.wf(),
        after@ == before@.push(Bucket { hash: hash_builder.hash_spec(&key), key, value }),
        exists|found: Option<usize>|
            #[trigger] after.located_key(hash_builder.hash_spec(&key), &key, found) && pair
                == after.refs_at(found),
    ensures
        pair == Some((&key, &value)),
{
    let hash = hash_builder.hash_spec(&key);
    let found = choose|found: Option<usize>|
        #[trigger] after.located_key(hash, &key, found) && pair == after.refs_at(found);
    before.lemma_appended_is_found(after, Bucket { hash, key, value }, &key, found);
}

} // verus!
