//! The engine that keeps the index table and the entry store consistent.
//!
//! The entry store is a dense vector of records in insertion order. The index
//! table files the position of each record under the hash that the record
//! carries. Every operation here changes both together.

use vstd::prelude::*;
use crate::equivalent::Equivalent;
use crate::map::Bucket;
use crate::map::HashValue;
use crate::map::engine::table::IndexTable;
use crate::map::engine::table::INITIAL_SLOTS;
use crate::map::engine::table::cached_hashes;
use crate::map::engine::table::max_load;
use crate::map::engine::table::slots_for_next;

pub mod table;

verus! {

/// The index table and the entry store of an ordered map.
pub struct IndexMapCore<K, V> {
    indices: IndexTable,
    entries: Vec<Bucket<K, V>>,
}

impl<K, V> View for IndexMapCore<K, V> {
    type V = Seq<Bucket<K, V>>;

    /// The records, in storage order.
    closed spec fn view(&self) -> Seq<Bucket<K, V>> {
        self.entries@
    }
}

/// The record at `index` with another key and value, under the same hash.
pub open spec fn with_pair<K, V>(entries: Seq<Bucket<K, V>>, index: int, key: K, value: V) -> Seq<
    Bucket<K, V>,
> {
    entries.update(index, Bucket { hash: entries[index].hash, key, value })
}

/// The entry store after the record at `index` has left and the last record has taken its place.
pub open spec fn swap_removed<K, V>(entries: Seq<Bucket<K, V>>, index: int) -> Seq<Bucket<K, V>> {
    entries.update(index, entries.last()).drop_last()
}

/// The entry store after the record at `index` has left and the later records have moved down.
pub open spec fn shift_removed<K, V>(entries: Seq<Bucket<K, V>>, index: int) -> Seq<Bucket<K, V>> {
    entries.remove(index)
}

/// The position to which a shift-removal at `index` moves the record at `position`.
pub open spec fn shifted_position(position: int, index: int) -> int {
    if position < index {
        position
    } else {
        position - 1
    }
}

/// A swap-removal takes one record away; the last record, unless it is the
/// one removed, comes to stand at the vacated position; every other record
/// stays where it was.
pub proof fn lemma_swap_removed<K, V>(entries: Seq<Bucket<K, V>>, index: int)
    requires
        0 <= index < entries.len(),
    ensures
        swap_removed(entries, index).len() == entries.len() - 1,
        index != entries.len() - 1 ==> swap_removed(entries, index)[index] == entries.last(),
        forall|q: int|
            0 <= q < entries.len() - 1 && q != index ==> #[trigger] swap_removed(entries, index)[q]
                == entries[q],
{
}

/// A shift-removal takes one record away; every record that stood after it
/// moves down by one, every record before it stays, and any two records that
/// remain keep their order.
pub proof fn lemma_shift_removed<K, V>(entries: Seq<Bucket<K, V>>, index: int)
    requires
        0 <= index < entries.len(),
    ensures
        shift_removed(entries, index).len() == entries.len() - 1,
        forall|q: int|
            0 <= q < entries.len() && q != index ==> shift_removed(entries, index)[shifted_position(
                q,
                index,
            )] == #[trigger] entries[q],
        forall|q: int| index < q < entries.len() ==> shifted_position(q, index) == q - 1,
        forall|a: int, b: int|
            0 <= a < b < entries.len() && a != index && b != index ==> #[trigger] shifted_position(
                a,
                index,
            ) < #[trigger] shifted_position(b, index),
{
}

impl<K, V> IndexMapCore<K, V> {
    /// The invariant of the engine: the index table is sound, it holds one
    /// entry for each position of the entry store and no other, and the entry
    /// for a position carries the hash of the record there.
    pub closed spec fn wf(&self) -> bool {
        &&& self.indices.wf()
        &&& self.indices.hashes().len() == self.entries@.len()
        &&& forall|p: int|
            0 <= p < self.entries@.len() ==> self.indices.hashes()[p] == (
            #[trigger] self.entries@[p]).hash
    }

    /// The index table caches, position by position, the hashes that the records carry.
    proof fn lemma_hashes_agree(&self)
        requires
            self.wf(),
        ensures
            self.indices.hashes() == cached_hashes(self.entries@),
    {
        assert(self.indices.hashes() =~= cached_hashes(self.entries@));
    }

    /// The place of position `p` in probing order among the positions that
    /// carry the same hash: probing meets a position of lower rank first.
    pub closed spec fn probe_rank(&self, p: int) -> int {
        self.indices.rank(p)
    }

    /// Whether probing meets the records of one hash in the order of their
    /// positions. An engine that has only taken records in is in this order;
    /// a removal by swap, or a record that takes the slot of a tombstone, can
    /// end it, and a rebuild of the index table brings it back.
    pub open spec fn in_order(&self) -> bool {
        forall|p: int, q: int|
            0 <= p < q < self@.len() && self@[p].hash == self@[q].hash
                ==> #[trigger] self.probe_rank(p) < #[trigger] self.probe_rank(q)
    }

    /// The order of the engine is that of its index table.
    proof fn lemma_in_order(&self)
        requires
            self.wf(),
        ensures
            self.in_order() == self.indices.in_order(),
    {
        if self.indices.in_order() {
            assert forall|p: int, q: int|
                0 <= p < q < self@.len() && self@[p].hash == self@[q].hash implies #[trigger] self.probe_rank(
                p,
            ) < #[trigger] self.probe_rank(q) by {
                assert(self.indices.hashes()[p] == self.entries@[p].hash);
                assert(self.indices.hashes()[q] == self.entries@[q].hash);
                assert(self.indices.rank(p) < self.indices.rank(q));
            }
        }
        if self.in_order() {
            assert forall|p: int, q: int|
                0 <= p < q < self.indices.hashes().len() && self.indices.hashes()[p]
                    == self.indices.hashes()[q] implies #[trigger] self.indices.rank(p)
                < #[trigger] self.indices.rank(q) by {
                assert(self.indices.hashes()[p] == self.entries@[p].hash);
                assert(self.indices.hashes()[q] == self.entries@[q].hash);
                assert(self.probe_rank(p) < self.probe_rank(q));
            }
        }
    }

    /// In an engine that is in order, the position that probing with a key
    /// returns is the lowest at which a record matches.
    pub proof fn lemma_first_match_is_lowest<Q: Equivalent<K> + ?Sized>(
        &self,
        hash: HashValue,
        key: &Q,
        found: usize,
        other: int,
    )
        requires
            self.wf(),
            self.in_order(),
            self.located_key(hash, key, Some(found)),
            0 <= other < self@.len(),
            self@[other].hash == hash,
            key.equivalent_spec(&self@[other].key),
        ensures
            found <= other,
    {
        if other < found {
            assert(self.probe_rank(other) < self.probe_rank(found as int));
        }
    }

    /// Whether `found` is the outcome of probing for `hash` with the test `is_match`:
    /// the first position in probing order that carries `hash` and whose key the
    /// test accepted, every earlier one refused; or none, every position that
    /// carries `hash` refused.
    pub open spec fn located<F: FnMut(&K) -> bool>(
        &self,
        hash: HashValue,
        is_match: F,
        found: Option<usize>,
    ) -> bool {
        match found {
            Some(p) => {
                &&& p < self@.len()
                &&& self@[p as int].hash == hash
                &&& is_match.ensures((&self@[p as int].key,), true)
                &&& forall|q: int|
                    0 <= q < self@.len() && self@[q].hash == hash && self.probe_rank(q)
                        < self.probe_rank(p as int) ==> is_match.ensures(
                        (&(#[trigger] self@[q]).key,),
                        false,
                    )
            },
            None => forall|q: int|
                0 <= q < self@.len() && self@[q].hash == hash ==> is_match.ensures(
                    (&(#[trigger] self@[q]).key,),
                    false,
                ),
        }
    }

    /// Whether `found` is the outcome of probing for `hash` with the key `key`:
    /// the first position in probing order that carries `hash` and whose key is
    /// equivalent to `key`; or none, where there is no such position.
    pub open spec fn located_key<Q: Equivalent<K> + ?Sized>(
        &self,
        hash: HashValue,
        key: &Q,
        found: Option<usize>,
    ) -> bool {
        match found {
            Some(p) => {
                &&& p < self@.len()
                &&& self@[p as int].hash == hash
                &&& key.equivalent_spec(&self@[p as int].key)
                &&& forall|q: int|
                    0 <= q < self@.len() && (#[trigger] self@[q]).hash == hash
                        && key.equivalent_spec(&self@[q].key) ==> self.probe_rank(p as int)
                        <= self.probe_rank(q)
            },
            None => forall|q: int|
                0 <= q < self@.len() && (#[trigger] self@[q]).hash == hash
                    ==> !key.equivalent_spec(&self@[q].key),
        }
    }

    /// The key and the value at the position `found`, if it is one.
    pub open spec fn refs_at(&self, found: Option<usize>) -> Option<(&K, &V)> {
        match found {
            Some(p) => Some((&self@[p as int].key, &self@[p as int].value)),
            None => None,
        }
    }

    /// Probing for a hash with a key has one outcome.
    pub proof fn lemma_located_key_unique<Q: Equivalent<K> + ?Sized>(
        &self,
        hash: HashValue,
        key: &Q,
        found: Option<usize>,
        other: Option<usize>,
    )
        requires
            self.wf(),
            self.located_key(hash, key, found),
            self.located_key(hash, key, other),
        ensures
            found == other,
    {
        match (found, other) {
            (Some(p), Some(q)) => {
                if p != q {
                    assert(self@[p as int].hash == hash);
                    assert(self@[q as int].hash == hash);
                    self.lemma_probe_rank_distinct(p as int, q as int);
                }
            },
            (Some(p), None) => {
                assert(self@[p as int].hash == hash);
            },
            (None, Some(q)) => {
                assert(self@[q as int].hash == hash);
            },
            (None, None) => {},
        }
    }

    /// Whether `after` is this engine once `record` has been appended: the entry
    /// store holds `record` at its end and the index table is sound for it. The
    /// table has the slots that the growth rule gives. Where it was rebuilt, it
    /// holds no tombstone and is in order. Where it was not, at most one more
    /// slot is in use and every position keeps its place in probing order; the
    /// engine stays in order if the record took a slot that was empty.
    pub open spec fn appends(&self, after: Self, record: Bucket<K, V>) -> bool {
        &&& after.wf()
        &&& after@ == self@.push(record)
        &&& after.capacity() == slots_for_next(self.capacity(), self.load(), self@.len() as int)
        &&& if self.load() + 1 > max_load(self.capacity()) {
            &&& after.load() == self@.len() + 1
            &&& after.in_order()
        } else {
            &&& self.load() <= after.load() <= self.load() + 1
            &&& forall|q: int|
                0 <= q < self@.len() ==> #[trigger] after.probe_rank(q) == self.probe_rank(q)
            &&& self.in_order() && after.load() == self.load() + 1 ==> after.in_order()
        }
    }

    /// Whether `after` is this engine once the record at `index` has been
    /// removed by swap: the last record stands in its place, with the place in
    /// probing order that it had; the index table keeps its slots, one of them
    /// now a tombstone.
    pub open spec fn swap_removes(&self, after: Self, index: int) -> bool {
        &&& after.wf()
        &&& after@ == swap_removed(self@, index)
        &&& after.capacity() == self.capacity()
        &&& after.load() == self.load()
        &&& forall|q: int|
            0 <= q < after@.len() ==> #[trigger] after.probe_rank(q) == self.probe_rank(
                if q == index {
                    self@.len() - 1
                } else {
                    q
                },
            )
    }

    /// Whether `after` is this engine once the record at `index` has been
    /// removed by shift: every later record stands one position lower, with the
    /// place in probing order that it had; the index table keeps its slots, one
    /// of them now a tombstone.
    pub open spec fn shift_removes(&self, after: Self, index: int) -> bool {
        &&& after.wf()
        &&& after@ == shift_removed(self@, index)
        &&& after.capacity() == self.capacity()
        &&& after.load() == self.load()
        &&& self.in_order() ==> after.in_order()
        &&& forall|q: int|
            0 <= q < after@.len() ==> #[trigger] after.probe_rank(q) == self.probe_rank(
                if q < index {
                    q
                } else {
                    q + 1
                },
            )
    }

    /// Whether `after` is this engine with another key and value in the record
    /// at `index`, and all else as it was: the record keeps its hash, and every
    /// position its place in probing order.
    pub open spec fn rewrites(&self, after: Self, index: int, key: K, value: V) -> bool {
        &&& after@ == with_pair(self@, index, key, value)
        &&& after.wf()
        &&& after.capacity() == self.capacity()
        &&& after.load() == self.load()
        &&& forall|p: int| #[trigger] after.probe_rank(p) == self.probe_rank(p)
    }

    /// A record that was appended is found by a key equivalent to its own,
    /// under its hash, if no record before it matched that key under that hash.
    pub proof fn lemma_appended_is_found<Q: Equivalent<K> + ?Sized>(
        &self,
        after: Self,
        record: Bucket<K, V>,
        key: &Q,
        found: Option<usize>,
    )
        requires
            after.wf(),
            after@ == self@.push(record),
            key.equivalent_spec(&record.key),
            self.located_key(record.hash, key, None),
            after.located_key(record.hash, key, found),
        ensures
            found == Some(self@.len() as usize),
            after.refs_at(found) == Some((&record.key, &record.value)),
    {
        let n = self@.len() as int;
        assert(after@[n] == record);
        match found {
            Some(p) => {
                if p != n {
                    assert(after@[p as int] == self@[p as int]);
                }
            },
            None => {
                assert(after@[n].hash == record.hash);
            },
        }
    }

    /// After the only record that matched a key under a hash has been removed,
    /// by swap or by shift, a lookup of that key under that hash finds nothing.
    pub proof fn lemma_removed_is_gone<Q: Equivalent<K> + ?Sized>(
        &self,
        after: Self,
        index: int,
        hash: HashValue,
        key: &Q,
        found: Option<usize>,
    )
        requires
            0 <= index < self@.len(),
            after@ == swap_removed(self@, index) || after@ == shift_removed(self@, index),
            forall|q: int|
                0 <= q < self@.len() && q != index ==> !((#[trigger] self@[q]).hash == hash
                    && key.equivalent_spec(&self@[q].key)),
            after.located_key(hash, key, found),
        ensures
            found is None,
    {
        if let Some(p) = found {
            if after@ == swap_removed(self@, index) {
                let q = if p == index { self@.len() - 1 } else { p as int };
                assert(after@[p as int] == self@[q]);
            } else {
                let q = if p < index { p as int } else { p + 1 };
                assert(after@[p as int] == self@[q]);
            }
        }
    }

    /// A lookup of a key under a hash that no record with an equivalent key
    /// carries finds nothing, whether or not such a record is there.
    pub proof fn lemma_wrong_hash_misses<Q: Equivalent<K> + ?Sized>(
        &self,
        hash: HashValue,
        key: &Q,
        found: Option<usize>,
    )
        requires
            forall|q: int|
                0 <= q < self@.len() && key.equivalent_spec(&(#[trigger] self@[q]).key)
                    ==> self@[q].hash != hash,
            self.located_key(hash, key, found),
        ensures
            found is None,
            self.refs_at(found) is None,
    {
        if let Some(p) = found {
            assert(key.equivalent_spec(&self@[p as int].key));
        }
    }

    /// The number of slots of the index table.
    pub closed spec fn capacity(&self) -> int {
        self.indices.capacity()
    }

    /// The number of slots of the index table that are in use, by a record or
    /// by the tombstone of one that was removed.
    pub closed spec fn load(&self) -> int {
        self.indices.load()
    }

    /// The number of slots of the index table.
    pub fn slot_count(&self) -> (n: usize)
        ensures
            n == self.capacity(),
    {
        self.indices.slot_count()
    }

    /// The number of slots of the index table that are in use, by a record or
    /// by the tombstone of one that was removed.
    pub fn slots_in_use(&self) -> (n: usize)
        ensures
            n == self.load(),
    {
        self.indices.slots_in_use()
    }

    /// The records are no more than the slots in use, and these no more than
    /// the slots of the index table.
    pub proof fn lemma_load_bound(&self)
        requires
            self.wf(),
        ensures
            self@.len() <= self.load() <= self.capacity(),
    {
        self.indices.lemma_load_bound();
    }

    /// What each slot of the index table holds: for a slot in use, the hash
    /// and the position of a record; for any other slot, nothing.
    pub closed spec fn index_entries(&self) -> Seq<Option<(HashValue, int)>> {
        self.indices.slot_entries()
    }

    /// What the invariant means for the index table: each position of the
    /// entry store has an entry in the table, no two entries point at one
    /// position, and every entry points at a position of the entry store and
    /// carries the hash of the record there.
    pub proof fn lemma_index_agrees(&self)
        requires
            self.wf(),
        ensures
            forall|p: int|
                #![trigger self@[p]]
                0 <= p < self@.len() ==> exists|s: int|
                    0 <= s < self.index_entries().len() && #[trigger] self.index_entries()[s]
                        == Some((self@[p].hash, p)),
            forall|s: int, t: int|
                0 <= s < self.index_entries().len() && 0 <= t < self.index_entries().len() && (
                #[trigger] self.index_entries()[s]) is Some && (#[trigger] self.index_entries()[t]) is Some
                    && self.index_entries()[s].unwrap().1 == self.index_entries()[t].unwrap().1 ==> s == t,
            forall|s: int|
                0 <= s < self.index_entries().len() && (#[trigger] self.index_entries()[s]) is Some
                    ==> {
                    let held = self.index_entries()[s].unwrap();
                    0 <= held.1 < self@.len() && self@[held.1].hash == held.0
                },
    {
        self.indices.lemma_one_entry_each();
        assert forall|p: int| #![trigger self@[p]] 0 <= p < self@.len() implies exists|s: int|
            0 <= s < self.index_entries().len() && #[trigger] self.index_entries()[s] == Some(
                (self@[p].hash, p),
            ) by {
            assert(self.indices.hashes()[p] == self.entries@[p].hash);
            let s = choose|s: int|
                0 <= s < self.indices.slot_entries().len() && #[trigger] self.indices.slot_entries()[s]
                    == Some((self.indices.hashes()[p], p));
            assert(self.index_entries()[s] == Some((self@[p].hash, p)));
        }
        assert forall|s: int|
            0 <= s < self.index_entries().len() && (#[trigger] self.index_entries()[s]) is Some implies {
            let held = self.index_entries()[s].unwrap();
            0 <= held.1 < self@.len() && self@[held.1].hash == held.0
        } by {
            let held = self.indices.slot_entries()[s].unwrap();
            assert(0 <= held.1 < self.indices.hashes().len());
            assert(self.indices.hashes()[held.1] == self.entries@[held.1].hash);
        }
    }

    /// Two positions that carry one hash differ in rank.
    pub proof fn lemma_probe_rank_distinct(&self, p: int, q: int)
        requires
            self.wf(),
            0 <= p < self@.len(),
            0 <= q < self@.len(),
            p != q,
            self@[p].hash == self@[q].hash,
        ensures
            self.probe_rank(p) != self.probe_rank(q),
    {
        self.indices.lemma_rank_distinct(p, q);
    }

    /// An empty engine.
    pub fn new() -> (engine: Self)
        ensures
            engine.wf(),
            engine@ == Seq::<Bucket<K, V>>::empty(),
            engine.capacity() == INITIAL_SLOTS,
            engine.load() == 0,
            engine.in_order(),
    {
        IndexMapCore { indices: IndexTable::new(), entries: Vec::new() }
    }

    /// The number of records.
    pub fn len(&self) -> (n: usize)
        ensures
            n == self@.len(),
    {
        self.entries.len()
    }

    /// Whether there is no record.
    pub fn is_empty(&self) -> (b: bool)
        ensures
            b == (self@.len() == 0),
    {
        self.entries.len() == 0
    }

    /// The records as a borrowed run, in storage order.
    pub fn as_entries(&self) -> (entries: &[Bucket<K, V>])
        ensures
            entries@ == self@,
    {
        self.entries.as_slice()
    }

    /// Probes the index table from the home slot of `hash`, tests the key of each
    /// candidate with `is_match`, and returns the first position accepted.
    pub fn locate<F: FnMut(&K) -> bool>(&self, hash: HashValue, is_match: F) -> (found: Option<
        usize,
    >)
        requires
            self.wf(),
            forall|i: int| 0 <= i < self@.len() ==> is_match.requires((&(#[trigger] self@[i]).key,)),
        ensures
            self.located(hash, is_match, found),
    {
        let mut test = is_match;
        let mut from: usize = 0;
        proof {
            self.indices.lemma_capacity_bound();
            assert forall|q: int| 0 <= q < self@.len() implies self.probe_rank(q) >= 0 by {
                self.indices.lemma_rank_bound(q);
            }
        }
        loop
            invariant
                self.wf(),
                test == is_match,
                self.indices.capacity() <= usize::MAX,
                forall|i: int|
                    0 <= i < self@.len() ==> is_match.requires((&(#[trigger] self@[i]).key,)),
                forall|q: int|
                    0 <= q < self@.len() ==> (#[trigger] self@[q]).hash == self.indices.hashes()[q],
                self.indices.hashes().len() == self@.len(),
                from <= self.indices.capacity(),
                forall|q: int|
                    0 <= q < self@.len() && self@[q].hash == hash && self.probe_rank(q) < from
                        ==> is_match.ensures((&(#[trigger] self@[q]).key,), false),
            decreases self.indices.capacity() - from,
        {
            match self.indices.next_candidate(hash, from) {
                None => {
                    proof {
                        assert forall|q: int|
                            0 <= q < self@.len() && self@[q].hash == hash implies is_match.ensures(
                            (&(#[trigger] self@[q]).key,),
                            false,
                        ) by {
                            assert(self.indices.hashes()[q] == hash);
                        }
                    }
                    return None;
                },
                Some((p, rank)) => {
                    if test(&self.entries[p].key) {
                        return Some(p);
                    }
                    proof {
                        assert forall|q: int|
                            0 <= q < self@.len() && self@[q].hash == hash && self.probe_rank(q)
                                < rank + 1 implies is_match.ensures(
                            (&(#[trigger] self@[q]).key,),
                            false,
                        ) by {
                            assert(self.indices.hashes()[q] == hash);
                            if q != p && self.probe_rank(q) >= from {
                                self.indices.lemma_rank_distinct(p as int, q);
                            }
                        }
                    }
                    from = rank + 1;
                },
            }
        }
    }

    /// Probes the index table from the home slot of `hash` and returns the first
    /// position whose key is equivalent to `key`.
    pub fn locate_key<Q: Equivalent<K> + ?Sized>(&self, hash: HashValue, key: &Q) -> (found: Option<
        usize,
    >)
        requires
            self.wf(),
        ensures
            self.located_key(hash, key, found),
    {
        let is_match = |k: &K| -> (b: bool)
            ensures
                b == key.equivalent_spec(k),
            { key.equivalent(k) };
        let found = self.locate(hash, is_match);
        proof {
            match found {
                Some(p) => {
                    assert forall|q: int|
                        0 <= q < self@.len() && (#[trigger] self@[q]).hash == hash
                            && key.equivalent_spec(&self@[q].key) implies self.probe_rank(p as int)
                        <= self.probe_rank(q) by {}
                },
                None => {},
            }
        }
        found
    }

    /// The hash that the record at `index` carries, as it was cached when the record came in.
    pub fn recompute_hash_of(&self, index: usize) -> (hash: HashValue)
        requires
            index < self@.len(),
        ensures
            hash == self@[index as int].hash,
    {
        self.entries[index].hash
    }

    /// Appends a record under `hash` and files its position in the index table,
    /// which grows first if its load factor would be exceeded. Returns the
    /// position of the record, which is the number of records before the call.
    pub fn append(&mut self, hash: HashValue, key: K, value: V) -> (index: usize)
        requires
            old(self).wf(),
        ensures
            old(self).appends(*final(self), Bucket { hash, key, value }),
            index == old(self)@.len(),
    {
        let index = self.entries.len();
        self.entries.push(Bucket { hash, key, value });
        proof {
            old(self).lemma_hashes_agree();
            assert(cached_hashes(self.entries@) =~= cached_hashes(old(self).entries@).push(hash));
        }
        self.indices.insert(hash, &self.entries);
        proof {
            old(self).lemma_in_order();
            self.lemma_in_order();
        }
        index
    }

    /// Removes the record at `index` and moves the last record into its place.
    pub fn swap_remove(&mut self, index: usize) -> (pair: (K, V))
        requires
            old(self).wf(),
            index < old(self)@.len(),
        ensures
            old(self).swap_removes(*final(self), index as int),
            pair.0 == old(self)@[index as int].key,
            pair.1 == old(self)@[index as int].value,
    {
        let hash = self.entries[index].hash;
        let last_hash = self.entries[self.entries.len() - 1].hash;
        self.indices.remove_swap(index, hash, last_hash);
        let removed = self.entries.swap_remove(index);
        let Bucket { hash: _, key, value } = removed;
        (key, value)
    }

    /// Removes the record at `index` and moves every later record down by one.
    pub fn shift_remove(&mut self, index: usize) -> (pair: (K, V))
        requires
            old(self).wf(),
            index < old(self)@.len(),
        ensures
            old(self).shift_removes(*final(self), index as int),
            pair.0 == old(self)@[index as int].key,
            pair.1 == old(self)@[index as int].value,
    {
        let hash = self.entries[index].hash;
        self.indices.remove_shift(index, hash);
        let removed = self.entries.remove(index);
        proof {
            old(self).lemma_in_order();
            self.lemma_in_order();
        }
        let Bucket { hash: _, key, value } = removed;
        (key, value)
    }

    /// The key and the value of the record at `index`.
    pub fn refs(&self, index: usize) -> (pair: (&K, &V))
        requires
            index < self@.len(),
        ensures
            *pair.0 == self@[index as int].key,
            *pair.1 == self@[index as int].value,
    {
        let bucket = &self.entries[index];
        (&bucket.key, &bucket.value)
    }

    /// The key and the value of the record at `index`, both open to change.
    /// The record keeps its hash and its place in the index table whatever is written.
    pub fn muts(&mut self, index: usize) -> (pair: (&mut K, &mut V))
        requires
            old(self).wf(),
            index < old(self)@.len(),
        ensures
            *pair.0 == old(self)@[index as int].key,
            *pair.1 == old(self)@[index as int].value,
            old(self).rewrites(*final(self), index as int, *final(pair.0), *final(pair.1)),
    {
        let bucket = &mut self.entries[index];
        (&mut bucket.key, &mut bucket.value)
    }
}

} // verus!
