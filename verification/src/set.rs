//! The ordered set: an ordered map whose records carry no value.

use vstd::prelude::*;
use crate::equivalent::Equivalent;
use crate::hashing::HashBuilder;
use crate::map::Bucket;
use crate::map::IndexMap;
use crate::map::raw_entry_v1::RawEntryApiV1;
use crate::map::raw_entry_v1::RawEntryMut;

pub mod slice;

verus! {

/// The values that a run of set records holds, in storage order.
pub open spec fn values_of<T>(entries: Seq<Bucket<T, ()>>) -> Seq<T> {
    Seq::new(entries.len(), |i: int| entries[i].key)
}

/// The values of a part of a run are that part of the values.
pub proof fn lemma_values_of_subrange<T>(entries: Seq<Bucket<T, ()>>, start: int, end: int)
    requires
        0 <= start <= end <= entries.len(),
    ensures
        values_of(entries.subrange(start, end)) == values_of(entries).subrange(start, end),
{
    assert(values_of(entries.subrange(start, end)) =~= values_of(entries).subrange(start, end));
}

/// A hash set that keeps its values in insertion order.
pub struct IndexSet<T, S> {
    map: IndexMap<T, (), S>,
}

impl<T, S> View for IndexSet<T, S> {
    type V = Seq<T>;

    /// The values, in storage order.
    open spec fn view(&self) -> Seq<T> {
        values_of(self.map()@)
    }
}

/// An iterator over the values of a set or of a slice of one, in storage order.
pub struct Iter<'a, T> {
    entries: &'a [Bucket<T, ()>],
}

impl<'a, T> View for Iter<'a, T> {
    type V = Seq<T>;

    /// The values that are still to come, in the order in which they come.
    open spec fn view(&self) -> Seq<T> {
        values_of(self.entries())
    }
}

impl<'a, T> Clone for Iter<'a, T> {
    /// Another iterator over the values that are still to come.
    fn clone(&self) -> (iter: Self)
        ensures
            iter == *self,
    {
        Iter { entries: self.entries }
    }
}

impl<'a, T> Iter<'a, T> {
    /// The records that are still to come.
    pub closed spec fn entries(&self) -> Seq<Bucket<T, ()>> {
        self.entries@
    }

    /// An iterator over the values of a run of records.
    pub(crate) fn new(entries: &'a [Bucket<T, ()>]) -> (iter: Self)
        ensures
            iter.entries() == entries@,
    {
        Iter { entries }
    }

    /// The records that are still to come, as a borrowed run.
    pub(crate) fn as_entries(&self) -> (entries: &'a [Bucket<T, ()>])
        ensures
            entries@ == self.entries(),
    {
        self.entries
    }

    /// The number of values that are still to come.
    pub fn len(&self) -> (n: usize)
        ensures
            n == self@.len(),
    {
        self.entries.len()
    }

    /// The next value, if one is left.
    pub fn next(&mut self) -> (value: Option<&'a T>)
        ensures
            match value {
                Some(value) => old(self)@.len() > 0 && *value == old(self)@[0] && final(self)@
                    == old(self)@.drop_first(),
                None => old(self)@.len() == 0 && final(self)@ == old(self)@,
            },
    {
        let entries = self.entries;
        if entries.len() == 0 {
            None
        } else {
            let (first, rest) = entries.split_at(1);
            proof {
                lemma_values_of_subrange(entries@, 1, entries@.len() as int);
            }
            self.entries = rest;
            Some(&first[0].key)
        }
    }
}

impl<T, S> IndexSet<T, S> {
    /// The map that holds the values as its keys.
    pub closed spec fn map(&self) -> IndexMap<T, (), S> {
        self.map
    }

    /// The invariant of the set, which is that of its map.
    pub open spec fn wf(&self) -> bool {
        self.map().wf()
    }

    /// An empty set that hashes its values with `hash_builder`.
    pub fn with_hasher(hash_builder: S) -> (set: Self)
        ensures
            set.wf(),
            set@ == Seq::<T>::empty(),
            set.map()@ == Seq::<Bucket<T, ()>>::empty(),
            set.map().hash_builder() == hash_builder,
    {
        let set = IndexSet { map: IndexMap::with_hasher(hash_builder) };
        assert(set@ =~= Seq::<T>::empty());
        set
    }

    /// The map that holds the values as its keys.
    pub fn as_map(&self) -> (map: &IndexMap<T, (), S>)
        ensures
            *map == self.map(),
    {
        &self.map
    }

    /// The number of values.
    pub fn len(&self) -> (n: usize)
        ensures
            n == self@.len(),
    {
        self.map.len()
    }

    /// Whether the set holds no value.
    pub fn is_empty(&self) -> (b: bool)
        ensures
            b == (self@.len() == 0),
    {
        self.map.is_empty()
    }

    /// The value at position `index`, if there is such a position.
    pub fn get_index(&self, index: usize) -> (value: Option<&T>)
        ensures
            match value {
                Some(value) => index < self@.len() && *value == self@[index as int],
                None => index >= self@.len(),
            },
    {
        match self.map.get_index(index) {
            Some((key, _)) => Some(key),
            None => None,
        }
    }

    /// An iterator over the values, in storage order.
    pub fn iter(&self) -> (iter: Iter<'_, T>)
        ensures
            iter@ == self@,
    {
        Iter::new(self.map.as_engine().as_entries())
    }
}

impl<T, S> IndexSet<T, S> {
    /// Whether the set holds a value that is equivalent to `value` and filed
    /// under the hash of `value`.
    pub open spec fn holds<Q: Equivalent<T> + ?Sized>(&self, value: &Q) -> bool where
        S: HashBuilder<Q>,
     {
        exists|i: int|
            0 <= i < self.map()@.len() && (#[trigger] self.map()@[i]).hash
                == self.map().hash_builder().hash_spec(value) && value.equivalent_spec(
                &self.map()@[i].key,
            )
    }

    /// Whether the set holds `value`.
    pub fn contains<Q: ?Sized>(&self, value: &Q) -> (found: bool) where
        S: HashBuilder<Q>,
        Q: Equivalent<T>,

        requires
            self.wf(),
        ensures
            found == self.holds(value),
    {
        let pair = self.map.raw_entry_v1().from_key(value);
        proof {
            let found = choose|found: Option<usize>|
                #[trigger] self.map().engine().located_key(
                    self.map().hash_builder().hash_spec(value),
                    value,
                    found,
                ) && pair == self.map().engine().refs_at(found);
            if let Some(p) = found {
                assert(self.map()@[p as int].hash == self.map().hash_builder().hash_spec(value));
            }
        }
        pair.is_some()
    }

    /// Appends `value` unless the set holds it, and returns whether it was appended.
    pub fn insert(&mut self, value: T) -> (inserted: bool) where S: HashBuilder<T>, T: Equivalent<T>
        requires
            old(self).wf(),
        ensures
            final(self).wf(),
            inserted == !old(self).holds(&value),
            final(self).map().hash_builder() == old(self).map().hash_builder(),
            final(self).map()@ == if inserted {
                old(self).map()@.push(
                    Bucket {
                        hash: old(self).map().hash_builder().hash_spec(&value),
                        key: value,
                        value: (),
                    },
                )
            } else {
                old(self).map()@
            },
            final(self)@ == if inserted {
                old(self)@.push(value)
            } else {
                old(self)@
            },
    {
        let ghost before = self.map()@;
        let ghost hash = self.map().hash_builder().hash_spec(&value);
        match self.map.raw_entry_mut_v1().from_key(&value) {
            RawEntryMut::Occupied(entry) => {
                proof {
                    assert(before[entry.index as int].hash == hash);
                }
                false
            },
            RawEntryMut::Vacant(entry) => {
                entry.insert(value, ());
                proof {
                    assert(values_of(before.push(Bucket { hash, key: value, value: () }))
                        =~= values_of(before).push(value));
                }
                true
            },
        }
    }

    /// Whether the two sets hold the same values, in whatever order: they have
    /// the same number of values, and `other` holds every value of this set.
    pub open spec fn same_values(&self, other: &Self) -> bool where
        S: HashBuilder<T>,
        T: Equivalent<T>,
     {
        &&& self@.len() == other@.len()
        &&& forall|i: int| 0 <= i < self@.len() ==> other.holds(&#[trigger] self@[i])
    }

    /// Compares the two sets without regard to the order of their values.
    pub fn eq(&self, other: &Self) -> (equal: bool) where S: HashBuilder<T>, T: Equivalent<T>
        requires
            self.wf(),
            other.wf(),
        ensures
            equal == self.same_values(other),
    {
        if self.len() != other.len() {
            return false;
        }
        let n = self.len();
        let mut i: usize = 0;
        while i < n
            invariant
                self.wf(),
                other.wf(),
                n == self@.len(),
                self@.len() == other@.len(),
                i <= n,
                forall|j: int| 0 <= j < i ==> other.holds(&#[trigger] self@[j]),
            decreases n - i,
        {
            match self.get_index(i) {
                Some(value) => {
                    if !other.contains(value) {
                        return false;
                    }
                },
                None => {},
            }
            i += 1;
        }
        true
    }

    /// Sets that hold the same records are equal, in whatever order they hold
    /// them: where every record of `other` is filed under the hash of its value
    /// and every value is equivalent to itself, the order of the records has
    /// no part in the comparison.
    pub proof fn lemma_same_values_in_any_order(&self, other: &Self) where
        S: HashBuilder<T>,
        T: Equivalent<T>,

        requires
            self.map()@.to_multiset() == other.map()@.to_multiset(),
            forall|j: int|
                0 <= j < other.map()@.len() ==> {
                    let record = #[trigger] other.map()@[j];
                    &&& record.hash == other.map().hash_builder().hash_spec(&record.key)
                    &&& record.key.equivalent_spec(&record.key)
                },
        ensures
            self.same_values(other),
    {
        let mine = self.map()@;
        let theirs = other.map()@;
        mine.to_multiset_ensures();
        theirs.to_multiset_ensures();
        assert forall|i: int| 0 <= i < self@.len() implies other.holds(&#[trigger] self@[i]) by {
            assert(mine.contains(mine[i]));
            assert(theirs.to_multiset().count(mine[i]) > 0);
            assert(theirs.contains(mine[i]));
            let j = choose|j: int| 0 <= j < theirs.len() && theirs[j] == mine[i];
            assert(theirs[j].key == self@[i]);
        }
    }
}

} // verus!
