//! The slice view: an order-sensitive window on the values of a set.
//!
//! A slice borrows a contiguous run of the entry store and offers what a
//! sequence offers: positions, ends and splits. It never looks at the index
//! table. Two slices are equal when they hold equal values in the same order,
//! where two sets are equal when they hold the same values in any order.

use vstd::prelude::*;
use vstd::std_specs::cmp::PartialEqSpec;
use vstd::std_specs::cmp::PartialEqSpecImpl;
use vstd::std_specs::cmp::PartialOrdSpec;
use vstd::std_specs::cmp::PartialOrdSpecImpl;
use core::cmp::Ordering;
use core::hash::Hash;
use core::hash::Hasher;
use core::ops::Index;
use core::ops::Range;
use crate::map::Bucket;
use crate::set::IndexSet;
use crate::set::Iter;
use crate::set::lemma_values_of_subrange;
use crate::set::values_of;
use crate::util::Bound;
use crate::util::range_of;
use crate::util::simplify_range;

verus! {

/// A borrowed run of the values of a set, in storage order.
pub struct Slice<'a, T> {
    entries: &'a [Bucket<T, ()>],
}

impl<'a, T> View for Slice<'a, T> {
    type V = Seq<T>;

    /// The values, in storage order.
    open spec fn view(&self) -> Seq<T> {
        values_of(self.entries())
    }
}

impl<'a, T> Slice<'a, T> {
    /// The records that the slice borrows.
    pub closed spec fn entries(&self) -> Seq<Bucket<T, ()>> {
        self.entries@
    }

    /// The view of a run of records as a slice. Nothing is copied.
    pub(crate) fn from_slice(entries: &'a [Bucket<T, ()>]) -> (slice: Self)
        ensures
            slice.entries() == entries@,
    {
        Slice { entries }
    }
}

impl<T, S> IndexSet<T, S> {
    /// A slice of all the values of the set.
    pub fn as_slice(&self) -> (slice: Slice<'_, T>)
        ensures
            slice@ == self@,
            slice.entries() == self.map()@,
    {
        Slice::from_slice(self.as_map().as_engine().as_entries())
    }
}

impl<'a, T> Iter<'a, T> {
    /// A slice of the values that are still to come.
    pub fn as_slice(&self) -> (slice: Slice<'a, T>)
        ensures
            slice@ == self@,
            slice.entries() == self.entries(),
    {
        Slice::from_slice(self.as_entries())
    }
}

impl<'a, T> Slice<'a, T> {
    /// The number of values in the slice.
    pub fn len(&self) -> (n: usize)
        ensures
            n == self@.len(),
    {
        self.entries.len()
    }

    /// Whether the slice holds no value.
    pub fn is_empty(&self) -> (b: bool)
        ensures
            b == (self@.len() == 0),
    {
        self.entries.len() == 0
    }

    /// The value at position `index`, if the slice has such a position.
    pub fn get_index(&self, index: usize) -> (value: Option<&'a T>)
        ensures
            value == if index < self@.len() {
                Some(&self@[index as int])
            } else {
                None
            },
    {
        let entries = self.entries;
        if index < entries.len() {
            Some(&entries[index].key)
        } else {
            None
        }
    }

    /// The first value, if the slice has one.
    pub fn first(&self) -> (value: Option<&'a T>)
        ensures
            value == if self@.len() > 0 {
                Some(&self@[0])
            } else {
                None
            },
    {
        self.get_index(0)
    }

    /// The last value, if the slice has one.
    pub fn last(&self) -> (value: Option<&'a T>)
        ensures
            value == if self@.len() > 0 {
                Some(&self@.last())
            } else {
                None
            },
    {
        let entries = self.entries;
        if entries.len() == 0 {
            None
        } else {
            Some(&entries[entries.len() - 1].key)
        }
    }

    /// The slice in two parts: the values before position `index`, and the rest.
    pub fn split_at(&self, index: usize) -> (parts: (Slice<'a, T>, Slice<'a, T>))
        requires
            index <= self@.len(),
        ensures
            parts.0@ == self@.subrange(0, index as int),
            parts.1@ == self@.subrange(index as int, self@.len() as int),
            parts.0.entries() == self.entries().subrange(0, index as int),
            parts.1.entries() == self.entries().subrange(index as int, self@.len() as int),
    {
        let entries = self.entries;
        let (first, second) = entries.split_at(index);
        proof {
            lemma_values_of_subrange(entries@, 0, index as int);
            lemma_values_of_subrange(entries@, index as int, entries@.len() as int);
        }
        (Slice::from_slice(first), Slice::from_slice(second))
    }

    /// The first value and the rest of the slice, if the slice has a value.
    pub fn split_first(&self) -> (parts: Option<(&'a T, Slice<'a, T>)>)
        ensures
            match parts {
                Some((first, rest)) => self@.len() > 0 && *first == self@[0] && rest@
                    == self@.drop_first() && rest.entries() == self.entries().drop_first(),
                None => self@.len() == 0,
            },
    {
        let entries = self.entries;
        if entries.len() == 0 {
            None
        } else {
            let (first, rest) = entries.split_at(1);
            proof {
                lemma_values_of_subrange(entries@, 1, entries@.len() as int);
            }
            Some((&first[0].key, Slice::from_slice(rest)))
        }
    }

    /// The last value and the rest of the slice, if the slice has a value.
    pub fn split_last(&self) -> (parts: Option<(&'a T, Slice<'a, T>)>)
        ensures
            match parts {
                Some((last, rest)) => self@.len() > 0 && *last == self@.last() && rest@
                    == self@.drop_last() && rest.entries() == self.entries().drop_last(),
                None => self@.len() == 0,
            },
    {
        let entries = self.entries;
        let n = entries.len();
        if n == 0 {
            None
        } else {
            let (rest, last) = entries.split_at(n - 1);
            proof {
                lemma_values_of_subrange(entries@, 0, n - 1);
            }
            Some((&last[0].key, Slice::from_slice(rest)))
        }
    }

    /// An iterator over the values of the slice, in storage order.
    pub fn iter(&self) -> (iter: Iter<'a, T>)
        ensures
            iter@ == self@,
            iter.entries() == self.entries(),
    {
        Iter::new(self.entries)
    }
}

impl<'a, T> Slice<'a, T> {
    /// The part of the slice from position `range.start` up to, not including,
    /// position `range.end`.
    pub fn index_range(&self, range: Range<usize>) -> (part: Slice<'a, T>)
        requires
            range.start <= range.end <= self@.len(),
        ensures
            part@ == self@.subrange(range.start as int, range.end as int),
            part.entries() == self.entries().subrange(range.start as int, range.end as int),
    {
        let entries = self.entries;
        proof {
            lemma_values_of_subrange(entries@, range.start as int, range.end as int);
        }
        Slice::from_slice(&entries[range])
    }
}

impl<'a, T> Slice<'a, T> {
    /// The part of the slice between two bounds, which must select a range of it.
    pub fn index_bounds(&self, range: (Bound, Bound)) -> (part: Slice<'a, T>)
        requires
            range_of(range, self@.len() as int) is Some,
        ensures
            part@ == self@.subrange(
                range_of(range, self@.len() as int).unwrap().0,
                range_of(range, self@.len() as int).unwrap().1,
            ),
            part.entries() == self.entries().subrange(
                range_of(range, self@.len() as int).unwrap().0,
                range_of(range, self@.len() as int).unwrap().1,
            ),
    {
        let simple = simplify_range(range, self.entries.len());
        self.index_range(simple)
    }
}

impl<T, S> IndexSet<T, S> {
    /// The values of the set between two bounds, which must select a range of them.
    pub fn index_bounds(&self, range: (Bound, Bound)) -> (part: Slice<'_, T>)
        requires
            range_of(range, self@.len() as int) is Some,
        ensures
            part@ == self@.subrange(
                range_of(range, self@.len() as int).unwrap().0,
                range_of(range, self@.len() as int).unwrap().1,
            ),
    {
        self.as_slice().index_bounds(range)
    }

    /// The values of the set from position `range.start` up to, not including,
    /// position `range.end`.
    pub fn index_range(&self, range: Range<usize>) -> (part: Slice<'_, T>)
        requires
            range.start <= range.end <= self@.len(),
        ensures
            part@ == self@.subrange(range.start as int, range.end as int),
    {
        self.as_slice().index_range(range)
    }
}

impl<'a, T> Clone for Slice<'a, T> {
    /// Another view of the same run of values.
    fn clone(&self) -> (slice: Self)
        ensures
            slice == *self,
    {
        Slice { entries: self.entries }
    }
}

impl<'a, T> Copy for Slice<'a, T> {

}

impl<'a, T> Default for Slice<'a, T> {
    /// The empty slice.
    fn default() -> (slice: Self)
        ensures
            slice@ == Seq::<T>::empty(),
    {
        let slice = Slice { entries: &[] };
        assert(slice@ =~= Seq::<T>::empty());
        slice
    }
}

impl<'a, T> Index<usize> for Slice<'a, T> {
    type Output = T;

    /// The value at position `index`, which the slice must have.
    fn index(&self, index: usize) -> (value: &T)
        ensures
            *value == self@[index as int],
    {
        &self.entries[index].key
    }
}

impl<'a, T> vstd::std_specs::core::IndexSpecImpl<usize> for Slice<'a, T> {
    open spec fn index_req(&self, index: &usize) -> bool {
        *index < self@.len()
    }
}

impl<'a, T: PartialEq> PartialEq for Slice<'a, T> {
    /// Whether the two slices hold equal values in the same order.
    fn eq(&self, other: &Self) -> (equal: bool) {
        let mine = self.entries;
        let theirs = other.entries;
        if mine.len() != theirs.len() {
            return false;
        }
        let mut i: usize = 0;
        while i < mine.len()
            invariant
                mine@ == self.entries(),
                theirs@ == other.entries(),
                mine@.len() == theirs@.len(),
                i <= mine@.len(),
                T::obeys_eq_spec() ==> forall|j: int|
                    0 <= j < i ==> (#[trigger] self@[j]).eq_spec(&other@[j]),
            decreases mine@.len() - i,
        {
            if mine[i].key != theirs[i].key {
                proof {
                    if T::obeys_eq_spec() {
                        assert(!self@[i as int].eq_spec(&other@[i as int]));
                    }
                }
                return false;
            }
            proof {
                if T::obeys_eq_spec() {
                    assert(self@[i as int].eq_spec(&other@[i as int]));
                }
            }
            i += 1;
        }
        true
    }
}

impl<'a, T: PartialEq> PartialEqSpecImpl for Slice<'a, T> {
    open spec fn obeys_eq_spec() -> bool {
        T::obeys_eq_spec()
    }

    open spec fn eq_spec(&self, other: &Self) -> bool {
        &&& self@.len() == other@.len()
        &&& forall|i: int| 0 <= i < self@.len() ==> (#[trigger] self@[i]).eq_spec(&other@[i])
    }
}

/// Slices that differ at one position are unequal, whatever values they hold
/// elsewhere: the order of the values has its part in the comparison.
pub proof fn lemma_slices_mind_the_order<'a, T: PartialEq>(a: Slice<'a, T>, b: Slice<'a, T>, i: int)
    requires
        0 <= i < a@.len(),
        i < b@.len(),
        !a@[i].eq_spec(&b@[i]),
    ensures
        !PartialEqSpec::eq_spec(&a, &b),
{
}

impl<'a, T: Eq> Eq for Slice<'a, T> {

}

/// The order of two sequences by their first difference: element by element,
/// the first pair that does not compare equal decides; where one sequence
/// ends first, the shorter is the lesser.
pub open spec fn lexicographic<T: PartialOrd>(a: Seq<T>, b: Seq<T>) -> Option<Ordering>
    decreases a.len(),
{
    if a.len() == 0 {
        if b.len() == 0 {
            Some(Ordering::Equal)
        } else {
            Some(Ordering::Less)
        }
    } else if b.len() == 0 {
        Some(Ordering::Greater)
    } else {
        match a[0].partial_cmp_spec(&b[0]) {
            Some(Ordering::Equal) => lexicographic(a.drop_first(), b.drop_first()),
            decided => decided,
        }
    }
}

impl<'a, T: PartialOrd> PartialOrd for Slice<'a, T> {
    /// Compares the two slices by their first difference, in storage order.
    fn partial_cmp(&self, other: &Self) -> (order: Option<Ordering>) {
        let mine = self.entries;
        let theirs = other.entries;
        let mut i: usize = 0;
        let ghost mut at: int = 0;
        proof {
            assert(self@.skip(0) =~= self@);
            assert(other@.skip(0) =~= other@);
        }
        while i < mine.len() && i < theirs.len()
            invariant
                mine@ == self.entries(),
                theirs@ == other.entries(),
                at == i,
                i <= mine@.len(),
                i <= theirs@.len(),
                T::obeys_partial_cmp_spec() ==> lexicographic(self@, other@) == lexicographic(
                    self@.skip(at),
                    other@.skip(at),
                ),
            decreases mine@.len() - i,
        {
            let decided = mine[i].key.partial_cmp(&theirs[i].key);
            proof {
                assert(self@.skip(at)[0] == self@[at]);
                assert(other@.skip(at)[0] == other@[at]);
                assert(self@.skip(at).drop_first() =~= self@.skip(at + 1));
                assert(other@.skip(at).drop_first() =~= other@.skip(at + 1));
            }
            match decided {
                Some(Ordering::Equal) => {},
                _ => {
                    return decided;
                },
            }
            i += 1;
            proof {
                at = at + 1;
            }
        }
        proof {
            assert(self@.skip(at).len() == self@.len() - at);
            assert(other@.skip(at).len() == other@.len() - at);
        }
        if mine.len() < theirs.len() {
            Some(Ordering::Less)
        } else if mine.len() > theirs.len() {
            Some(Ordering::Greater)
        } else {
            Some(Ordering::Equal)
        }
    }
}

impl<'a, T: PartialOrd> PartialOrdSpecImpl for Slice<'a, T> {
    open spec fn obeys_partial_cmp_spec() -> bool {
        T::obeys_partial_cmp_spec()
    }

    open spec fn partial_cmp_spec(&self, other: &Self) -> Option<Ordering> {
        lexicographic(self@, other@)
    }
}

/// Calls `Hash::hash` of std on `value` with `state`. What the hasher holds
/// afterwards is up to the two types, and nothing is claimed of it.
#[verifier::external_body]
fn feed<T: Hash, H: Hasher>(value: &T, state: &mut H) {
    value.hash(state)
}

impl<'a, T: Hash> Hash for Slice<'a, T> {
    /// Feeds the length of the slice, then each value in storage order.
    fn hash<H: Hasher>(&self, state: &mut H) {
        let entries = self.entries;
        let n = entries.len();
        feed(&n, state);
        let mut i: usize = 0;
        while i < n
            invariant
                n == entries@.len(),
                i <= n,
            decreases n - i,
        {
            feed(&entries[i].key, state);
            i += 1;
        }
    }
}

} // verus!
