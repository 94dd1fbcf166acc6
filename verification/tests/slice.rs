use indexmap::hashing::FixedState;
use indexmap::set::slice::Slice;
use indexmap::set::IndexSet;
use indexmap::util::simplify_range;
use indexmap::util::try_simplify_range;
use indexmap::util::Bound;
use std::cmp::Ordering;
use std::collections::hash_map::DefaultHasher;
use std::hash::Hash;
use std::hash::Hasher;

type Numbers = IndexSet<u64, FixedState>;

fn set_of(values: &[u64]) -> Numbers {
    let mut set = IndexSet::with_hasher(FixedState);
    for v in values {
        set.insert(*v);
    }
    set
}

fn values(slice: &Slice<'_, u64>) -> Vec<u64> {
    let mut out = Vec::new();
    let mut iter = slice.iter();
    while let Some(v) = iter.next() {
        out.push(*v);
    }
    out
}

fn hash_of<T: Hash + ?Sized>(value: &T) -> u64 {
    let mut state = DefaultHasher::new();
    value.hash(&mut state);
    state.finish()
}

#[test]
fn slices_mind_the_order_and_sets_do_not() {
    let forward = set_of(&[1, 2]);
    let backward = set_of(&[2, 1]);
    assert!(forward.as_slice() != backward.as_slice());
    assert!(!(forward.as_slice() == backward.as_slice()));
    assert!(forward.eq(&backward));
    assert!(backward.eq(&forward));
    assert!(forward.as_slice() == set_of(&[1, 2]).as_slice());
}

#[test]
fn sets_of_other_values_or_sizes_differ() {
    assert!(!set_of(&[1, 2]).eq(&set_of(&[1, 3])));
    assert!(!set_of(&[1, 2]).eq(&set_of(&[1, 2, 3])));
    assert!(!set_of(&[1, 2, 3]).eq(&set_of(&[1, 2])));
    assert!(set_of(&[]).eq(&set_of(&[])));
    assert!(set_of(&[3, 1, 2]).eq(&set_of(&[2, 3, 1])));
}

#[test]
fn slices_of_other_lengths_differ() {
    let long = set_of(&[1, 2, 3]);
    let short = set_of(&[1, 2]);
    assert!(long.as_slice() != short.as_slice());
    assert!(long.as_slice().split_at(2).0 == short.as_slice());
}

#[test]
fn a_set_takes_a_value_once() {
    let mut set = set_of(&[5, 6]);
    assert!(!set.insert(5));
    assert!(set.insert(7));
    assert_eq!(set.len(), 3);
    assert_eq!(values(&set.as_slice()), vec![5, 6, 7]);
    assert!(set.contains(&6));
    assert!(!set.contains(&8));
    assert_eq!(set.get_index(2), Some(&7));
    assert_eq!(set.get_index(3), None);
    assert!(!set.is_empty());
}

#[test]
fn length_and_emptiness() {
    let set = set_of(&[10, 20, 30]);
    let slice = set.as_slice();
    assert_eq!(slice.len(), 3);
    assert!(!slice.is_empty());
    let none = set_of(&[]);
    assert_eq!(none.as_slice().len(), 0);
    assert!(none.as_slice().is_empty());
    let empty: Slice<'_, u64> = Slice::default();
    assert_eq!(empty.len(), 0);
    assert!(empty.is_empty());
    assert!(empty == none.as_slice());
}

#[test]
fn positions_and_ends() {
    let set = set_of(&[10, 20, 30]);
    let slice = set.as_slice();
    assert_eq!(slice.get_index(0), Some(&10));
    assert_eq!(slice.get_index(2), Some(&30));
    assert_eq!(slice.get_index(3), None);
    assert_eq!(slice.first(), Some(&10));
    assert_eq!(slice.last(), Some(&30));
    assert_eq!(slice[1], 20);
    let none = set_of(&[]);
    assert_eq!(none.as_slice().first(), None);
    assert_eq!(none.as_slice().last(), None);
    assert_eq!(none.as_slice().get_index(0), None);
}

#[test]
fn split_at_every_position() {
    let set = set_of(&[10, 20, 30]);
    let slice = set.as_slice();
    let (left, right) = slice.split_at(0);
    assert_eq!((values(&left), values(&right)), (vec![], vec![10, 20, 30]));
    let (left, right) = slice.split_at(1);
    assert_eq!((values(&left), values(&right)), (vec![10], vec![20, 30]));
    let (left, right) = slice.split_at(3);
    assert_eq!((values(&left), values(&right)), (vec![10, 20, 30], vec![]));
}

#[test]
fn split_first_and_split_last() {
    let set = set_of(&[10, 20, 30]);
    let slice = set.as_slice();
    match slice.split_first() {
        Some((first, rest)) => {
            assert_eq!(*first, 10);
            assert_eq!(values(&rest), vec![20, 30]);
        }
        None => unreachable!(),
    }
    match slice.split_last() {
        Some((last, rest)) => {
            assert_eq!(*last, 30);
            assert_eq!(values(&rest), vec![10, 20]);
        }
        None => unreachable!(),
    }
    let none = set_of(&[]);
    assert!(none.as_slice().split_first().is_none());
    assert!(none.as_slice().split_last().is_none());
    let one = set_of(&[9]);
    match one.as_slice().split_first() {
        Some((first, rest)) => {
            assert_eq!(*first, 9);
            assert!(rest.is_empty());
        }
        None => unreachable!(),
    }
}

#[test]
fn ranges_of_a_slice_and_of_a_set() {
    let set = set_of(&[10, 20, 30, 40]);
    let slice = set.as_slice();
    assert_eq!(values(&slice.index_range(1..3)), vec![20, 30]);
    assert_eq!(values(&slice.index_range(0..4)), vec![10, 20, 30, 40]);
    assert_eq!(values(&slice.index_range(2..2)), vec![]);
    assert_eq!(values(&set.index_range(2..4)), vec![30, 40]);
    assert_eq!(values(&slice.index_range(1..4).index_range(1..2)), vec![30]);
}

#[test]
fn an_iterator_walks_in_storage_order() {
    let set = set_of(&[3, 1, 2]);
    let mut iter = set.iter();
    assert_eq!(iter.len(), 3);
    assert_eq!(values(&iter.as_slice()), vec![3, 1, 2]);
    assert_eq!(iter.next(), Some(&3));
    assert_eq!(values(&iter.as_slice()), vec![1, 2]);
    assert_eq!(iter.next(), Some(&1));
    assert_eq!(iter.next(), Some(&2));
    assert_eq!(iter.len(), 0);
    assert!(iter.as_slice().is_empty());
    assert_eq!(iter.next(), None);
    assert_eq!(iter.next(), None);
}

#[test]
fn slices_order_by_their_first_difference() {
    let a = set_of(&[1, 2, 3]);
    let b = set_of(&[1, 3]);
    let c = set_of(&[1, 2]);
    assert_eq!(a.as_slice().partial_cmp(&b.as_slice()), Some(Ordering::Less));
    assert_eq!(b.as_slice().partial_cmp(&a.as_slice()), Some(Ordering::Greater));
    assert_eq!(c.as_slice().partial_cmp(&a.as_slice()), Some(Ordering::Less));
    assert_eq!(a.as_slice().partial_cmp(&c.as_slice()), Some(Ordering::Greater));
    assert_eq!(a.as_slice().partial_cmp(&a.as_slice()), Some(Ordering::Equal));
    assert!(a.as_slice() < b.as_slice());
    assert!(c.as_slice() <= a.as_slice());
    assert!(set_of(&[2, 1]).as_slice() > set_of(&[1, 2]).as_slice());
    let none = set_of(&[]);
    assert_eq!(none.as_slice().partial_cmp(&none.as_slice()), Some(Ordering::Equal));
    assert_eq!(none.as_slice().partial_cmp(&c.as_slice()), Some(Ordering::Less));
}

#[test]
fn a_slice_hashes_its_length_and_then_its_values() {
    let set = set_of(&[7, 8]);
    let mut expected = DefaultHasher::new();
    2usize.hash(&mut expected);
    7u64.hash(&mut expected);
    8u64.hash(&mut expected);
    assert_eq!(hash_of(&set.as_slice()), expected.finish());
    assert_eq!(hash_of(&set.as_slice()), hash_of(&[7u64, 8u64][..]));
    assert_ne!(hash_of(&set.as_slice()), hash_of(&set_of(&[8, 7]).as_slice()));
    let mut empty = DefaultHasher::new();
    0usize.hash(&mut empty);
    assert_eq!(hash_of(&set_of(&[]).as_slice()), empty.finish());
}

#[test]
fn ranges_by_their_bounds() {
    let set = set_of(&[10, 20, 30, 40]);
    let slice = set.as_slice();
    assert_eq!(values(&slice.index_bounds((Bound::Unbounded, Bound::Unbounded))), vec![10, 20, 30, 40]);
    assert_eq!(values(&slice.index_bounds((Bound::Included(1), Bound::Excluded(3)))), vec![20, 30]);
    assert_eq!(values(&slice.index_bounds((Bound::Included(1), Bound::Included(3)))), vec![20, 30, 40]);
    assert_eq!(values(&slice.index_bounds((Bound::Excluded(1), Bound::Unbounded))), vec![30, 40]);
    assert_eq!(values(&slice.index_bounds((Bound::Unbounded, Bound::Included(0)))), vec![10]);
    assert_eq!(values(&slice.index_bounds((Bound::Included(4), Bound::Unbounded))), vec![]);
    assert_eq!(values(&set.index_bounds((Bound::Excluded(0), Bound::Excluded(2)))), vec![20]);
}

#[test]
fn bounds_that_select_a_range() {
    assert_eq!(try_simplify_range((Bound::Unbounded, Bound::Unbounded), 5), Some(0..5));
    assert_eq!(try_simplify_range((Bound::Included(2), Bound::Excluded(4)), 5), Some(2..4));
    assert_eq!(try_simplify_range((Bound::Excluded(2), Bound::Included(4)), 5), Some(3..5));
    assert_eq!(try_simplify_range((Bound::Included(5), Bound::Excluded(5)), 5), Some(5..5));
    assert_eq!(try_simplify_range((Bound::Excluded(4), Bound::Unbounded), 5), Some(5..5));
    assert_eq!(try_simplify_range((Bound::Unbounded, Bound::Unbounded), 0), Some(0..0));
    assert_eq!(simplify_range((Bound::Included(1), Bound::Included(1)), 2), 1..2);
}

#[test]
fn bounds_that_select_no_range() {
    assert_eq!(try_simplify_range((Bound::Included(6), Bound::Unbounded), 5), None);
    assert_eq!(try_simplify_range((Bound::Excluded(5), Bound::Unbounded), 5), None);
    assert_eq!(try_simplify_range((Bound::Unbounded, Bound::Excluded(6)), 5), None);
    assert_eq!(try_simplify_range((Bound::Unbounded, Bound::Included(5)), 5), None);
    assert_eq!(try_simplify_range((Bound::Included(3), Bound::Excluded(2)), 5), None);
    assert_eq!(try_simplify_range((Bound::Excluded(usize::MAX), Bound::Unbounded), 5), None);
    assert_eq!(try_simplify_range((Bound::Unbounded, Bound::Included(usize::MAX)), 5), None);
}

#[test]
fn a_copy_of_a_slice_views_the_same_values() {
    let set = set_of(&[4, 5, 6]);
    let slice = set.as_slice();
    let copy = slice;
    let clone = slice.clone();
    assert!(copy == slice);
    assert_eq!(values(&clone), vec![4, 5, 6]);
    let mut iter = slice.iter();
    iter.next();
    let mut rest = iter.clone();
    assert_eq!(rest.next(), Some(&5));
    assert_eq!(iter.next(), Some(&5));
    assert_eq!(iter.next(), Some(&6));
    assert_eq!(rest.next(), Some(&6));
}
