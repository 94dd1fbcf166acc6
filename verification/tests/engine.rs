use indexmap::map::engine::IndexMapCore;
use indexmap::map::Bucket;

fn keys(engine: &IndexMapCore<u32, char>) -> Vec<u32> {
    engine.as_entries().iter().map(|b: &Bucket<u32, char>| b.key).collect()
}

fn engine_of(records: &[(u64, u32, char)]) -> IndexMapCore<u32, char> {
    let mut engine = IndexMapCore::new();
    for (hash, key, value) in records {
        engine.append(*hash, *key, *value);
    }
    engine
}

#[test]
fn a_new_engine_is_empty() {
    let engine: IndexMapCore<u32, char> = IndexMapCore::new();
    assert_eq!(engine.len(), 0);
    assert!(engine.is_empty());
    assert!(engine.as_entries().is_empty());
    assert_eq!(engine.locate(0, |_| true), None);
}

#[test]
fn append_returns_the_length_before() {
    let mut engine: IndexMapCore<u32, char> = IndexMapCore::new();
    assert_eq!(engine.append(5, 50, 'a'), 0);
    assert_eq!(engine.append(5, 51, 'b'), 1);
    assert_eq!(engine.append(6, 60, 'c'), 2);
    assert_eq!(engine.len(), 3);
    assert!(!engine.is_empty());
    assert_eq!(engine.refs(1), (&51, &'b'));
    assert_eq!(engine.recompute_hash_of(0), 5);
    assert_eq!(engine.recompute_hash_of(2), 6);
    let entries = engine.as_entries();
    assert_eq!((entries[2].hash, entries[2].key, entries[2].value), (6, 60, 'c'));
}

#[test]
fn locate_tests_the_keys_under_the_hash() {
    let engine = engine_of(&[(5, 50, 'a'), (5, 51, 'b'), (6, 60, 'c'), (13, 130, 'd')]);
    assert_eq!(engine.locate(5, |k| *k == 51), Some(1));
    assert_eq!(engine.locate(5, |k| *k == 50), Some(0));
    assert_eq!(engine.locate(5, |k| *k == 60), None);
    assert_eq!(engine.locate(6, |_| true), Some(2));
    assert_eq!(engine.locate(13, |_| true), Some(3));
    assert_eq!(engine.locate(7, |_| true), None);
    assert_eq!(engine.locate(5, |_| false), None);
    assert_eq!(engine.locate_key(5, &51u32), Some(1));
    assert_eq!(engine.locate_key(6, &51u32), None);
}

#[test]
fn locate_returns_the_first_match_in_probing_order() {
    let engine = engine_of(&[(5, 50, 'a'), (5, 51, 'b'), (5, 52, 'c')]);
    assert_eq!(engine.locate(5, |_| true), Some(0));
    assert_eq!(engine.locate(5, |k| *k > 50), Some(1));
    let mut seen = Vec::new();
    assert_eq!(
        engine.locate(5, |k| {
            seen.push(*k);
            false
        }),
        None
    );
    assert_eq!(seen, vec![50, 51, 52]);
}

#[test]
fn swap_remove_fills_the_gap_with_the_last_record() {
    let mut engine = engine_of(&[(1, 10, 'a'), (2, 20, 'b'), (3, 30, 'c'), (4, 40, 'd')]);
    assert_eq!(engine.swap_remove(1), (20, 'b'));
    assert_eq!(keys(&engine), vec![10, 40, 30]);
    assert_eq!(engine.locate(4, |_| true), Some(1));
    assert_eq!(engine.locate(2, |_| true), None);
    assert_eq!(engine.locate(3, |_| true), Some(2));
    assert_eq!(engine.swap_remove(2), (30, 'c'));
    assert_eq!(keys(&engine), vec![10, 40]);
    assert_eq!(engine.swap_remove(0), (10, 'a'));
    assert_eq!(engine.swap_remove(0), (40, 'd'));
    assert!(engine.is_empty());
    assert_eq!(engine.locate(4, |_| true), None);
}

#[test]
fn shift_remove_moves_the_later_records_down() {
    let mut engine = engine_of(&[(1, 10, 'a'), (2, 20, 'b'), (3, 30, 'c'), (4, 40, 'd')]);
    assert_eq!(engine.shift_remove(1), (20, 'b'));
    assert_eq!(keys(&engine), vec![10, 30, 40]);
    assert_eq!(engine.locate(1, |_| true), Some(0));
    assert_eq!(engine.locate(3, |_| true), Some(1));
    assert_eq!(engine.locate(4, |_| true), Some(2));
    assert_eq!(engine.locate(2, |_| true), None);
    assert_eq!(engine.shift_remove(0), (10, 'a'));
    assert_eq!(engine.shift_remove(1), (40, 'd'));
    assert_eq!(keys(&engine), vec![30]);
    assert_eq!(engine.locate(3, |_| true), Some(0));
}

#[test]
fn muts_changes_the_record_and_not_its_hash() {
    let mut engine = engine_of(&[(1, 10, 'a'), (2, 20, 'b')]);
    {
        let (key, value) = engine.muts(1);
        *key = 21;
        *value = 'B';
    }
    assert_eq!(engine.refs(1), (&21, &'B'));
    assert_eq!(engine.recompute_hash_of(1), 2);
    assert_eq!(engine.locate(2, |k| *k == 21), Some(1));
    assert_eq!(engine.len(), 2);
}

#[test]
fn hashes_that_share_a_home_slot_do_not_mix() {
    let mut engine: IndexMapCore<u32, char> = IndexMapCore::new();
    for i in 0..6u32 {
        engine.append(8 * i as u64, i, 'x');
    }
    for i in 0..6u32 {
        assert_eq!(engine.locate(8 * i as u64, |_| true), Some(i as usize));
    }
    assert_eq!(engine.swap_remove(2), (2, 'x'));
    assert_eq!(engine.locate(16, |_| true), None);
    assert_eq!(engine.locate(40, |_| true), Some(2));
    assert_eq!(engine.locate(32, |_| true), Some(4));
    assert_eq!(engine.append(16, 2, 'y'), 5);
    assert_eq!(engine.locate(16, |_| true), Some(5));
}

#[test]
fn the_table_grows_with_the_store() {
    let mut engine: IndexMapCore<u32, char> = IndexMapCore::new();
    for i in 0..300u32 {
        assert_eq!(engine.append((i as u64) * 0x9E37_79B9_7F4A_7C15, i, 'x'), i as usize);
    }
    for i in 0..300u32 {
        assert_eq!(
            engine.locate((i as u64) * 0x9E37_79B9_7F4A_7C15, |k| *k == i),
            Some(i as usize)
        );
    }
    for i in (0..300usize).rev() {
        assert_eq!(engine.shift_remove(i).0, i as u32);
    }
    assert!(engine.is_empty());
    for i in 0..300u32 {
        engine.append(i as u64, i, 'y');
    }
    assert_eq!(engine.len(), 300);
    assert_eq!(engine.locate(299, |_| true), Some(299));
}

#[test]
fn a_new_table_has_eight_slots() {
    let engine: IndexMapCore<u32, char> = IndexMapCore::new();
    assert_eq!(engine.slot_count(), 8);
    assert_eq!(engine.slots_in_use(), 0);
}

#[test]
fn the_table_doubles_when_an_insertion_would_pass_seven_eighths() {
    let mut engine: IndexMapCore<u32, char> = IndexMapCore::new();
    for i in 0..7u32 {
        engine.append(i as u64, i, 'x');
        assert_eq!(engine.slot_count(), 8);
        assert_eq!(engine.slots_in_use(), i as usize + 1);
    }
    engine.append(7, 7, 'x');
    assert_eq!(engine.slot_count(), 16);
    assert_eq!(engine.slots_in_use(), 8);
    for i in 8..14u32 {
        engine.append(i as u64, i, 'x');
        assert_eq!(engine.slot_count(), 16);
    }
    assert_eq!(engine.slots_in_use(), 14);
    engine.append(14, 14, 'x');
    assert_eq!(engine.slot_count(), 32);
    assert_eq!(engine.slots_in_use(), 15);
    for i in 0..15u32 {
        assert_eq!(engine.locate(i as u64, |_| true), Some(i as usize));
    }
}

#[test]
fn a_removal_leaves_a_tombstone_in_its_slot() {
    let mut engine = engine_of(&[(1, 10, 'a'), (2, 20, 'b'), (3, 30, 'c')]);
    assert_eq!(engine.slots_in_use(), 3);
    engine.swap_remove(0);
    assert_eq!(engine.slots_in_use(), 3);
    engine.shift_remove(0);
    assert_eq!(engine.slots_in_use(), 3);
    assert_eq!(engine.slot_count(), 8);
    assert_eq!(engine.len(), 1);
}

#[test]
fn a_table_full_of_tombstones_is_rebuilt_with_as_many_slots() {
    let mut engine: IndexMapCore<u32, char> = IndexMapCore::new();
    for i in 0..7u32 {
        engine.append(i as u64, i, 'x');
    }
    for _ in 0..4 {
        engine.swap_remove(0);
    }
    assert_eq!((engine.len(), engine.slot_count(), engine.slots_in_use()), (3, 8, 7));
    engine.append(100, 100, 'y');
    assert_eq!((engine.len(), engine.slot_count(), engine.slots_in_use()), (4, 8, 4));
    assert_eq!(engine.locate(100, |_| true), Some(3));
}

#[test]
fn a_table_half_full_of_records_is_rebuilt_with_twice_the_slots() {
    let mut engine: IndexMapCore<u32, char> = IndexMapCore::new();
    for i in 0..7u32 {
        engine.append(i as u64, i, 'x');
    }
    for _ in 0..3 {
        engine.shift_remove(1);
    }
    assert_eq!((engine.len(), engine.slot_count(), engine.slots_in_use()), (4, 8, 7));
    engine.append(100, 100, 'y');
    assert_eq!((engine.len(), engine.slot_count(), engine.slots_in_use()), (5, 16, 5));
}

#[test]
fn a_tombstone_is_used_again_before_an_empty_slot() {
    let mut engine = engine_of(&[(1, 10, 'a'), (9, 90, 'b')]);
    assert_eq!(engine.slots_in_use(), 2);
    engine.swap_remove(0);
    assert_eq!(engine.slots_in_use(), 2);
    assert_eq!(engine.locate(9, |_| true), Some(0));
    engine.append(1, 11, 'c');
    assert_eq!(engine.slots_in_use(), 2);
    engine.append(17, 12, 'd');
    assert_eq!(engine.slots_in_use(), 3);
    assert_eq!(engine.locate(1, |_| true), Some(1));
    assert_eq!(engine.locate(17, |_| true), Some(2));
}
