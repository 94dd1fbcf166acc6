use indexmap::equivalent::same_bytes;
use indexmap::equivalent::same_text;
use indexmap::equivalent::Equivalent;
use indexmap::hashing::hash_bytes;
use indexmap::hashing::FixedState;
use indexmap::hashing::HashBuilder;
use std::collections::hash_map::DefaultHasher;
use std::hash::Hasher;

#[test]
fn equal_numbers_are_equivalent() {
    assert!(5u64.equivalent(&5u64));
    assert!(!5u64.equivalent(&6u64));
    assert!(7u32.equivalent(&7u32));
    assert!(!7u32.equivalent(&0u32));
}

#[test]
fn strings_are_equivalent_by_their_text() {
    let owned = String::from("key");
    assert!("key".equivalent(&owned));
    assert!(owned.equivalent(&String::from("key")));
    assert!("key".equivalent(&"key"));
    assert!(<str as Equivalent<str>>::equivalent("key", "key"));
    assert!(!"key".equivalent(&String::from("kez")));
    assert!(!"key".equivalent(&"ke"));
    assert!(!"".equivalent(&"k"));
    assert!("".equivalent(&""));
}

#[test]
fn same_bytes_compares_length_and_content() {
    assert!(same_bytes(b"abc", b"abc"));
    assert!(!same_bytes(b"abc", b"abd"));
    assert!(!same_bytes(b"abc", b"ab"));
    assert!(same_bytes(b"", b""));
    assert!(same_text("né", "né"));
    assert!(!same_text("ne", "né"));
}

#[test]
fn a_hash_is_one_write_to_a_fresh_hasher() {
    let mut expected = DefaultHasher::new();
    expected.write(b"abc");
    assert_eq!(hash_bytes(b"abc"), expected.finish());
    assert_eq!(FixedState.hash_one("abc"), expected.finish());
    assert_eq!(FixedState.hash_one(&"abc"), expected.finish());
    assert_eq!(FixedState.hash_one(&String::from("abc")), expected.finish());
}

#[test]
fn numbers_hash_by_their_little_endian_bytes() {
    let mut expected = DefaultHasher::new();
    expected.write(&[0x04, 0x03, 0x02, 0x01]);
    assert_eq!(FixedState.hash_one(&0x0102_0304u32), expected.finish());
    let mut expected = DefaultHasher::new();
    expected.write(&[0x08, 0x07, 0x06, 0x05, 0x04, 0x03, 0x02, 0x01]);
    assert_eq!(FixedState.hash_one(&0x0102_0304_0506_0708u64), expected.finish());
}

#[test]
fn equivalent_keys_hash_alike() {
    assert_eq!(FixedState.hash_one("same"), FixedState.hash_one(&String::from("same")));
    assert_eq!(FixedState.hash_one(&9u64), FixedState.hash_one(&9u64));
    assert_ne!(FixedState.hash_one(&9u64), FixedState.hash_one(&10u64));
}
