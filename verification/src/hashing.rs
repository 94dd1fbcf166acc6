//! The hashing capability: producing the hash under which a key is filed.

use vstd::prelude::*;
use vstd::utf8::encode_utf8;
use vstd::bytes::spec_u32_to_le_bytes;
use vstd::bytes::spec_u64_to_le_bytes;
use vstd::bytes::u32_to_le_bytes;
use vstd::bytes::u64_to_le_bytes;
use vstd::std_specs::hash::DefaultHasherAdditionalSpecFns;
use std::collections::hash_map::DefaultHasher;
use core::hash::Hasher;
use crate::map::HashValue;

verus! {

/// A source of hashes for keys of type `Q`. The hash of a key is a function of
/// the builder and the key alone, for as long as the builder lives.
pub trait HashBuilder<Q: ?Sized> {
    /// The hash of `key`.
    spec fn hash_spec(&self, key: &Q) -> HashValue;

    /// Computes the hash of `key`.
    fn hash_one(&self, key: &Q) -> (hash: HashValue)
        ensures
            hash == self.hash_spec(key),
    ;
}

/// A hash builder whose hashers all start from one fixed state, so that a key
/// hashes alike in every map and every run.
#[derive(Clone, Copy, Debug)]
pub struct FixedState;

/// The hash of a byte string: what a fresh default hasher makes of it in one write.
pub open spec fn hash_of_bytes(bytes: Seq<u8>) -> HashValue {
    DefaultHasher::spec_finish(seq![bytes])
}

/// Hashes a byte string with a fresh default hasher.
pub fn hash_bytes(bytes: &[u8]) -> (hash: HashValue)
    ensures
        hash == hash_of_bytes(bytes@),
{
    let mut hasher = DefaultHasher::new();
    hasher.write(bytes);
    assert(hasher@ =~= seq![bytes@]);
    hasher.finish()
}

impl HashBuilder<u32> for FixedState {
    open spec fn hash_spec(&self, key: &u32) -> HashValue {
        hash_of_bytes(spec_u32_to_le_bytes(*key))
    }

    fn hash_one(&self, key: &u32) -> (hash: HashValue) {
        let bytes = u32_to_le_bytes(*key);
        hash_bytes(bytes.as_slice())
    }
}

impl HashBuilder<u64> for FixedState {
    open spec fn hash_spec(&self, key: &u64) -> HashValue {
        hash_of_bytes(spec_u64_to_le_bytes(*key))
    }

    fn hash_one(&self, key: &u64) -> (hash: HashValue) {
        let bytes = u64_to_le_bytes(*key);
        hash_bytes(bytes.as_slice())
    }
}

impl HashBuilder<str> for FixedState {
    open spec fn hash_spec(&self, key: &str) -> HashValue {
        hash_of_bytes(encode_utf8(key@))
    }

    fn hash_one(&self, key: &str) -> (hash: HashValue) {
        hash_bytes(key.as_bytes())
    }
}

impl<'a> HashBuilder<&'a str> for FixedState {
    open spec fn hash_spec(&self, key: &&'a str) -> HashValue {
        hash_of_bytes(encode_utf8(key@))
    }

    fn hash_one(&self, key: &&'a str) -> (hash: HashValue) {
        hash_bytes(key.as_bytes())
    }
}

impl HashBuilder<String> for FixedState {
    open spec fn hash_spec(&self, key: &String) -> HashValue {
        hash_of_bytes(encode_utf8(key@))
    }

    fn hash_one(&self, key: &String) -> (hash: HashValue) {
        hash_bytes(key.as_str().as_bytes())
    }
}

} // verus!
