//! The equivalence capability: comparing a lookup key with a stored key.

use vstd::prelude::*;
use vstd::utf8::encode_utf8_decode_utf8;

verus! {

/// A lookup key that can be compared with a stored key of type `K`, which may
/// be another type: a borrowed string can look up an owned one.
///
/// Keys that are equivalent must hash alike under the map's hash builder, or
/// lookups by key will miss records that are there.
pub trait Equivalent<K: ?Sized> {
    /// Whether `self` stands for the same key as `key`.
    spec fn equivalent_spec(&self, key: &K) -> bool;

    /// Compares `self` with a stored key.
    fn equivalent(&self, key: &K) -> (b: bool)
        ensures
            b == self.equivalent_spec(key),
    ;
}

impl Equivalent<u32> for u32 {
    open spec fn equivalent_spec(&self, key: &u32) -> bool {
        *self == *key
    }

    fn equivalent(&self, key: &u32) -> (b: bool) {
        *self == *key
    }
}

impl Equivalent<u64> for u64 {
    open spec fn equivalent_spec(&self, key: &u64) -> bool {
        *self == *key
    }

    fn equivalent(&self, key: &u64) -> (b: bool) {
        *self == *key
    }
}

/// Whether two byte strings are the same, byte for byte.
pub fn same_bytes(a: &[u8], b: &[u8]) -> (same: bool)
    ensures
        same == (a@ == b@),
{
    if a.len() != b.len() {
        return false;
    }
    let mut i: usize = 0;
    while i < a.len()
        invariant
            a@.len() == b@.len(),
            i <= a@.len(),
            forall|j: int| 0 <= j < i ==> a@[j] == b@[j],
        decreases a@.len() - i,
    {
        if a[i] != b[i] {
            return false;
        }
        i += 1;
    }
    assert(a@ =~= b@);
    true
}

/// Whether two strings hold the same characters.
pub fn same_text(a: &str, b: &str) -> (same: bool)
    ensures
        same == (a@ == b@),
{
    let same = same_bytes(a.as_bytes(), b.as_bytes());
    proof {
        encode_utf8_decode_utf8(a@);
        encode_utf8_decode_utf8(b@);
    }
    same
}

impl Equivalent<str> for str {
    open spec fn equivalent_spec(&self, key: &str) -> bool {
        self@ == key@
    }

    fn equivalent(&self, key: &str) -> (b: bool) {
        same_text(self, key)
    }
}

impl<'a> Equivalent<&'a str> for str {
    open spec fn equivalent_spec(&self, key: &&'a str) -> bool {
        self@ == key@
    }

    fn equivalent(&self, key: &&'a str) -> (b: bool) {
        same_text(self, *key)
    }
}

impl<'a, 'b> Equivalent<&'a str> for &'b str {
    open spec fn equivalent_spec(&self, key: &&'a str) -> bool {
        self@ == key@
    }

    fn equivalent(&self, key: &&'a str) -> (b: bool) {
        same_text(*self, *key)
    }
}

impl Equivalent<String> for str {
    open spec fn equivalent_spec(&self, key: &String) -> bool {
        self@ == key@
    }

    fn equivalent(&self, key: &String) -> (b: bool) {
        same_text(self, key.as_str())
    }
}

impl Equivalent<String> for String {
    open spec fn equivalent_spec(&self, key: &String) -> bool {
        self@ == key@
    }

    fn equivalent(&self, key: &String) -> (b: bool) {
        same_text(self.as_str(), key.as_str())
    }
}

} // verus!
