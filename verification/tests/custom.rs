use indexmap::equivalent::Equivalent;
use indexmap::hashing::HashBuilder;
use indexmap::map::raw_entry_v1::RawEntryApiV1;
use indexmap::map::raw_entry_v1::RawEntryMut;
use indexmap::map::IndexMap;

/// Files every key under one hash.
struct Constant;

impl HashBuilder<Folded> for Constant {
    fn hash_spec(&self, _key: &Folded) -> u64 {
        unreachable!()
    }

    fn hash_one(&self, _key: &Folded) -> u64 {
        7
    }
}

/// A key that compares without regard to case.
#[derive(Debug, PartialEq)]
struct Folded(&'static str);

impl Equivalent<Folded> for Folded {
    fn equivalent_spec(&self, _key: &Folded) -> bool {
        unreachable!()
    }

    fn equivalent(&self, key: &Folded) -> bool {
        self.0.eq_ignore_ascii_case(key.0)
    }
}

#[test]
fn a_hash_builder_of_the_callers_own() {
    let mut map: IndexMap<Folded, u32, Constant> = IndexMap::with_hasher(Constant);
    let words = ["Alpha", "beta", "GAMMA", "delta", "Epsilon", "zeta", "ETA", "theta", "Iota", "kappa"];
    for (i, w) in words.iter().enumerate() {
        match map.raw_entry_mut_v1().from_key(&Folded(w)) {
            RawEntryMut::Occupied(_) => unreachable!(),
            RawEntryMut::Vacant(entry) => {
                assert_eq!(entry.index(), i);
                entry.insert(Folded(w), i as u32);
            }
        }
    }
    assert_eq!(map.len(), 10);
    assert_eq!(map.raw_entry_v1().from_key(&Folded("gamma")), Some((&Folded("GAMMA"), &2)));
    assert_eq!(map.raw_entry_v1().from_key(&Folded("KAPPA")), Some((&Folded("kappa"), &9)));
    assert_eq!(map.raw_entry_v1().from_key(&Folded("lambda")), None);
    match map.raw_entry_mut_v1().from_key(&Folded("ALPHA")) {
        RawEntryMut::Vacant(_) => unreachable!(),
        RawEntryMut::Occupied(entry) => assert_eq!(entry.shift_remove_entry(), (Folded("Alpha"), 0)),
    }
    assert_eq!(map.raw_entry_v1().from_key(&Folded("alpha")), None);
    for (i, w) in words.iter().enumerate().skip(1) {
        assert_eq!(map.get_index(i - 1), Some((&Folded(w), &(i as u32))));
        assert_eq!(map.raw_entry_v1().from_key(&Folded(w)), Some((&Folded(w), &(i as u32))));
    }
    assert_eq!(map.raw_entry_v1().from_key_hashed_nocheck(8, &Folded("beta")), None);
    assert_eq!(map.raw_entry_v1().from_key_hashed_nocheck(7, &Folded("beta")), Some((&Folded("beta"), &1)));
}
