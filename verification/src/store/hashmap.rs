//! The hash-map-backed store.

use vstd::prelude::*;
use std::collections::HashMap;
use crate::store::Store;

verus! {

broadcast use vstd::std_specs::hash::group_hash_axioms;

/// A [`Store`] backed by a `HashMap` from digest to byte-string.
pub struct HashMapStore {
    store: HashMap<u32, Vec<u8>>,
}

impl Default for HashMapStore {
    fn default() -> (r: Self)
        ensures
            r.contents() == Map::<u32, Seq<u8>>::empty(),
    {
        let r = HashMapStore { store: HashMap::new() };
        proof {
            assert(r.contents() =~= Map::<u32, Seq<u8>>::empty());
        }
        r
    }
}

impl Store for HashMapStore {
    closed spec fn contents(&self) -> Map<u32, Seq<u8>> {
        self.store@.map_values(|v: Vec<u8>| v@)
    }

    fn put(&mut self, hash: u32, value: Vec<u8>) {
        let ghost prev = self.store@;
        self.store.insert(hash, value);
        proof {
            assert(self.contents() =~= prev.map_values(|v: Vec<u8>| v@).insert(hash, value@));
        }
    }

    fn get(&self, hash: &u32) -> (r: Option<Vec<u8>>) {
        match self.store.get(hash) {
            Some(v) => {
                let copy = copy_bytes(v);
                Some(copy)
            },
            None => None,
        }
    }
}

/// Copy a byte vector element by element.
fn copy_bytes(v: &Vec<u8>) -> (r: Vec<u8>)
    ensures
        r@ == v@,
{
    let mut r: Vec<u8> = Vec::new();
    let mut i: usize = 0;
    while i < v.len()
        invariant
            i <= v@.len(),
            r@ == v@.subrange(0, i as int),
        decreases v@.len() - i,
    {
        r.push(v[i]);
        i = i + 1;
        assert(r@ =~= v@.subrange(0, i as int));
    }
    assert(r@ =~= v@);
    r
}

} // verus!
