//! The content-addressed byte store: a mapping from digest to the byte-string
//! that produced it, written during tree construction and read during diffing.

use vstd::prelude::*;

verus! {

/// A content-addressed store of byte-strings keyed by their digest.
/// Insertion is unconditional (last writer wins on a digest collision);
/// lookup returns a copy of the stored bytes or reports absence.
pub trait Store: Sized {
    /// The mapping currently held: digest to stored byte-string.
    spec fn contents(&self) -> Map<u32, Seq<u8>>;

    /// Insert or overwrite the byte-string stored under `hash`.
    fn put(&mut self, hash: u32, value: Vec<u8>)
        ensures
            final(self).contents() == old(self).contents().insert(hash, value@),
    ;

    /// Look up the byte-string stored under `hash`.
    fn get(&self, hash: &u32) -> (r: Option<Vec<u8>>)
        ensures
            match r {
                Some(v) => self.contents().contains_key(*hash) && v@ == self.contents()[*hash],
                None => !self.contents().contains_key(*hash),
            },
    ;
}

} // verus!

pub mod hashmap;
