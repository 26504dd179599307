//! The pluggable hashing abstraction: a digest for a leaf byte-string and a
//! digest for an internal node from its two child digests.

use vstd::prelude::*;
use std::io::Cursor;
use murmur3::murmur3_32;

verus! {

/// The 32-bit murmur3 digest of a byte string under a seed. The digest is a
/// pure function of the bytes and the seed alone; its value is left
/// unspecified here.
pub uninterp spec fn murmur3_of(bytes: Seq<u8>, seed: u32) -> u32;

/// Relies on murmur3::murmur3_32: the digest is computed from exactly the
/// bytes read out of the source and the seed, so on an in-memory cursor it is
/// a deterministic function of the byte string and the seed. Reading from a
/// `Cursor` over a slice cannot fail, so the call always returns `Ok`. The
/// length bound is needed because the call counts the bytes it has read in a
/// `u32`, which must not overflow.
#[verifier::external_body]
fn murmur3_hash(bytes: &[u8], seed: u32) -> (r: u32)
    requires
        bytes@.len() < 0x1_0000_0000,
    ensures
        r == murmur3_of(bytes@, seed),
{
    murmur3_32(&mut Cursor::new(bytes), seed).unwrap()
}

/// A deterministic pair of digest functions: one for leaf byte-strings, one
/// for internal nodes over two child digests.
pub trait DataHasher: Sized {
    /// The digest this hasher assigns to a leaf byte-string.
    spec fn leaf_spec(&self, bytes: Seq<u8>) -> u32;

    /// The digest this hasher assigns to an internal node, given the two
    /// child digests in order. Order-sensitive: swapping the children may
    /// change the result.
    spec fn node_spec(&self, left: u32, right: u32) -> u32;

    /// Compute the digest of a leaf byte-string. A leaf byte-string is
    /// shorter than four gibibytes: the backing digest routine counts the
    /// bytes it reads in 32 bits.
    fn leaf(&self, val: &[u8]) -> (r: u32)
        requires
            val@.len() < 0x1_0000_0000,
        ensures
            r == self.leaf_spec(val@),
    ;

    /// Compute the digest of an internal node from its two child digests.
    fn node(&self, left: u32, right: u32) -> (r: u32)
        ensures
            r == self.node_spec(left, right),
    ;
}

/// The murmur3-backed hasher: leaves are hashed directly; an internal node
/// hashes the concatenation of the children's little-endian byte forms.
pub struct MurmurHasher;

impl Default for MurmurHasher {
    fn default() -> (r: Self)
        ensures
            r == MurmurHasher,
    {
        MurmurHasher
    }
}

impl DataHasher for MurmurHasher {
    open spec fn leaf_spec(&self, bytes: Seq<u8>) -> u32 {
        murmur3_of(bytes, 0)
    }

    open spec fn node_spec(&self, left: u32, right: u32) -> u32 {
        murmur3_of(
            vstd::bytes::spec_u32_to_le_bytes(left) + vstd::bytes::spec_u32_to_le_bytes(right),
            0,
        )
    }

    fn leaf(&self, val: &[u8]) -> (r: u32) {
        murmur3_hash(val, 0)
    }

    fn node(&self, left: u32, right: u32) -> (r: u32) {
        let mut hash_vec = vstd::bytes::u32_to_le_bytes(left);
        let mut right_bytes = vstd::bytes::u32_to_le_bytes(right);
        hash_vec.append(&mut right_bytes);
        proof {
            assert(hash_vec@ =~= vstd::bytes::spec_u32_to_le_bytes(left)
                + vstd::bytes::spec_u32_to_le_bytes(right));
        }
        murmur3_hash(hash_vec.as_slice(), 0)
    }
}

} // verus!
