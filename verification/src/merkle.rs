//! The hash tree: a complete (power-of-two-padded) binary tree of digests
//! over an ordered sequence of cell records, stored as a 1-indexed array.
//!
//! Index 0 is an unused placeholder, index 1 is the root, index `k` has
//! children `2k` and `2k+1`, and the original leaves occupy the upper half of
//! the array in reverse input order (the array is assembled bottom-up and
//! then reversed as a whole; both trees of a comparison undergo the same
//! transform, so leaf positions stay aligned between them).

use vstd::prelude::*;
use crate::Data;
use crate::hash::DataHasher;
use crate::store::Store;

verus! {

/// True when `n` is a power of two.
pub open spec fn is_pow2(n: nat) -> bool
    decreases n,
{
    if n == 0 {
        false
    } else if n == 1 {
        true
    } else {
        n % 2 == 0 && is_pow2(n / 2)
    }
}

/// The smallest power of two greater than or equal to `n` (1 for inputs 0
/// and 1).
pub open spec fn next_pow2_spec(n: nat) -> nat
    decreases n,
{
    if n <= 1 {
        1
    } else {
        2 * next_pow2_spec((n + 1) / 2)
    }
}

/// Basic facts: the result is a power of two and is at least `n`.
proof fn lemma_next_pow2_basic(n: nat)
    ensures
        is_pow2(next_pow2_spec(n)),
        next_pow2_spec(n) >= n,
        next_pow2_spec(n) >= 1,
    decreases n,
{
    if n <= 1 {
    } else {
        lemma_next_pow2_basic((n + 1) / 2);
    }
}

/// An odd power of two can only be 1.
proof fn lemma_pow2_odd(k: nat)
    requires
        is_pow2(k),
        k % 2 == 1,
    ensures
        k == 1,
{
}

/// Every positive `n` has a power of two between `n` and `2 * n - 1`.
proof fn lemma_pow2_witness(n: nat)
    requires
        n >= 1,
    ensures
        exists|q: nat| is_pow2(q) && n <= q <= 2 * n - 1,
    decreases n,
{
    if n == 1 {
        assert(is_pow2(1nat) && n <= 1nat <= 2 * n - 1);
    } else {
        let m = (n + 1) / 2;
        lemma_pow2_witness(m);
        let q0 = choose|q0: nat| is_pow2(q0) && m <= q0 <= 2 * m - 1;
        if n % 2 == 1 && q0 == n {
            lemma_pow2_odd(q0);
        }
        assert(is_pow2(2 * q0) && n <= 2 * q0 <= 2 * n - 1);
    }
}

/// Basic facts: the result is a power of two, is at least `n`, and is less
/// than or equal to `2 * n` for positive `n`.
pub proof fn lemma_next_pow2_props(n: nat)
    ensures
        is_pow2(next_pow2_spec(n)),
        next_pow2_spec(n) >= n,
        next_pow2_spec(n) >= 1,
        n >= 1 ==> next_pow2_spec(n) <= 2 * n,
{
    lemma_next_pow2_basic(n);
    if n >= 1 {
        lemma_pow2_witness(n);
        let q = choose|q: nat| is_pow2(q) && n <= q <= 2 * n - 1;
        lemma_next_pow2_least(n, q);
    }
}

/// Doubling a smaller power of two cannot overshoot a larger one.
proof fn lemma_pow2_double_le(a: nat, b: nat)
    requires
        is_pow2(a),
        is_pow2(b),
        a < b,
    ensures
        2 * a <= b,
    decreases a,
{
    if a == 1 {
    } else {
        lemma_pow2_double_le(a / 2, b / 2);
    }
}

/// `next_pow2` yields the least power of two at or above its input; in
/// particular, an input that is itself a power of two is returned unchanged.
pub proof fn lemma_next_pow2_least(n: nat, q: nat)
    requires
        is_pow2(q),
        q >= n,
    ensures
        is_pow2(next_pow2_spec(n)),
        next_pow2_spec(n) >= n,
        next_pow2_spec(n) <= q,
        is_pow2(n) ==> next_pow2_spec(n) == n,
    decreases n,
{
    lemma_next_pow2_basic(n);
    if n <= 1 {
    } else {
        let m = (n + 1) / 2;
        lemma_next_pow2_least(m, q / 2);
    }
    if is_pow2(n) && n > 0 {
        lemma_next_pow2_least_self(n);
    }
}

proof fn lemma_next_pow2_least_self(n: nat)
    requires
        is_pow2(n),
    ensures
        next_pow2_spec(n) == n,
    decreases n,
{
    if n == 1 {
    } else {
        lemma_next_pow2_least_self(n / 2);
        assert((n + 1) / 2 == n / 2);
    }
}

/// The smallest power of two greater than or equal to `v` (1 when `v` is 0).
/// The bound on `v` admits every input whose result is representable.
pub fn next_pow2(v: usize) -> (r: usize)
    requires
        v <= usize::MAX / 2 + 1,
    ensures
        r as nat == next_pow2_spec(v as nat),
{
    proof {
        lemma_next_pow2_props(v as nat);
    }
    let mut p: usize = 1;
    while p < v
        invariant
            v <= usize::MAX / 2 + 1,
            1 <= p,
            is_pow2(p as nat),
            p as nat <= next_pow2_spec(v as nat),
            next_pow2_spec(v as nat) <= if v >= 1 { 2 * v as nat } else { 1nat },
        decreases next_pow2_spec(v as nat) - p,
    {
        proof {
            lemma_next_pow2_props(v as nat);
            lemma_pow2_double_le(p as nat, next_pow2_spec(v as nat));
        }
        p = 2 * p;
    }
    proof {
        lemma_next_pow2_least(v as nat, p as nat);
    }
    p
}

/// The digest that a well-built tree over the padded leaf-digest sequence
/// `leaves` holds at array index `k`: positions in the upper half hold the
/// leaves in reverse input order, and every lower position combines its two
/// children (the higher-indexed child is the earlier one).
pub open spec fn node_digest<H: DataHasher>(h: H, leaves: Seq<u32>, k: int) -> u32
    recommends
        is_pow2(leaves.len()),
    decreases 2 * leaves.len() - k,
{
    if k < 1 || k >= 2 * leaves.len() {
        0u32
    } else if k >= leaves.len() {
        leaves[2 * leaves.len() - 1 - k]
    } else {
        h.node_spec(node_digest(h, leaves, 2 * k + 1), node_digest(h, leaves, 2 * k))
    }
}

/// The full digest array of a tree over the padded leaf-digest sequence
/// `leaves`: twice as long as `leaves`, with the placeholder zero at index 0.
pub open spec fn tree_digests<H: DataHasher>(h: H, leaves: Seq<u32>) -> Seq<u32> {
    Seq::new(2 * leaves.len(), |k: int| node_digest(h, leaves, k))
}

/// The leaf digests of an item sequence, in input order.
pub open spec fn leaf_digests<D: Data, H: DataHasher>(items: Seq<D>, h: H) -> Seq<u32> {
    Seq::new(items.len(), |i: int| h.leaf_spec(items[i].bytes_spec()))
}

/// The leaf digests padded with the zero sentinel up to the next power of
/// two. Padding leaves stand for no stored bytes.
pub open spec fn padded_digests<D: Data, H: DataHasher>(items: Seq<D>, h: H) -> Seq<u32> {
    leaf_digests(items, h) + Seq::new(
        (next_pow2_spec(items.len()) - items.len()) as nat,
        |i: int| 0u32,
    )
}

/// The store contents after inserting every item's encoding under its leaf
/// digest, in input order (so on a digest collision the later item wins).
pub open spec fn store_extend<D: Data, H: DataHasher>(
    m: Map<u32, Seq<u8>>,
    items: Seq<D>,
    h: H,
) -> Map<u32, Seq<u8>>
    decreases items.len(),
{
    if items.len() == 0 {
        m
    } else {
        store_extend(
            m.insert(h.leaf_spec(items[0].bytes_spec()), items[0].bytes_spec()),
            items.drop_first(),
            h,
        )
    }
}

/// Appending one more item extends the store with one more insertion.
proof fn lemma_store_extend_push<D: Data, H: DataHasher>(
    m: Map<u32, Seq<u8>>,
    items: Seq<D>,
    x: D,
    h: H,
)
    ensures
        store_extend(m, items.push(x), h) == store_extend(m, items, h).insert(
            h.leaf_spec(x.bytes_spec()),
            x.bytes_spec(),
        ),
    decreases items.len(),
{
    let d = h.leaf_spec(x.bytes_spec());
    let b = x.bytes_spec();
    if items.len() == 0 {
        assert(items.push(x).drop_first() =~= items);
        assert(items.push(x)[0] == x);
        assert(store_extend(m.insert(d, b), items, h) == m.insert(d, b));
    } else {
        assert(items.push(x).drop_first() =~= items.drop_first().push(x));
        assert(items.push(x)[0] == items[0]);
        lemma_store_extend_push(
            m.insert(h.leaf_spec(items[0].bytes_spec()), items[0].bytes_spec()),
            items.drop_first(),
            x,
            h,
        );
    }
}

/// The shape of a built digest array: index 0 is the zero placeholder,
/// every internal index combines its two children (the higher-indexed,
/// earlier-input child first), and the upper half holds the padded leaves
/// in reverse input order.
pub proof fn lemma_tree_digests_shape<H: DataHasher>(h: H, leaves: Seq<u32>)
    ensures
        tree_digests(h, leaves).len() == 2 * leaves.len(),
        leaves.len() >= 1 ==> tree_digests(h, leaves)[0] == 0u32,
        forall|k: int|
            1 <= k < leaves.len() ==> tree_digests(h, leaves)[k] == h.node_spec(
                #[trigger] tree_digests(h, leaves)[2 * k + 1],
                tree_digests(h, leaves)[2 * k],
            ),
        forall|k: int|
            leaves.len() <= k < 2 * leaves.len() ==> #[trigger] tree_digests(h, leaves)[k]
                == leaves[2 * leaves.len() - 1 - k],
{
}

/// What the extended store holds: every inserted item's digest is a key,
/// previous keys survive, and every key either kept its previous value or
/// holds the encoding of some inserted item whose digest it is.
pub proof fn lemma_store_extend_facts<D: Data, H: DataHasher>(
    m: Map<u32, Seq<u8>>,
    items: Seq<D>,
    h: H,
)
    ensures
        forall|i: int|
            0 <= i < items.len() ==> store_extend(m, items, h).contains_key(
                h.leaf_spec(#[trigger] items[i].bytes_spec()),
            ),
        forall|k: u32| m.contains_key(k) ==> #[trigger] store_extend(m, items, h).contains_key(k),
        forall|k: u32|
            #[trigger] store_extend(m, items, h).contains_key(k) ==> ((m.contains_key(k)
                && store_extend(m, items, h)[k] == m[k]) || (exists|i: int|
                0 <= i < items.len() && h.leaf_spec(#[trigger] items[i].bytes_spec()) == k
                    && store_extend(m, items, h)[k] == items[i].bytes_spec())),
    decreases items.len(),
{
    if items.len() > 0 {
        let d0 = h.leaf_spec(items[0].bytes_spec());
        let b0 = items[0].bytes_spec();
        let m1 = m.insert(d0, b0);
        let rest = items.drop_first();
        lemma_store_extend_facts(m1, rest, h);
        let result = store_extend(m, items, h);
        assert(result == store_extend(m1, rest, h));
        assert forall|i: int|
            0 <= i < items.len() implies result.contains_key(
            h.leaf_spec(#[trigger] items[i].bytes_spec()),
        ) by {
            if i == 0 {
                assert(m1.contains_key(d0));
            } else {
                assert(rest[i - 1] == items[i]);
                assert(result.contains_key(h.leaf_spec(rest[i - 1].bytes_spec())));
            }
        }
        assert forall|k: u32| #[trigger] result.contains_key(k) implies ((m.contains_key(k)
            && result[k] == m[k]) || (exists|i: int|
            0 <= i < items.len() && h.leaf_spec(#[trigger] items[i].bytes_spec()) == k
                && result[k] == items[i].bytes_spec())) by {
            if m1.contains_key(k) && result[k] == m1[k] {
                if k == d0 {
                    assert(h.leaf_spec(items[0].bytes_spec()) == k && result[k]
                        == items[0].bytes_spec());
                } else {
                    assert(m.contains_key(k) && result[k] == m[k]);
                }
            } else {
                let i = choose|i: int|
                    0 <= i < rest.len() && h.leaf_spec(#[trigger] rest[i].bytes_spec()) == k
                        && result[k] == rest[i].bytes_spec();
                assert(items[i + 1] == rest[i]);
                assert(h.leaf_spec(items[i + 1].bytes_spec()) == k && result[k] == items[i
                    + 1].bytes_spec());
            }
        }
    }
}

/// A complete binary hash tree of digests, 1-indexed through an unused
/// leading placeholder.
pub struct MerkleTree {
    pub hashes: Vec<u32>,
}

impl MerkleTree {
    /// Build a tree over the cell records in `items`, inserting each
    /// record's encoding into `store` under its leaf digest.
    pub fn from_coll<D: Data, S: Store, H: DataHasher>(
        items: &Vec<D>,
        store: &mut S,
        hasher: &H,
    ) -> (t: MerkleTree)
        requires
            items@.len() <= usize::MAX / 4,
            forall|i: int|
                0 <= i < items@.len() ==> (#[trigger] items@[i].bytes_spec()).len()
                    < 0x1_0000_0000,
        ensures
            t.hashes@ == tree_digests(*hasher, padded_digests(items@, *hasher)),
            t.hashes@.len() == 2 * next_pow2_spec(items@.len()),
            final(store).contents() == store_extend(old(store).contents(), items@, *hasher),
    {
        let ghost initial_contents = store.contents();
        let size = items.len();
        let next_pow = next_pow2(size);
        proof {
            lemma_next_pow2_props(size as nat);
        }
        let data_size = 2 * next_pow - 1;
        let mut hashes: Vec<u32> = Vec::with_capacity(data_size);

        let mut i: usize = 0;
        while i < items.len()
            invariant
                i <= items@.len(),
                hashes@.len() == i,
                forall|j: int|
                    0 <= j < items@.len() ==> (#[trigger] items@[j].bytes_spec()).len()
                        < 0x1_0000_0000,
                forall|j: int|
                    0 <= j < i ==> hashes@[j] == hasher.leaf_spec(items@[j].bytes_spec()),
                store.contents() == store_extend(
                    initial_contents,
                    items@.subrange(0, i as int),
                    *hasher,
                ),
            decreases items@.len() - i,
        {
            let vec8 = items[i].to_bytes();
            let hash = hasher.leaf(vec8.as_slice());
            hashes.push(hash);
            proof {
                lemma_store_extend_push(
                    initial_contents,
                    items@.subrange(0, i as int),
                    items@[i as int],
                    *hasher,
                );
                assert(items@.subrange(0, i as int).push(items@[i as int]) =~= items@.subrange(
                    0,
                    i as int + 1,
                ));
            }
            store.put(hash, vec8);
            i = i + 1;
        }
        proof {
            assert(items@.subrange(0, items@.len() as int) =~= items@);
        }

        // Pad with the zero sentinel up to the next power of two.
        while hashes.len() < next_pow
            invariant
                hashes@.len() <= next_pow,
                hashes@.len() >= items@.len(),
                next_pow as nat == next_pow2_spec(items@.len()),
                forall|j: int|
                    0 <= j < items@.len() ==> hashes@[j] == hasher.leaf_spec(
                        items@[j].bytes_spec(),
                    ),
                forall|j: int| items@.len() <= j < hashes@.len() ==> hashes@[j] == 0u32,
            decreases next_pow - hashes@.len(),
        {
            hashes.push(0u32);
        }
        proof {
            assert(hashes@ =~= padded_digests(items@, *hasher));
        }

        let mut merkle = MerkleTree { hashes };
        merkle.build(hasher);
        merkle
    }

    /// Assemble the internal levels bottom-up over the padded leaf digests
    /// already in `hashes`, append the index-0 placeholder, and reverse the
    /// whole array so that the root lands at index 1.
    fn build<H: DataHasher>(&mut self, hasher: &H)
        requires
            is_pow2(old(self).hashes@.len() as nat),
            old(self).hashes@.len() <= usize::MAX / 2,
        ensures
            final(self).hashes@ == tree_digests(*hasher, old(self).hashes@),
    {
        let ghost leaves = self.hashes@;
        let p = self.hashes.len();

        while self.hashes.len() < 2 * p - 1
            invariant
                p as nat == leaves.len(),
                is_pow2(p as nat),
                1 <= p,
                p <= usize::MAX / 2,
                p <= self.hashes@.len() <= 2 * p - 1,
                forall|q: int|
                    0 <= q < self.hashes@.len() ==> self.hashes@[q] == node_digest(
                        *hasher,
                        leaves,
                        2 * (p as int) - 1 - q,
                    ),
            decreases 2 * p - 1 - self.hashes@.len(),
        {
            let len = self.hashes.len();
            let i = 2 * (len - p);
            let hash = hasher.node(self.hashes[i], self.hashes[i + 1]);
            proof {
                let k = 2 * (p as int) - 1 - (len as int);
                assert(1 <= k < p as int);
                assert(2 * k + 1 == 2 * (p as int) - 1 - (i as int));
                assert(2 * k == 2 * (p as int) - 1 - (i as int + 1));
            }
            self.hashes.push(hash);
        }

        self.hashes.push(0u32);

        // Reverse the fully assembled array as a single step.
        let total = self.hashes.len();
        let mut rev: Vec<u32> = Vec::with_capacity(total);
        let mut idx: usize = total;
        while idx > 0
            invariant
                total as nat == self.hashes@.len(),
                idx <= total,
                rev@.len() == total - idx,
                forall|j: int|
                    0 <= j < rev@.len() ==> rev@[j] == self.hashes@[total as int - 1 - j],
            decreases idx,
        {
            idx = idx - 1;
            rev.push(self.hashes[idx]);
        }
        self.hashes = rev;
        proof {
            assert(self.hashes@ =~= tree_digests(*hasher, leaves));
        }
    }
}

} // verus!
