//! The pruning tree-diff traversal: given two trees of equal shape sharing a
//! store, walk from the root, skip subtrees whose digests agree, and resolve
//! every mismatched leaf pair back to cell content through the store.

use vstd::prelude::*;
use crate::decode_cell;
use crate::decoded_col;
use crate::decoded_row;
use crate::decoded_value;
use crate::valid_cell_bytes;
use crate::merkle::MerkleTree;
use crate::store::Store;

verus! {

/// One reported mismatch: the identifying fields are taken from the left
/// tree's cell, the two values from the left and the right cell.
#[derive(Debug, PartialEq)]
pub struct Difference {
    pub row_id: String,
    pub col_name: String,
    pub left_value: String,
    pub right_value: String,
}

/// The leaf indices the pruning traversal reports, in emission order, when
/// started at array index `k` of two digest arrays of equal length. A
/// subtree whose root digests agree is pruned whole; a mismatch in the leaf
/// range reports that index; a mismatch at an internal node descends into
/// both children, the higher-indexed (earlier-input) child first.
///
/// In an array of length `2 * p` the leaves sit exactly at indices `p`
/// through `2 * p - 1`, so the leaf range is `k >= len / 2` (the boundary
/// index `len / 2` holds the last padded leaf, not an internal node).
pub open spec fn diff_ids(lh: Seq<u32>, rh: Seq<u32>, k: int) -> Seq<int>
    decreases 2 * lh.len() - k,
{
    if k < 1 || k >= lh.len() {
        seq![]
    } else if lh[k] == rh[k] {
        seq![]
    } else if k >= lh.len() / 2 {
        seq![k]
    } else {
        diff_ids(lh, rh, 2 * k + 1) + diff_ids(lh, rh, 2 * k)
    }
}

/// The number of array positions the traversal could still visit below
/// index `k`; a termination measure.
spec fn subtree_weight(len: int, k: int) -> nat
    decreases 2 * len - k,
{
    if k < 1 || k >= len {
        0
    } else if k >= len / 2 {
        1
    } else {
        1 + subtree_weight(len, 2 * k + 1) + subtree_weight(len, 2 * k)
    }
}

/// Total weight of a work-list.
spec fn queue_weight(len: int, q: Seq<usize>) -> nat
    decreases q.len(),
{
    if q.len() == 0 {
        0
    } else {
        subtree_weight(len, q.last() as int) + queue_weight(len, q.drop_last())
    }
}

/// The leaf indices still owed by a work-list, in pop order.
spec fn pending_ids(lh: Seq<u32>, rh: Seq<u32>, q: Seq<usize>) -> Seq<int>
    decreases q.len(),
{
    if q.len() == 0 {
        seq![]
    } else {
        diff_ids(lh, rh, q.last() as int) + pending_ids(lh, rh, q.drop_last())
    }
}

proof fn lemma_pending_push(lh: Seq<u32>, rh: Seq<u32>, q: Seq<usize>, x: usize)
    ensures
        pending_ids(lh, rh, q.push(x)) == diff_ids(lh, rh, x as int) + pending_ids(lh, rh, q),
        queue_weight(lh.len() as int, q.push(x)) == subtree_weight(lh.len() as int, x as int)
            + queue_weight(lh.len() as int, q),
{
    assert(q.push(x).last() == x);
    assert(q.push(x).drop_last() =~= q);
}

/// True when array index `a` lies on the path from the root (index 1) down
/// to index `m`: `a` is `m` itself or one of its ancestors under the heap
/// layout, where the parent of `m` is `m / 2`.
pub open spec fn on_path(a: int, m: int) -> bool
    decreases m,
{
    if a < 1 || m < a {
        false
    } else if a == m {
        true
    } else {
        on_path(a, m / 2)
    }
}

/// The root lies on every node's path.
proof fn lemma_on_path_root(m: int)
    requires
        m >= 1,
    ensures
        on_path(1, m),
    decreases m,
{
    if m > 1 {
        lemma_on_path_root(m / 2);
    }
}

/// A node's parent lies on the path of everything the node's path reaches.
proof fn lemma_on_path_parent(c: int, m: int)
    requires
        on_path(c, m),
        c >= 2,
    ensures
        on_path(c / 2, m),
    decreases m,
{
    if c == m {
        assert(on_path(c / 2, m / 2));
    } else {
        lemma_on_path_parent(c, m / 2);
    }
}

/// A strict ancestor reaches `m` through one of its two children.
proof fn lemma_on_path_child(k: int, m: int)
    requires
        on_path(k, m),
        k != m,
    ensures
        on_path(2 * k, m) || on_path(2 * k + 1, m),
    decreases m,
{
    if k == m / 2 {
        assert(m == 2 * k || m == 2 * k + 1);
    } else {
        lemma_on_path_child(k, m / 2);
    }
}

/// No node lies below both children of one parent.
proof fn lemma_on_path_sibling(k: int, m: int)
    requires
        k >= 1,
    ensures
        !(on_path(2 * k, m) && on_path(2 * k + 1, m)),
    decreases (if m >= 0 { m } else { 0 }),
{
    if on_path(2 * k, m) && on_path(2 * k + 1, m) {
        if 2 * k + 1 == m {
            assert(m / 2 == k);
            assert(!on_path(2 * k, k));
        } else if 2 * k == m {
            assert(!on_path(2 * k + 1, m));
        } else {
            lemma_on_path_sibling(k, m / 2);
        }
    }
}

/// Soundness of the traversal: every reported index is a mismatched
/// position in the leaf range, reached from the start index.
pub proof fn lemma_diff_sound(lh: Seq<u32>, rh: Seq<u32>, k: int)
    requires
        lh.len() == rh.len(),
        1 <= k,
    ensures
        forall|j: int|
            0 <= j < diff_ids(lh, rh, k).len() ==> {
                &&& lh.len() / 2 <= #[trigger] diff_ids(lh, rh, k)[j] < lh.len()
                &&& lh[diff_ids(lh, rh, k)[j]] != rh[diff_ids(lh, rh, k)[j]]
                &&& on_path(k, diff_ids(lh, rh, k)[j])
            },
    decreases 2 * lh.len() - k,
{
    let ids = diff_ids(lh, rh, k);
    if k >= lh.len() || lh[k] == rh[k] {
    } else if k >= lh.len() / 2 {
        assert(on_path(k, k));
    } else {
        lemma_diff_sound(lh, rh, 2 * k + 1);
        lemma_diff_sound(lh, rh, 2 * k);
        let a = diff_ids(lh, rh, 2 * k + 1);
        let b = diff_ids(lh, rh, 2 * k);
        assert(ids == a + b);
        assert forall|j: int|
            0 <= j < ids.len() implies {
            &&& lh.len() / 2 <= #[trigger] ids[j] < lh.len()
            &&& lh[ids[j]] != rh[ids[j]]
            &&& on_path(k, ids[j])
        } by {
            if j < a.len() {
                assert(ids[j] == a[j]);
                lemma_on_path_parent(2 * k + 1, a[j]);
                assert((2 * k + 1) / 2 == k);
            } else {
                assert(ids[j] == b[j - a.len()]);
                lemma_on_path_parent(2 * k, ids[j]);
            }
        }
    }
}

/// Diffing a tree against itself, or against one whose digests are
/// identical, yields no differences: the root digests agree and the whole
/// tree is pruned at once.
pub proof fn lemma_diff_identity(lh: Seq<u32>, rh: Seq<u32>)
    requires
        lh == rh,
    ensures
        diff_ids(lh, rh, 1).len() == 0,
{
}

/// Pruning correctness: a leaf position whose digests agree on both sides
/// is never reported, whatever mismatches exist elsewhere in the trees.
pub proof fn lemma_untouched_leaf_not_reported(lh: Seq<u32>, rh: Seq<u32>, m: int)
    requires
        lh.len() == rh.len(),
        0 <= m < lh.len(),
        lh[m] == rh[m],
    ensures
        !diff_ids(lh, rh, 1).contains(m),
{
    lemma_diff_sound(lh, rh, 1);
    if diff_ids(lh, rh, 1).contains(m) {
        let j = choose|j: int|
            0 <= j < diff_ids(lh, rh, 1).len() && diff_ids(lh, rh, 1)[j] == m;
        assert(lh[diff_ids(lh, rh, 1)[j]] != rh[diff_ids(lh, rh, 1)[j]]);
    }
}

/// A subtree whose leaf positions all agree contributes nothing: the
/// traversal never reports an index from below it.
pub proof fn lemma_subtree_equal_empty(lh: Seq<u32>, rh: Seq<u32>, k: int)
    requires
        lh.len() == rh.len(),
        1 <= k,
        forall|j: int|
            #![trigger on_path(k, j)]
            lh.len() / 2 <= j < lh.len() && on_path(k, j) ==> lh[j] == rh[j],
    ensures
        diff_ids(lh, rh, k).len() == 0,
    decreases 2 * lh.len() - k,
{
    if k >= lh.len() || lh[k] == rh[k] {
    } else if k >= lh.len() / 2 {
        assert(on_path(k, k));
        assert(false);
    } else {
        assert forall|j: int|
            #![trigger on_path(2 * k + 1, j)]
            lh.len() / 2 <= j < lh.len() && on_path(2 * k + 1, j) implies lh[j] == rh[j] by {
            lemma_on_path_parent(2 * k + 1, j);
            assert((2 * k + 1) / 2 == k);
        }
        assert forall|j: int|
            #![trigger on_path(2 * k, j)]
            lh.len() / 2 <= j < lh.len() && on_path(2 * k, j) implies lh[j] == rh[j] by {
            lemma_on_path_parent(2 * k, j);
        }
        lemma_subtree_equal_empty(lh, rh, 2 * k + 1);
        lemma_subtree_equal_empty(lh, rh, 2 * k);
    }
}

proof fn lemma_mismatched_leaf_reported_from(lh: Seq<u32>, rh: Seq<u32>, k: int, m: int)
    requires
        lh.len() == rh.len(),
        lh.len() % 2 == 0,
        1 <= k,
        on_path(k, m),
        lh.len() / 2 <= m < lh.len(),
        forall|a: int| #![trigger on_path(a, m)] 1 <= a <= m && on_path(a, m) ==> lh[a] != rh[a],
    ensures
        diff_ids(lh, rh, k).contains(m),
    decreases m - k,
{
    if k == m {
        assert(on_path(m, m));
        assert(lh[m] != rh[m]);
        assert(diff_ids(lh, rh, k) == seq![m]);
        assert(diff_ids(lh, rh, k)[0] == m);
    } else {
        assert(on_path(k, m / 2));
        assert(k <= m / 2 < lh.len() / 2);
        assert(lh[k] != rh[k]);
        lemma_on_path_child(k, m);
        let a = diff_ids(lh, rh, 2 * k + 1);
        let b = diff_ids(lh, rh, 2 * k);
        assert(diff_ids(lh, rh, k) == a + b);
        if on_path(2 * k + 1, m) {
            lemma_mismatched_leaf_reported_from(lh, rh, 2 * k + 1, m);
            let j = choose|j: int| 0 <= j < a.len() && a[j] == m;
            assert((a + b)[j] == m);
        } else {
            lemma_mismatched_leaf_reported_from(lh, rh, 2 * k, m);
            let j = choose|j: int| 0 <= j < b.len() && b[j] == m;
            assert((a + b)[a.len() + j] == m);
        }
    }
}

/// Completeness: a mismatched leaf position is reported whenever the
/// digests also differ at every ancestor on its root path — which tree
/// construction guarantees unless an internal digest collision masks the
/// leaf, the documented residual risk of a 32-bit digest.
pub proof fn lemma_mismatched_leaf_reported(lh: Seq<u32>, rh: Seq<u32>, m: int)
    requires
        lh.len() == rh.len(),
        lh.len() % 2 == 0,
        lh.len() / 2 <= m < lh.len(),
        forall|a: int| #![trigger on_path(a, m)] 1 <= a <= m && on_path(a, m) ==> lh[a] != rh[a],
    ensures
        diff_ids(lh, rh, 1).contains(m),
{
    lemma_on_path_root(m);
    lemma_mismatched_leaf_reported_from(lh, rh, 1, m);
}

/// The traversal never reports a position twice: the two children of any
/// node cover disjoint leaf ranges.
proof fn lemma_diff_no_dup(lh: Seq<u32>, rh: Seq<u32>, k: int)
    requires
        lh.len() == rh.len(),
        1 <= k,
    ensures
        diff_ids(lh, rh, k).no_duplicates(),
    decreases 2 * lh.len() - k,
{
    let ids = diff_ids(lh, rh, k);
    if k >= lh.len() || lh[k] == rh[k] {
    } else if k >= lh.len() / 2 {
    } else {
        lemma_diff_no_dup(lh, rh, 2 * k + 1);
        lemma_diff_no_dup(lh, rh, 2 * k);
        lemma_diff_sound(lh, rh, 2 * k + 1);
        lemma_diff_sound(lh, rh, 2 * k);
        let a = diff_ids(lh, rh, 2 * k + 1);
        let b = diff_ids(lh, rh, 2 * k);
        assert(ids == a + b);
        assert forall|i: int, j: int|
            0 <= i < ids.len() && 0 <= j < ids.len() && i != j implies ids[i] != ids[j] by {
            if i < a.len() && j < a.len() {
                assert(ids[i] == a[i] && ids[j] == a[j]);
            } else if i >= a.len() && j >= a.len() {
                assert(ids[i] == b[i - a.len()] && ids[j] == b[j - a.len()]);
            } else if i < a.len() {
                assert(ids[i] == a[i] && ids[j] == b[j - a.len()]);
                if ids[i] == ids[j] {
                    lemma_on_path_sibling(k, ids[i]);
                }
            } else {
                assert(ids[i] == b[i - a.len()] && ids[j] == a[j]);
                if ids[i] == ids[j] {
                    lemma_on_path_sibling(k, ids[i]);
                }
            }
        }
    }
}

/// Multiple perturbed cells, each its own report: when every mismatched
/// leaf position also has differing digests along its whole root path (no
/// internal collision masks any of them), the traversal reports exactly the
/// mismatched leaf positions — each of them, nothing else, and none twice.
pub proof fn lemma_all_mismatches_reported(lh: Seq<u32>, rh: Seq<u32>)
    requires
        lh.len() == rh.len(),
        lh.len() % 2 == 0,
        forall|m: int|
            #![trigger lh[m], rh[m]]
            lh.len() / 2 <= m < lh.len() && lh[m] != rh[m] ==> (forall|a: int|
                #![trigger on_path(a, m)]
                1 <= a <= m && on_path(a, m) ==> lh[a] != rh[a]),
    ensures
        forall|m: int|
            #![trigger lh[m], rh[m]]
            lh.len() / 2 <= m < lh.len() ==> (diff_ids(lh, rh, 1).contains(m) <==> lh[m]
                != rh[m]),
        diff_ids(lh, rh, 1).no_duplicates(),
{
    lemma_diff_no_dup(lh, rh, 1);
    assert forall|m: int|
        #![trigger lh[m], rh[m]]
        lh.len() / 2 <= m < lh.len() implies (diff_ids(lh, rh, 1).contains(m) <==> lh[m]
        != rh[m]) by {
        if lh[m] != rh[m] {
            lemma_mismatched_leaf_reported(lh, rh, m);
        } else {
            lemma_untouched_leaf_not_reported(lh, rh, m);
        }
    }
}

proof fn lemma_single_mismatch_from(lh: Seq<u32>, rh: Seq<u32>, k: int, m: int)
    requires
        lh.len() == rh.len(),
        lh.len() % 2 == 0,
        1 <= k,
        on_path(k, m),
        lh.len() / 2 <= m < lh.len(),
        forall|j: int| lh.len() / 2 <= j < lh.len() && j != m ==> lh[j] == #[trigger] rh[j],
        forall|a: int| #![trigger on_path(a, m)] 1 <= a <= m && on_path(a, m) ==> lh[a] != rh[a],
    ensures
        diff_ids(lh, rh, k) =~= seq![m],
    decreases m - k,
{
    if k == m {
        assert(on_path(m, m));
        assert(lh[m] != rh[m]);
    } else {
        assert(on_path(k, m / 2));
        assert(k <= m / 2 < lh.len() / 2);
        assert(on_path(k, m));
        assert(lh[k] != rh[k]);
        lemma_on_path_child(k, m);
        let c_on: int = if on_path(2 * k + 1, m) {
            2 * k + 1
        } else {
            2 * k
        };
        let c_off: int = if on_path(2 * k + 1, m) {
            2 * k
        } else {
            2 * k + 1
        };
        lemma_single_mismatch_from(lh, rh, c_on, m);
        assert forall|j: int|
            #![trigger on_path(c_off, j)]
            lh.len() / 2 <= j < lh.len() && on_path(c_off, j) implies lh[j] == rh[j] by {
            if j == m {
                lemma_on_path_sibling(k, m);
                assert(false);
            }
        }
        lemma_subtree_equal_empty(lh, rh, c_off);
        assert(diff_ids(lh, rh, k) == diff_ids(lh, rh, 2 * k + 1) + diff_ids(lh, rh, 2 * k));
    }
}

/// A single perturbed cell: when exactly one leaf position differs between
/// the two digest arrays, and the digests differ along that leaf's whole
/// root path (no internal collision masks it), the traversal reports
/// exactly that one position.
pub proof fn lemma_single_mismatch(lh: Seq<u32>, rh: Seq<u32>, m: int)
    requires
        lh.len() == rh.len(),
        lh.len() % 2 == 0,
        lh.len() / 2 <= m < lh.len(),
        forall|j: int| lh.len() / 2 <= j < lh.len() && j != m ==> lh[j] == #[trigger] rh[j],
        forall|a: int| #![trigger on_path(a, m)] 1 <= a <= m && on_path(a, m) ==> lh[a] != rh[a],
    ensures
        diff_ids(lh, rh, 1) =~= seq![m],
{
    lemma_on_path_root(m);
    lemma_single_mismatch_from(lh, rh, 1, m);
}

/// Every mismatched leaf digest on either side resolves through the store
/// to a decodable cell encoding.
pub open spec fn leaves_resolvable(m: Map<u32, Seq<u8>>, lh: Seq<u32>, rh: Seq<u32>) -> bool {
    forall|k: int|
        #![trigger lh[k], rh[k]]
        lh.len() / 2 <= k < lh.len() && lh[k] != rh[k] ==> m.contains_key(lh[k])
            && m.contains_key(rh[k]) && valid_cell_bytes(m[lh[k]]) && valid_cell_bytes(m[rh[k]])
}

/// The difference `d` is what decoding the stored cells behind leaf `k`
/// yields: identifying fields and left value from the left cell, right
/// value from the right cell.
pub open spec fn diff_matches(
    m: Map<u32, Seq<u8>>,
    lh: Seq<u32>,
    rh: Seq<u32>,
    k: int,
    d: Difference,
) -> bool {
    let lb = m[lh[k]];
    let rb = m[rh[k]];
    &&& d.row_id@ == decoded_row(lb)
    &&& d.col_name@ == decoded_col(lb)
    &&& d.left_value@ == decoded_value(lb)
    &&& d.right_value@ == decoded_value(rb)
}

/// The differ over two trees sharing one store.
pub struct Differ;

impl Differ {
    /// Report every leaf-level mismatch the pruning traversal finds, in
    /// traversal order, decoded back to cell content through the store.
    ///
    /// Trees of unequal array length are an alignment violation: a fatal
    /// caller-contract breach, excluded here by precondition and surfaced
    /// to users as the comparison pipeline's alignment error before any
    /// traversal starts, so no partial result is ever produced. Likewise a
    /// mismatched leaf digest with no decodable store entry would be an
    /// internal invariant breach; the precondition states the invariant the
    /// builder establishes.
    pub fn get_differences<S: Store>(
        store: &S,
        left: &MerkleTree,
        right: &MerkleTree,
    ) -> (r: Vec<Difference>)
        requires
            left.hashes@.len() == right.hashes@.len(),
            left.hashes@.len() < usize::MAX,
            leaves_resolvable(store.contents(), left.hashes@, right.hashes@),
        ensures
            r@.len() == diff_ids(left.hashes@, right.hashes@, 1).len(),
            forall|j: int|
                0 <= j < r@.len() ==> diff_matches(
                    store.contents(),
                    left.hashes@,
                    right.hashes@,
                    diff_ids(left.hashes@, right.hashes@, 1)[j],
                    #[trigger] r@[j],
                ),
    {
        let ghost lh = left.hashes@;
        let ghost rh = right.hashes@;
        let ghost total = diff_ids(lh, rh, 1);
        let length = left.hashes.len();
        let leaf_index = length / 2;

        let mut queue: Vec<usize> = Vec::new();
        let mut differences: Vec<Difference> = Vec::new();
        let root_index: usize = 1;
        queue.push(root_index);
        proof {
            assert(queue@.last() == 1usize);
            assert(queue@.drop_last() =~= Seq::<usize>::empty());
            assert(pending_ids(lh, rh, Seq::<usize>::empty()) == Seq::<int>::empty());
            assert(pending_ids(lh, rh, queue@) == diff_ids(lh, rh, 1) + Seq::<int>::empty());
            assert(diff_ids(lh, rh, 1) + Seq::<int>::empty() =~= total);
            assert(total.skip(0) =~= total);
        }

        #[verifier::loop_isolation(false)]
        while queue.len() > 0
            invariant
                forall|j: int| 0 <= j < queue@.len() ==> queue@[j] >= 1,
                differences@.len() <= total.len(),
                pending_ids(lh, rh, queue@) == total.skip(differences@.len() as int),
                forall|j: int|
                    0 <= j < differences@.len() ==> diff_matches(
                        store.contents(),
                        lh,
                        rh,
                        total[j],
                        #[trigger] differences@[j],
                    ),
            decreases queue_weight(length as int, queue@), queue@.len(),
        {
            let ghost q0 = queue@;
            let ghost n = differences@.len() as int;
            let index = match queue.pop() {
                Some(i) => i,
                None => {
                    proof {
                        assert(false);
                    }
                    1
                },
            };
            proof {
                assert(queue@ =~= q0.drop_last());
                assert(index == q0.last());
                assert(pending_ids(lh, rh, q0) == diff_ids(lh, rh, index as int) + pending_ids(
                    lh,
                    rh,
                    queue@,
                ));
                assert(queue_weight(length as int, q0) == subtree_weight(
                    length as int,
                    index as int,
                ) + queue_weight(length as int, queue@));
            }
            if index < length && left.hashes[index] != right.hashes[index] {
                if index >= leaf_index {
                    proof {
                        assert(diff_ids(lh, rh, index as int) =~= seq![index as int]);
                        assert(total.skip(n) == seq![index as int] + pending_ids(lh, rh, queue@));
                        assert(total.skip(n).len() > 0);
                        assert(total.skip(n)[0] == index as int);
                        assert(total.skip(n)[0] == total[n]);
                        assert(total[n] == index as int);
                        assert(total.skip(n).drop_first() =~= pending_ids(lh, rh, queue@));
                        assert(total.skip(n).drop_first() =~= total.skip(n + 1));
                        assert(subtree_weight(length as int, index as int) == 1);
                    }
                    let l_bytes = match store.get(&left.hashes[index]) {
                        Some(b) => b,
                        None => {
                            proof {
                                assert(false);
                            }
                            Vec::new()
                        },
                    };
                    let r_bytes = match store.get(&right.hashes[index]) {
                        Some(b) => b,
                        None => {
                            proof {
                                assert(false);
                            }
                            Vec::new()
                        },
                    };
                    let (rowid, lcolumn, lvalue) = match decode_cell(&l_bytes) {
                        Some(t) => t,
                        None => {
                            proof {
                                assert(false);
                            }
                            (String::new(), String::new(), String::new())
                        },
                    };
                    let rvalue = match decode_cell(&r_bytes) {
                        Some(t) => t.2,
                        None => {
                            proof {
                                assert(false);
                            }
                            String::new()
                        },
                    };
                    let difference = Difference {
                        row_id: rowid,
                        left_value: lvalue,
                        right_value: rvalue,
                        col_name: lcolumn,
                    };
                    differences.push(difference);
                } else {
                    let half = index * 2;
                    queue.push(half);
                    proof {
                        lemma_pending_push(lh, rh, q0.drop_last(), half);
                    }
                    queue.push(half + 1);
                    proof {
                        lemma_pending_push(lh, rh, q0.drop_last().push(half), (half + 1) as usize);
                        assert(diff_ids(lh, rh, index as int) == diff_ids(lh, rh, 2 * index + 1)
                            + diff_ids(lh, rh, 2 * index));
                        assert(pending_ids(lh, rh, queue@) =~= total.skip(n));
                        assert(subtree_weight(length as int, index as int) == 1 + subtree_weight(
                            length as int,
                            2 * index + 1,
                        ) + subtree_weight(length as int, 2 * index));
                    }
                }
            } else {
                proof {
                    assert(diff_ids(lh, rh, index as int) =~= Seq::<int>::empty());
                    assert(pending_ids(lh, rh, queue@) == total.skip(n));
                    if (index as int) < length as int {
                        assert(subtree_weight(length as int, index as int) >= 1);
                    }
                }
            }
        }
        proof {
            assert(pending_ids(lh, rh, queue@) =~= Seq::<int>::empty());
            assert(total.skip(differences@.len() as int).len() == 0);
        }
        differences
    }
}

} // verus!

