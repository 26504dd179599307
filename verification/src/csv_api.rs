//! The comparison pipeline over two cell sequences: build one hash tree per
//! side against a shared store, then run the pruning differ.

use vstd::prelude::*;
use crate::Column;
use crate::Data;
use crate::Record;
use crate::lemma_encoding_valid;
use crate::differ::Differ;
use crate::differ::Difference;
use crate::differ::diff_ids;
use crate::differ::diff_matches;
use crate::differ::leaves_resolvable;
use crate::hash::DataHasher;
use crate::hash::MurmurHasher;
use crate::merkle::MerkleTree;
use crate::merkle::lemma_next_pow2_props;
use crate::merkle::lemma_store_extend_facts;
use crate::merkle::next_pow2_spec;
use crate::merkle::padded_digests;
use crate::merkle::store_extend;
use crate::merkle::tree_digests;
use crate::store::Store;
use crate::store::hashmap::HashMapStore;

verus! {

/// The failure a comparison can report: the two datasets hold different
/// numbers of cells, so no positional pairing between them is meaningful.
#[derive(Debug, PartialEq, Eq, Structural)]
pub enum CompareError {
    AlignmentViolation,
}

/// The digest array of the hash tree built over `items` with the murmur3
/// hasher.
pub open spec fn spec_tree(items: Seq<Column>) -> Seq<u32> {
    tree_digests(MurmurHasher, padded_digests(items, MurmurHasher))
}

/// The store contents after building both trees into an initially empty
/// store: first every left cell, then every right cell.
pub open spec fn spec_store(left: Seq<Column>, right: Seq<Column>) -> Map<u32, Seq<u8>> {
    store_extend(
        store_extend(Map::<u32, Seq<u8>>::empty(), left, MurmurHasher),
        right,
        MurmurHasher,
    )
}

/// The columns of a record sequence, flattened in order.
pub open spec fn flat_columns(records: Seq<Record>) -> Seq<Column>
    decreases records.len(),
{
    if records.len() == 0 {
        Seq::empty()
    } else {
        flat_columns(records.drop_last()) + records.last().data@
    }
}

/// The leaf digest of one cell under the murmur3 hasher.
pub open spec fn cell_digest(c: Column) -> u32 {
    MurmurHasher.leaf_spec(c.bytes_spec())
}

/// When some inserted cell has digest `d` with encoding `b`, and every
/// inserted cell whose digest is `d` has that same encoding (no colliding
/// cell overwrote it), the shared store resolves `d` to exactly `b`.
pub proof fn lemma_store_value_exact(left: Seq<Column>, right: Seq<Column>, d: u32, b: Seq<u8>)
    requires
        (exists|i: int|
            0 <= i < left.len() && cell_digest(#[trigger] left[i]) == d && left[i].bytes_spec()
                == b) || (exists|i: int|
            0 <= i < right.len() && cell_digest(#[trigger] right[i]) == d && right[i].bytes_spec()
                == b),
        forall|i: int|
            0 <= i < left.len() && cell_digest(#[trigger] left[i]) == d ==> left[i].bytes_spec()
                == b,
        forall|i: int|
            0 <= i < right.len() && cell_digest(#[trigger] right[i]) == d ==> right[i].bytes_spec()
                == b,
    ensures
        spec_store(left, right).contains_key(d),
        spec_store(left, right)[d] == b,
{
    let mh = MurmurHasher;
    let s1 = store_extend(Map::<u32, Seq<u8>>::empty(), left, mh);
    let s2 = spec_store(left, right);
    lemma_store_extend_facts(Map::<u32, Seq<u8>>::empty(), left, mh);
    lemma_store_extend_facts(s1, right, mh);
    if exists|i: int|
        0 <= i < left.len() && cell_digest(#[trigger] left[i]) == d && left[i].bytes_spec() == b {
        let i = choose|i: int|
            0 <= i < left.len() && cell_digest(#[trigger] left[i]) == d && left[i].bytes_spec()
                == b;
        assert(s1.contains_key(mh.leaf_spec(left[i].bytes_spec())));
        assert(s2.contains_key(d));
    } else {
        let i = choose|i: int|
            0 <= i < right.len() && cell_digest(#[trigger] right[i]) == d && right[i].bytes_spec()
                == b;
        assert(s2.contains_key(mh.leaf_spec(right[i].bytes_spec())));
    }
    if s1.contains_key(d) && s2[d] == s1[d] {
        let i = choose|i: int|
            0 <= i < left.len() && mh.leaf_spec(#[trigger] left[i].bytes_spec()) == d && s1[d]
                == left[i].bytes_spec();
        assert(cell_digest(left[i]) == d);
    } else {
        let i = choose|i: int|
            0 <= i < right.len() && mh.leaf_spec(#[trigger] right[i].bytes_spec()) == d && s2[d]
                == right[i].bytes_spec();
        assert(cell_digest(right[i]) == d);
    }
}

/// A single perturbed cell, end to end: when the two sequences agree on
/// every cell but one whose value changed, the traversal reports exactly
/// the array position of that cell, and the stored encodings behind it
/// decode to the cell's identifying fields and its two values. The
/// hypotheses on digests exclude exactly the inputs a 32-bit digest
/// collision could mask, the documented residual risk; the hypotheses on
/// the delimiter are the encoding contract's own constraint.
pub proof fn lemma_single_perturbation(left: Seq<Column>, right: Seq<Column>, i: int)
    requires
        left.len() == right.len(),
        0 <= i < left.len(),
        forall|j: int| 0 <= j < left.len() && j != i ==> left[j] == #[trigger] right[j],
        left[i].rowid@ == right[i].rowid@,
        left[i].name@ == right[i].name@,
        !left[i].rowid@.contains(':'),
        !left[i].name@.contains(':'),
        cell_digest(left[i]) != cell_digest(right[i]),
        forall|a: int|
            #![trigger crate::differ::on_path(a, 2 * next_pow2_spec(left.len()) - 1 - i)]
            1 <= a <= 2 * next_pow2_spec(left.len()) - 1 - i && crate::differ::on_path(
                a,
                2 * next_pow2_spec(left.len()) - 1 - i,
            ) ==> spec_tree(left)[a] != spec_tree(right)[a],
        forall|j: int|
            0 <= j < left.len() && (cell_digest(#[trigger] left[j]) == cell_digest(left[i])
                || cell_digest(left[j]) == cell_digest(right[i])) ==> left[j] == left[i],
        forall|j: int|
            0 <= j < right.len() && (cell_digest(#[trigger] right[j]) == cell_digest(left[i])
                || cell_digest(right[j]) == cell_digest(right[i])) ==> right[j] == right[i],
    ensures
        ({
            let m = 2 * next_pow2_spec(left.len()) - 1 - i;
            let s2 = spec_store(left, right);
            &&& diff_ids(spec_tree(left), spec_tree(right), 1) =~= seq![m]
            &&& crate::decoded_row(s2[spec_tree(left)[m]]) == left[i].rowid@
            &&& crate::decoded_col(s2[spec_tree(left)[m]]) == left[i].name@
            &&& crate::decoded_value(s2[spec_tree(left)[m]]) == left[i].value@
            &&& crate::decoded_value(s2[spec_tree(right)[m]]) == right[i].value@
        }),
{
    let mh = MurmurHasher;
    let n = left.len() as int;
    let p = next_pow2_spec(left.len()) as int;
    let m = 2 * p - 1 - i;
    let lh = spec_tree(left);
    let rh = spec_tree(right);
    let s2 = spec_store(left, right);
    lemma_next_pow2_props(left.len());
    assert(lh.len() == 2 * p && rh.len() == 2 * p);
    assert(lh[m] == padded_digests(left, mh)[i] && lh[m] == cell_digest(left[i]));
    assert(rh[m] == padded_digests(right, mh)[i] && rh[m] == cell_digest(right[i]));
    assert forall|k: int| lh.len() / 2 <= k < lh.len() && k != m implies lh[k] == #[trigger] rh[k] by {
        let j = 2 * p - 1 - k;
        assert(0 <= j < p && j != i);
        assert(lh[k] == padded_digests(left, mh)[j]);
        assert(rh[k] == padded_digests(right, mh)[j]);
        if j < n {
            assert(left[j] == right[j]);
        }
    }
    crate::differ::lemma_single_mismatch(lh, rh, m);
    lemma_store_value_exact(left, right, cell_digest(left[i]), left[i].bytes_spec());
    lemma_store_value_exact(left, right, cell_digest(right[i]), right[i].bytes_spec());
    assert(s2[lh[m]] == left[i].bytes_spec());
    crate::lemma_cell_round_trip(left[i].rowid@, left[i].name@, left[i].value@);
    crate::lemma_cell_round_trip(right[i].rowid@, right[i].name@, right[i].value@);
}

/// Identity: the tree built over a cell sequence is a function of that
/// sequence alone, so diffing trees built from identical sequences (in
/// particular, a tree against itself) yields no differences.
pub proof fn lemma_identical_sequences_no_diff(items: Seq<Column>)
    ensures
        diff_ids(spec_tree(items), spec_tree(items), 1).len() == 0,
{
    crate::differ::lemma_diff_identity(spec_tree(items), spec_tree(items));
}

/// The comparison entry points.
pub struct CsvApi {}

impl CsvApi {
    /// Compare two aligned cell sequences: build a tree over each against
    /// one shared store and report every difference the pruning traversal
    /// finds, in traversal order. Sequences of unequal cell counts are
    /// rejected as an alignment violation, never silently part-diffed.
    pub fn compare_csv(left_data: Vec<Column>, right_data: Vec<Column>) -> (r: Result<
        Vec<Difference>,
        CompareError,
    >)
        requires
            left_data@.len() <= usize::MAX / 4,
            right_data@.len() <= usize::MAX / 4,
            forall|j: int|
                0 <= j < left_data@.len() ==> (#[trigger] left_data@[j].encoding()).len()
                    < 0x1_0000_0000,
            forall|j: int|
                0 <= j < right_data@.len() ==> (#[trigger] right_data@[j].encoding()).len()
                    < 0x1_0000_0000,
        ensures
            match r {
                Ok(diffs) => {
                    &&& left_data@.len() == right_data@.len()
                    &&& diffs@.len() == diff_ids(
                        spec_tree(left_data@),
                        spec_tree(right_data@),
                        1,
                    ).len()
                    &&& forall|j: int|
                        0 <= j < diffs@.len() ==> diff_matches(
                            spec_store(left_data@, right_data@),
                            spec_tree(left_data@),
                            spec_tree(right_data@),
                            diff_ids(spec_tree(left_data@), spec_tree(right_data@), 1)[j],
                            #[trigger] diffs@[j],
                        )
                },
                Err(e) => e == CompareError::AlignmentViolation && left_data@.len()
                    != right_data@.len(),
            },
    {
        if left_data.len() != right_data.len() {
            return Err(CompareError::AlignmentViolation);
        }
        let mut store = HashMapStore::default();
        let hasher = MurmurHasher::default();
        let left_merkle = MerkleTree::from_coll(&left_data, &mut store, &hasher);
        let right_merkle = MerkleTree::from_coll(&right_data, &mut store, &hasher);
        proof {
            let mh = MurmurHasher;
            let n = left_data@.len() as int;
            let p = next_pow2_spec(left_data@.len()) as int;
            let lh = spec_tree(left_data@);
            let rh = spec_tree(right_data@);
            let s2 = spec_store(left_data@, right_data@);
            let s1 = store_extend(Map::<u32, Seq<u8>>::empty(), left_data@, mh);
            lemma_next_pow2_props(left_data@.len());
            assert(store.contents() == s2);
            assert(lh.len() == 2 * p && rh.len() == 2 * p);
            lemma_store_extend_facts(Map::<u32, Seq<u8>>::empty(), left_data@, mh);
            lemma_store_extend_facts(s1, right_data@, mh);
            assert forall|k: int|
                #![trigger lh[k], rh[k]]
                lh.len() / 2 <= k < lh.len() && lh[k] != rh[k] implies s2.contains_key(lh[k])
                && s2.contains_key(rh[k]) && crate::valid_cell_bytes(s2[lh[k]])
                && crate::valid_cell_bytes(s2[rh[k]]) by {
                let i = 2 * p - 1 - k;
                assert(p <= k < 2 * p);
                assert(0 <= i < p);
                assert(lh[k] == padded_digests(left_data@, mh)[i]);
                assert(rh[k] == padded_digests(right_data@, mh)[i]);
                if i >= n {
                    assert(lh[k] == 0u32 && rh[k] == 0u32);
                    assert(false);
                }
                assert(lh[k] == mh.leaf_spec(left_data@[i].bytes_spec()));
                assert(rh[k] == mh.leaf_spec(right_data@[i].bytes_spec()));
                assert(s1.contains_key(lh[k]));
                assert(s2.contains_key(lh[k]));
                assert(s2.contains_key(rh[k]));
                assert(crate::valid_cell_bytes(s2[lh[k]])) by {
                    Self::lemma_store_value_valid(s1, right_data@, left_data@, lh[k]);
                }
                assert(crate::valid_cell_bytes(s2[rh[k]])) by {
                    Self::lemma_store_value_valid(s1, right_data@, left_data@, rh[k]);
                }
            }
            assert(leaves_resolvable(store.contents(), left_merkle.hashes@, right_merkle.hashes@));
        }
        let differences = Differ::get_differences(&store, &left_merkle, &right_merkle);
        Ok(differences)
    }

    /// Every value held by the doubly extended store is some cell's
    /// encoding, hence a valid cell.
    proof fn lemma_store_value_valid(
        s1: Map<u32, Seq<u8>>,
        right: Seq<Column>,
        left: Seq<Column>,
        key: u32,
    )
        requires
            s1 == store_extend(Map::<u32, Seq<u8>>::empty(), left, MurmurHasher),
            store_extend(s1, right, MurmurHasher).contains_key(key),
        ensures
            crate::valid_cell_bytes(store_extend(s1, right, MurmurHasher)[key]),
    {
        let mh = MurmurHasher;
        let s2 = store_extend(s1, right, mh);
        lemma_store_extend_facts(Map::<u32, Seq<u8>>::empty(), left, mh);
        lemma_store_extend_facts(s1, right, mh);
        if s1.contains_key(key) && s2[key] == s1[key] {
            let i = choose|i: int|
                0 <= i < left.len() && mh.leaf_spec(#[trigger] left[i].bytes_spec()) == key
                    && s1[key] == left[i].bytes_spec();
            lemma_encoding_valid(left[i].rowid@, left[i].name@, left[i].value@);
        } else {
            let i = choose|i: int|
                0 <= i < right.len() && mh.leaf_spec(#[trigger] right[i].bytes_spec()) == key
                    && s2[key] == right[i].bytes_spec();
            lemma_encoding_valid(right[i].rowid@, right[i].name@, right[i].value@);
        }
    }

    /// Flatten read records into the single ordered cell sequence the tree
    /// builder consumes.
    pub fn collect_columns(records: &Vec<Record>) -> (r: Vec<Column>)
        ensures
            r@ == flat_columns(records@),
    {
        let mut data: Vec<Column> = Vec::new();
        let mut i: usize = 0;
        while i < records.len()
            invariant
                i <= records@.len(),
                data@ == flat_columns(records@.subrange(0, i as int)),
            decreases records@.len() - i,
        {
            let row = &records[i];
            let mut j: usize = 0;
            while j < row.data.len()
                invariant
                    i < records@.len(),
                    j <= row.data@.len(),
                    row == &records[i as int],
                    data@ == flat_columns(records@.subrange(0, i as int)) + row.data@.subrange(
                        0,
                        j as int,
                    ),
                decreases row.data@.len() - j,
            {
                let col = &row.data[j];
                data.push(
                    Column {
                        rowid: col.rowid.clone(),
                        name: col.name.clone(),
                        value: col.value.clone(),
                    },
                );
                j = j + 1;
                assert(data@ =~= flat_columns(records@.subrange(0, i as int)) + row.data@.subrange(
                    0,
                    j as int,
                ));
            }
            i = i + 1;
            proof {
                let prefix = records@.subrange(0, i as int);
                assert(prefix.drop_last() =~= records@.subrange(0, i as int - 1));
                assert(prefix.last() == records@[i as int - 1]);
                assert(row.data@.subrange(0, row.data@.len() as int) =~= row.data@);
                assert(data@ =~= flat_columns(records@.subrange(0, i as int)));
            }
        }
        proof {
            assert(records@.subrange(0, records@.len() as int) =~= records@);
        }
        data
    }
}

} // verus!
