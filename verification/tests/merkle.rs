use reconnect::Column;
use reconnect::Data;
use reconnect::hash::DataHasher;
use reconnect::hash::MurmurHasher;
use reconnect::store::Store;
use reconnect::merkle::MerkleTree;
use reconnect::merkle::next_pow2;
use reconnect::store::hashmap::HashMapStore;

#[test]
fn test_next_pow2() {
    assert_eq!(next_pow2(6), 8);
    assert_eq!(next_pow2(7), 8);
    assert_eq!(next_pow2(8), 8);
}

#[test]
fn test_next_pow2_edges() {
    assert_eq!(next_pow2(0), 1);
    assert_eq!(next_pow2(1), 1);
    assert_eq!(next_pow2(2), 2);
    assert_eq!(next_pow2(3), 4);
    assert_eq!(next_pow2(1025), 2048);
}

fn cell(rowid: &str, name: &str, value: &str) -> Column {
    Column { rowid: rowid.to_string(), name: name.to_string(), value: value.to_string() }
}

#[test]
fn test_tree_length() {
    // The digest array length is twice the padded leaf count: the leaves,
    // the internal nodes and root, and the index-0 placeholder.
    for (count, expected) in [(0usize, 2usize), (1, 2), (2, 4), (3, 8), (5, 16), (8, 16)] {
        let mut data = Vec::new();
        for i in 0..count {
            data.push(cell(&i.to_string(), "col", "val"));
        }
        let mut store = HashMapStore::default();
        let hasher = MurmurHasher::default();
        let merkle = MerkleTree::from_coll(&data, &mut store, &hasher);
        assert_eq!(merkle.hashes.len(), expected);
        assert_eq!(merkle.hashes[0], 0);
    }
}

#[test]
fn test_murmur_known_values() {
    let hasher = MurmurHasher::default();
    assert_eq!(hasher.leaf("hello".as_bytes()), 613153351);
    assert_eq!(hasher.leaf("world".as_bytes()), 4220927227);
    assert_eq!(hasher.node(613153351, 4220927227), 2340410264);
}

#[test]
fn test_leaf_digests_stored() {
    let data = vec![cell("1", "col1", "v1")];
    let mut store = HashMapStore::default();
    let hasher = MurmurHasher::default();
    let merkle = MerkleTree::from_coll(&data, &mut store, &hasher);
    // A one-cell tree: placeholder at 0, the leaf digest doubling as the
    // root at index 1.
    assert_eq!(merkle.hashes.len(), 2);
    let stored = store.get(&merkle.hashes[1]).expect("leaf digest must resolve");
    assert_eq!(stored, data[0].to_bytes());
}
