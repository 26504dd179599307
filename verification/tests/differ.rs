use reconnect::Column;
use reconnect::differ::Differ;
use reconnect::differ::Difference;
use reconnect::hash::MurmurHasher;
use reconnect::merkle::MerkleTree;
use reconnect::store::hashmap::HashMapStore;

fn cell(rowid: &str, name: &str, value: &str) -> Column {
    Column { rowid: rowid.to_string(), name: name.to_string(), value: value.to_string() }
}

#[test]
fn differ_test_build_merkle_tree_from_iterator() {
    let left_data: Vec<Column> = vec![
        cell("1", "col1", "col1_value"),
        cell("1", "col2", "col2_value"),
        cell("1", "col3", "col3_value"),
        cell("1", "col4", "col4_value"),
        cell("2", "col1", "col1_value"),
        cell("2", "col2", "col2_value"),
        cell("2", "col3", "col3_value"),
        cell("2", "col4", "col4_value"),
    ];

    let right_data: Vec<Column> = vec![
        cell("1", "col1", "colX1_value"),
        cell("1", "col2", "col2_value"),
        cell("1", "col3", "colX3_value"),
        cell("1", "col4", "col4_value"),
        cell("2", "col1", "col1_value"),
        cell("2", "col2", "col2_value"),
        cell("2", "col3", "colXX3_value"),
        cell("2", "col4", "col4_value"),
    ];

    let mut store = HashMapStore::default();
    let hasher = MurmurHasher::default();
    let left_merkle = MerkleTree::from_coll(&left_data, &mut store, &hasher);
    let right_merkle = MerkleTree::from_coll(&right_data, &mut store, &hasher);

    let differences = Differ::get_differences(&store, &left_merkle, &right_merkle);
    println!("{:?}", &differences);

    let expected_diff_vector = vec![
        Difference {
            row_id: "1".to_string(),
            col_name: "col1".to_string(),
            left_value: "col1_value".to_string(),
            right_value: "colX1_value".to_string(),
        },
        Difference {
            row_id: "1".to_string(),
            col_name: "col3".to_string(),
            left_value: "col3_value".to_string(),
            right_value: "colX3_value".to_string(),
        },
        Difference {
            row_id: "2".to_string(),
            col_name: "col3".to_string(),
            left_value: "col3_value".to_string(),
            right_value: "colXX3_value".to_string(),
        },
    ];
    assert_eq!(&differences, &expected_diff_vector)
}

#[test]
fn test_identity_diff() {
    let data: Vec<Column> = vec![
        cell("1", "col1", "a"),
        cell("1", "col2", "b"),
        cell("2", "col1", "c"),
    ];
    let mut store = HashMapStore::default();
    let hasher = MurmurHasher::default();
    let left = MerkleTree::from_coll(&data, &mut store, &hasher);
    let right = MerkleTree::from_coll(&data, &mut store, &hasher);
    assert_eq!(left.hashes, right.hashes);
    let differences = Differ::get_differences(&store, &left, &right);
    assert!(differences.is_empty());
}

#[test]
fn test_single_perturbation() {
    let left_data: Vec<Column> = vec![
        cell("1", "col1", "a"),
        cell("1", "col2", "b"),
        cell("2", "col1", "c"),
        cell("2", "col2", "d"),
    ];
    let mut right_data: Vec<Column> = vec![
        cell("1", "col1", "a"),
        cell("1", "col2", "b"),
        cell("2", "col1", "c"),
        cell("2", "col2", "d"),
    ];
    right_data[1].value = "changed".to_string();

    let mut store = HashMapStore::default();
    let hasher = MurmurHasher::default();
    let left = MerkleTree::from_coll(&left_data, &mut store, &hasher);
    let right = MerkleTree::from_coll(&right_data, &mut store, &hasher);
    let differences = Differ::get_differences(&store, &left, &right);
    assert_eq!(
        differences,
        vec![
            Difference {
                row_id: "1".to_string(),
                col_name: "col2".to_string(),
                left_value: "b".to_string(),
                right_value: "changed".to_string(),
            },
        ]
    );
}

#[test]
fn test_last_cell_perturbation() {
    // The last input cell sits exactly on the leaf-range boundary of the
    // digest array; a mismatch there must still be reported.
    let left_data: Vec<Column> = vec![
        cell("1", "col1", "a"),
        cell("1", "col2", "b"),
        cell("2", "col1", "c"),
        cell("2", "col2", "d"),
    ];
    let mut right_data: Vec<Column> = vec![
        cell("1", "col1", "a"),
        cell("1", "col2", "b"),
        cell("2", "col1", "c"),
        cell("2", "col2", "d"),
    ];
    right_data[3].value = "changed".to_string();

    let mut store = HashMapStore::default();
    let hasher = MurmurHasher::default();
    let left = MerkleTree::from_coll(&left_data, &mut store, &hasher);
    let right = MerkleTree::from_coll(&right_data, &mut store, &hasher);
    let differences = Differ::get_differences(&store, &left, &right);
    assert_eq!(
        differences,
        vec![
            Difference {
                row_id: "2".to_string(),
                col_name: "col2".to_string(),
                left_value: "d".to_string(),
                right_value: "changed".to_string(),
            },
        ]
    );
}

#[test]
fn test_pruning_confined_subtree() {
    // Perturbations confined to the first half of the cells yield no
    // differences for the untouched second half.
    let mut left_data = Vec::new();
    for i in 0..8 {
        left_data.push(cell(&(i / 4).to_string(), &format!("col{}", i % 4), "same"));
    }
    let mut right_data = clone_cells(&left_data);
    right_data[0].value = "other".to_string();
    right_data[1].value = "other".to_string();

    let mut store = HashMapStore::default();
    let hasher = MurmurHasher::default();
    let left = MerkleTree::from_coll(&left_data, &mut store, &hasher);
    let right = MerkleTree::from_coll(&right_data, &mut store, &hasher);
    let differences = Differ::get_differences(&store, &left, &right);
    assert_eq!(differences.len(), 2);
    for d in &differences {
        assert_eq!(d.row_id, "0");
        assert_eq!(d.left_value, "same");
        assert_eq!(d.right_value, "other");
    }
}

fn clone_cells(cells: &Vec<Column>) -> Vec<Column> {
    cells
        .iter()
        .map(|c| Column { rowid: c.rowid.clone(), name: c.name.clone(), value: c.value.clone() })
        .collect()
}
