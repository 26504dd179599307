use reconnect::Column;
use reconnect::Data;
use reconnect::decode_cell;
use reconnect::hash::DataHasher;
use reconnect::hash::MurmurHasher;
use reconnect::store::Store;
use reconnect::store::hashmap::HashMapStore;

#[test]
fn test_round_trip() {
    // Encode a cell, store it under its digest, fetch it back and decode.
    let column = Column {
        rowid: "42".to_string(),
        name: "city".to_string(),
        value: "Lisbon".to_string(),
    };
    let bytes = column.to_bytes();
    let hasher = MurmurHasher::default();
    let digest = hasher.leaf(bytes.as_slice());
    let mut store = HashMapStore::default();
    store.put(digest, bytes);

    let fetched = store.get(&digest).unwrap();
    let (rowid, name, value) = decode_cell(&fetched).unwrap();
    assert_eq!(rowid, "42");
    assert_eq!(name, "city");
    assert_eq!(value, "Lisbon");
}

#[test]
fn test_round_trip_value_with_delimiter() {
    // Only the first two delimiter occurrences split fields: a delimiter
    // inside the value survives the round trip.
    let column = Column {
        rowid: "7".to_string(),
        name: "time".to_string(),
        value: "12:34:56".to_string(),
    };
    let bytes = column.to_bytes();
    let (rowid, name, value) = decode_cell(&bytes).unwrap();
    assert_eq!(rowid, "7");
    assert_eq!(name, "time");
    assert_eq!(value, "12:34:56");
}

#[test]
fn test_round_trip_unicode() {
    let column = Column {
        rowid: "9".to_string(),
        name: "note".to_string(),
        value: "héllo wörld \u{1F600}".to_string(),
    };
    let bytes = column.to_bytes();
    let (rowid, name, value) = decode_cell(&bytes).unwrap();
    assert_eq!(rowid, "9");
    assert_eq!(name, "note");
    assert_eq!(value, "héllo wörld \u{1F600}");
}

#[test]
fn test_decode_violation() {
    // Fewer than two delimiters cannot split into three fields.
    assert!(decode_cell(&b"no delimiters here".to_vec()).is_none());
    assert!(decode_cell(&b"only:one".to_vec()).is_none());
    assert!(decode_cell(&Vec::new()).is_none());
}

#[test]
fn test_encoding_layout() {
    let column = Column {
        rowid: "r".to_string(),
        name: "c".to_string(),
        value: "v".to_string(),
    };
    assert_eq!(column.to_bytes(), b"r:c:v".to_vec());
}
