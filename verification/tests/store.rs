use reconnect::store::Store;
use reconnect::store::hashmap::HashMapStore;

#[test]
fn test_push_to_store() {
    let mut hstore = HashMapStore::default();
    let key1 = 123 as u32;
    let key2 = 1234 as u32;
    let key3 = 12345 as u32;

    hstore.put(key1, "hello".as_bytes().to_vec());
    hstore.put(key2, (1234 as i32).to_le_bytes().to_vec());
    hstore.put(key3, (12345 as i32).to_le_bytes().to_vec());
    let val1 = hstore.get(&key1).unwrap();
    let val2 = hstore.get(&key2).unwrap();
    let val3 = hstore.get(&key3).unwrap();

    assert_eq!("hello", String::from_utf8(val1.clone()).unwrap());
    assert_eq!(1234 as i32, i32::from_le_bytes(val2.try_into().unwrap()));
    assert_eq!(12345_i32.to_le_bytes().to_vec(), val3);
}

#[test]
fn test_get_absent() {
    let hstore = HashMapStore::default();
    assert!(hstore.get(&42).is_none());
}

#[test]
fn test_put_overwrites() {
    let mut hstore = HashMapStore::default();
    hstore.put(7, b"first".to_vec());
    hstore.put(7, b"second".to_vec());
    assert_eq!(hstore.get(&7).unwrap(), b"second".to_vec());
}
