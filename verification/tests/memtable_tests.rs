use lsm_kv::memtable::{MemTable, Value};
use lsm_kv::keys::{compare_keys, KeyOrder};

#[test]
fn put_and_get() {
    let mut mt = MemTable::new();
    mt.put(b"hello".to_vec(), b"world".to_vec());
    assert_eq!(mt.get(b"hello"), Some(&Value::Put(b"world".to_vec())));
    assert_eq!(mt.get(b"missing"), None);
}

#[test]
fn put_overwrite_updates_size() {
    let mut mt = MemTable::new();
    mt.put(b"k".to_vec(), b"v1".to_vec());
    let s1 = mt.approximate_size();
    mt.put(b"k".to_vec(), b"vv2".to_vec());
    assert_eq!(mt.approximate_size(), s1 + 1);
}

#[test]
fn delete_writes_tombstone() {
    let mut mt = MemTable::new();
    mt.put(b"k".to_vec(), b"v".to_vec());
    mt.delete(b"k".to_vec());
    assert_eq!(mt.get(b"k"), Some(&Value::Tombstone));
}

#[test]
fn iter_yields_sorted_order() {
    let mut mt = MemTable::new();
    mt.put(b"c".to_vec(), b"3".to_vec());
    mt.put(b"a".to_vec(), b"1".to_vec());
    mt.put(b"b".to_vec(), b"2".to_vec());
    let keys: Vec<&Vec<u8>> = mt.iter().iter().map(|(k, _)| k).collect();
    assert_eq!(keys, vec![&b"a".to_vec(), &b"b".to_vec(), &b"c".to_vec()]);
}

#[test]
fn size_counts_keys_and_values() {
    let mut mt = MemTable::new();
    assert_eq!(mt.approximate_size(), 0);
    assert!(mt.is_empty());
    mt.put(b"ab".to_vec(), b"xyz".to_vec());
    assert_eq!(mt.approximate_size(), 5);
    mt.delete(b"ab".to_vec());
    assert_eq!(mt.approximate_size(), 2);
    mt.delete(b"q".to_vec());
    assert_eq!(mt.approximate_size(), 3);
    assert_eq!(mt.len(), 2);
    assert!(!mt.is_empty());
}

#[test]
fn encoded_size_of_values() {
    assert_eq!(Value::Put(b"abcd".to_vec()).encoded_size(), 4);
    assert_eq!(Value::Tombstone.encoded_size(), 0);
    let v = Value::Put(b"q".to_vec());
    assert_eq!(v.clone(), v);
}

#[test]
fn default_is_empty() {
    let mt = MemTable::default();
    assert!(mt.is_empty());
    assert_eq!(mt.len(), 0);
}

#[test]
fn keys_order_bytewise() {
    assert_eq!(compare_keys(b"a", b"b"), KeyOrder::Less);
    assert_eq!(compare_keys(b"ab", b"a"), KeyOrder::Greater);
    assert_eq!(compare_keys(b"", b""), KeyOrder::Equal);
    assert_eq!(compare_keys(b"", b"\x00"), KeyOrder::Less);
    assert_eq!(compare_keys(b"\xff", b"\x01\x02"), KeyOrder::Greater);
}
