use lsm_kv::memtable::Value;
use lsm_kv::wal::Wal;

fn log_of(ops: &[(&[u8], Option<&[u8]>)]) -> Vec<u8> {
    let mut wal = Wal::new();
    for (k, v) in ops {
        match v {
            Some(v) => wal.append_put(k, v),
            None => wal.append_delete(k),
        }
    }
    wal.take_pending()
}

#[test]
fn write_and_replay_roundtrip() {
    let mut wal = Wal::new();
    wal.append_put(b"a", b"1");
    wal.append_put(b"b", b"2");
    wal.append_delete(b"a");
    let bytes = wal.take_pending();

    let (mt, _) = Wal::replay(&bytes);
    assert_eq!(mt.get(b"a"), Some(&Value::Tombstone));
    assert_eq!(mt.get(b"b"), Some(&Value::Put(b"2".to_vec())));
}

#[test]
fn replay_handles_torn_tail() {
    let mut wal = Wal::new();
    wal.append_put(b"k1", b"v1");
    wal.append_put(b"k2", b"v2");
    let bytes = wal.take_pending();

    let len = bytes.len();
    let torn = &bytes[..len - 3];

    let (mt, valid) = Wal::replay(torn);
    assert_eq!(valid, 4 + 9 + 2 + 2);
    assert_eq!(mt.get(b"k1"), Some(&Value::Put(b"v1".to_vec())));
    assert_eq!(mt.get(b"k2"), None);
}

#[test]
fn record_layout_and_checksum() {
    let bytes = log_of(&[(b"key", Some(b"vv"))]);
    let payload = [3u8, 0, 0, 0, 2, 0, 0, 0, 0, b'k', b'e', b'y', b'v', b'v'];
    assert_eq!(bytes.len(), 4 + payload.len());
    assert_eq!(&bytes[4..], &payload[..]);
    assert_eq!(&bytes[..4], &crc32fast::hash(&payload).to_le_bytes()[..]);

    let del = log_of(&[(b"key", None)]);
    let payload = [3u8, 0, 0, 0, 0, 0, 0, 0, 1, b'k', b'e', b'y'];
    assert_eq!(&del[4..], &payload[..]);
    assert_eq!(&del[..4], &crc32fast::hash(&payload).to_le_bytes()[..]);
}

#[test]
fn replay_stops_at_bad_checksum() {
    let mut bytes = log_of(&[(b"a", Some(b"1")), (b"b", Some(b"2")), (b"c", Some(b"3"))]);
    // Flip a byte of the second record's value.
    let second = 4 + 9 + 2;
    bytes[second + 4 + 9 + 1] ^= 0xff;
    let (mt, valid) = Wal::replay(&bytes);
    assert_eq!(valid, 4 + 9 + 2);
    assert_eq!(mt.get(b"a"), Some(&Value::Put(b"1".to_vec())));
    assert_eq!(mt.get(b"b"), None);
    assert_eq!(mt.get(b"c"), None);
    assert_eq!(mt.len(), 1);
}

#[test]
fn replay_stops_at_unknown_op() {
    let good = log_of(&[(b"a", Some(b"1"))]);
    let mut payload = vec![1u8, 0, 0, 0, 0, 0, 0, 0, 7, b'z'];
    let mut bad = crc32fast::hash(&payload).to_le_bytes().to_vec();
    bad.append(&mut payload);
    let mut bytes = good.clone();
    bytes.extend_from_slice(&bad);
    bytes.extend_from_slice(&log_of(&[(b"c", Some(b"3"))]));
    let (mt, valid) = Wal::replay(&bytes);
    assert_eq!(valid, good.len());
    assert_eq!(mt.len(), 1);
    assert_eq!(mt.get(b"a"), Some(&Value::Put(b"1".to_vec())));
    assert_eq!(mt.get(b"c"), None);
}

#[test]
fn replay_of_empty_log_is_empty() {
    let (mt, valid) = Wal::replay(&[]);
    assert_eq!(valid, 0);
    assert!(mt.is_empty());
    assert_eq!(mt.approximate_size(), 0);
}

#[test]
fn replay_rebuilds_sizes() {
    let bytes = log_of(&[(b"k", Some(b"v1")), (b"k", Some(b"vv2")), (b"j", None)]);
    let (mt, _) = Wal::replay(&bytes);
    assert_eq!(mt.approximate_size(), 1 + 3 + 1);
    assert_eq!(mt.get(b"j"), Some(&Value::Tombstone));
}

#[test]
fn truncate_drops_pending() {
    let mut wal = Wal::new();
    wal.append_put(b"a", b"1");
    wal.truncate();
    assert!(wal.take_pending().is_empty());
}
