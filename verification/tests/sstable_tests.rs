use lsm_kv::memtable::Value;
use lsm_kv::sstable::{SsTableReader, SsTableWriter};
use lsm_kv::Error;

#[test]
fn write_then_read_roundtrip() {
    let mut w = SsTableWriter::create();
    w.append(b"apple", &Value::Put(b"red".to_vec()));
    w.append(b"banana", &Value::Put(b"yellow".to_vec()));
    w.append(b"cherry", &Value::Tombstone);
    let bytes = w.finish();

    let r = SsTableReader::open(bytes, "0.sst").unwrap();
    assert_eq!(r.num_entries(), 3);
    assert_eq!(r.get(b"apple").unwrap(), Some(Value::Put(b"red".to_vec())));
    assert_eq!(
        r.get(b"banana").unwrap(),
        Some(Value::Put(b"yellow".to_vec()))
    );
    assert_eq!(r.get(b"cherry").unwrap(), Some(Value::Tombstone));
    assert_eq!(r.get(b"durian").unwrap(), None);
}

#[test]
fn binary_search_finds_middle_keys() {
    let mut w = SsTableWriter::create();
    for i in 0..1000u32 {
        let key = format!("key{:05}", i);
        let value = format!("value{}", i);
        w.append(key.as_bytes(), &Value::Put(value.into_bytes()));
    }
    let bytes = w.finish();

    let r = SsTableReader::open(bytes, "0.sst").unwrap();
    assert_eq!(
        r.get(b"key00500").unwrap(),
        Some(Value::Put(b"value500".to_vec()))
    );
    assert_eq!(
        r.get(b"key00999").unwrap(),
        Some(Value::Put(b"value999".to_vec()))
    );
    assert_eq!(r.get(b"key99999").unwrap(), None);
}

fn two_entry_table() -> Vec<u8> {
    let mut w = SsTableWriter::create();
    w.append(b"a", &Value::Put(b"1".to_vec()));
    w.append(b"b", &Value::Tombstone);
    w.finish()
}

#[test]
fn table_layout() {
    let bytes = two_entry_table();
    // data: 4+9+1+1 and 4+9+1; index: (4+1+8) * 2; footer: 16
    assert_eq!(bytes.len(), 15 + 14 + 26 + 16);
    let n = bytes.len();
    assert_eq!(&bytes[n - 16..n - 8], &29u64.to_le_bytes()[..]);
    assert_eq!(&bytes[n - 8..], &2u64.to_le_bytes()[..]);
    assert_eq!(&bytes[29..33], &1u32.to_le_bytes()[..]);
    assert_eq!(bytes[33], b'a');
    assert_eq!(&bytes[34..42], &0u64.to_le_bytes()[..]);
    assert_eq!(&bytes[0..4], &crc32fast::hash(&bytes[4..15]).to_le_bytes()[..]);
}

#[test]
fn empty_table_roundtrip() {
    let bytes = SsTableWriter::create().finish();
    assert_eq!(bytes.len(), 16);
    let r = SsTableReader::open(bytes, "e.sst").unwrap();
    assert_eq!(r.num_entries(), 0);
    assert_eq!(r.get(b"x").unwrap(), None);
}

#[test]
fn open_rejects_short_file() {
    match SsTableReader::open(vec![0u8; 15], "short.sst") {
        Err(Error::Corruption(msg)) => {
            assert_eq!(msg, format!("SSTable 檔案 {:?} 太小，無法包含 footer", "short.sst"))
        }
        _ => panic!("expected corruption"),
    }
}

#[test]
fn open_rejects_index_offset_past_footer() {
    let mut bytes = vec![0u8; 16];
    bytes[..8].copy_from_slice(&1u64.to_le_bytes());
    match SsTableReader::open(bytes, "bad.sst") {
        Err(Error::Corruption(msg)) => assert_eq!(msg, "index_offset 超出檔案範圍"),
        _ => panic!("expected corruption"),
    }
}

#[test]
fn open_reports_truncated_index_as_io() {
    let mut bytes = two_entry_table();
    let n = bytes.len();
    // Claim more entries than the index holds.
    bytes[n - 8..].copy_from_slice(&50u64.to_le_bytes());
    match SsTableReader::open(bytes, "t.sst") {
        Err(Error::Io(e)) => assert_eq!(e.kind(), std::io::ErrorKind::UnexpectedEof),
        _ => panic!("expected an I/O error"),
    }
}

#[test]
fn get_reports_checksum_failure() {
    let mut bytes = two_entry_table();
    bytes[14] ^= 0x01; // the value byte of the first record
    let r = SsTableReader::open(bytes, "dir/c \"1\".sst").unwrap();
    match r.get(b"a") {
        Err(Error::Corruption(msg)) => assert_eq!(
            msg,
            format!("SSTable {:?} 在 offset {} 的 entry 校驗失敗", "dir/c \"1\".sst", 0)
        ),
        _ => panic!("expected corruption"),
    }
    assert_eq!(r.get(b"b").unwrap(), Some(Value::Tombstone));
}

#[test]
fn get_reports_offset_past_end_as_io() {
    let mut bytes = two_entry_table();
    // Point the first index item far past the end of the file.
    bytes[34..42].copy_from_slice(&1000u64.to_le_bytes());
    let r = SsTableReader::open(bytes, "o.sst").unwrap();
    match r.get(b"a") {
        Err(Error::Io(_)) => {}
        _ => panic!("expected an I/O error"),
    }
}

#[test]
fn get_reports_key_mismatch() {
    let mut bytes = two_entry_table();
    // Point the index item of "a" at the record of "b".
    bytes[34..42].copy_from_slice(&15u64.to_le_bytes());
    let r = SsTableReader::open(bytes, "m.sst").unwrap();
    match r.get(b"a") {
        Err(Error::Corruption(msg)) => assert_eq!(msg, "SSTable index 與 entry 的 key 不一致"),
        _ => panic!("expected corruption"),
    }
}

#[test]
fn error_messages() {
    assert_eq!(Error::KeyNotFound.message(), "Key not found");
    assert_eq!(Error::Corruption("x".to_string()).message(), "Data corruption: x");
    let e: Error = std::io::Error::new(std::io::ErrorKind::Other, "boom").into();
    assert_eq!(e.message(), "IO error: boom");
}

#[test]
fn get_reports_unknown_tag() {
    let payload = [1u8, 0, 0, 0, 0, 0, 0, 0, 123, b'a'];
    let mut bytes = crc32fast::hash(&payload).to_le_bytes().to_vec();
    bytes.extend_from_slice(&payload);
    bytes.extend_from_slice(&1u32.to_le_bytes());
    bytes.push(b'a');
    bytes.extend_from_slice(&0u64.to_le_bytes());
    bytes.extend_from_slice(&14u64.to_le_bytes());
    bytes.extend_from_slice(&1u64.to_le_bytes());
    let r = SsTableReader::open(bytes, "u.sst").unwrap();
    match r.get(b"a") {
        Err(Error::Corruption(msg)) => assert_eq!(msg, "SSTable 內未知 tag: 123"),
        _ => panic!("expected corruption"),
    }
}

#[test]
fn checksum_message_gives_offset_in_decimal() {
    let mut bytes = two_entry_table();
    bytes[15 + 13] ^= 0x01; // the key byte of the second record
    let r = SsTableReader::open(bytes, "t.sst").unwrap();
    match r.get(b"b") {
        Err(Error::Corruption(msg)) => {
            assert_eq!(msg, format!("SSTable {:?} 在 offset {} 的 entry 校驗失敗", "t.sst", 15u64))
        }
        _ => panic!("expected corruption"),
    }
}
