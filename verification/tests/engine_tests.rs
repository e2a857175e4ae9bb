use lsm_kv::engine::{LsmEngine, TableFile, DEFAULT_MEMTABLE_FLUSH_BYTES};
use lsm_kv::wal::Wal;
use lsm_kv::engine::{materialize, table_file_id};
use lsm_kv::memtable::Value;

/// The name of the file of table `id`, as text.
fn table_file_name(id: u64) -> String {
    String::from_utf8(lsm_kv::engine::table_file_name(id)).unwrap()
}

/// The files a store keeps: its tables by number, and its log.
#[derive(Clone, Default)]
struct Disk {
    tables: Vec<(u64, Vec<u8>)>,
    wal: Vec<u8>,
}

/// A store over an in-memory disk, driven as a program drives it over files.
struct Db {
    disk: Disk,
    wal: Wal,
    engine: LsmEngine,
}

impl Db {
    fn open(disk: Disk) -> Db {
        Db::open_with_threshold(disk, DEFAULT_MEMTABLE_FLUSH_BYTES)
    }

    fn open_with_threshold(disk: Disk, threshold: usize) -> Db {
        let files = disk
            .tables
            .iter()
            .map(|(id, bytes)| TableFile { id: *id, bytes: bytes.clone(), name: table_file_name(*id) })
            .collect();
        let mut disk = disk;
        let engine = LsmEngine::open_with_threshold("db/", files, &disk.wal, threshold).unwrap();
        disk.wal.truncate(engine.recovered_log_len());
        Db { disk, wal: Wal::new(), engine }
    }

    /// Stores the memtable as a table, as a program does: the table file
    /// first, then the engine installs what the file holds, then the log
    /// is emptied.
    fn store_table(&mut self) {
        assert!(self.engine.accepts_flush());
        let t = self.engine.flush_table();
        assert_eq!(t.file_name, table_file_name(t.id));
        self.disk.tables.push((t.id, t.bytes.clone()));
        self.engine.install_table(t.bytes).unwrap();
        self.wal.truncate();
        self.disk.wal.clear();
    }

    fn put(&mut self, key: &[u8], value: &[u8]) {
        assert!(self.engine.accepts_write(key, value.len()));
        self.wal.append_put(key, value);
        self.disk.wal.extend_from_slice(&self.wal.take_pending());
        self.engine.put(key, value);
        if self.engine.needs_flush() {
            self.store_table();
        }
    }

    fn delete(&mut self, key: &[u8]) {
        assert!(self.engine.accepts_write(key, 0));
        self.wal.append_delete(key);
        self.disk.wal.extend_from_slice(&self.wal.take_pending());
        self.engine.delete(key);
        if self.engine.needs_flush() {
            self.store_table();
        }
    }

    fn flush(&mut self) {
        if let Some(t) = self.engine.flush().unwrap() {
            self.disk.tables.push((t.id, t.bytes));
            self.wal.truncate();
            self.disk.wal.clear();
        }
    }

    fn get(&self, key: &[u8]) -> Option<Vec<u8>> {
        self.engine.get(key).unwrap()
    }

    fn num_sstables(&self) -> usize {
        self.engine.num_sstables()
    }
}

#[test]
fn put_get_basic() {
    let mut db = Db::open(Disk::default());
    db.put(b"hello", b"world");
    assert_eq!(db.get(b"hello"), Some(b"world".to_vec()));
    assert_eq!(db.get(b"missing"), None);
}

#[test]
fn delete_hides_value() {
    let mut db = Db::open(Disk::default());
    db.put(b"k", b"v");
    db.delete(b"k");
    assert_eq!(db.get(b"k"), None);
}

#[test]
fn survives_restart_via_wal() {
    let disk = {
        let mut db = Db::open(Disk::default());
        db.put(b"persist", b"yes");
        db.put(b"second", b"value");
        db.disk.clone()
    };
    let db = Db::open(disk);
    assert_eq!(db.get(b"persist"), Some(b"yes".to_vec()));
    assert_eq!(db.get(b"second"), Some(b"value".to_vec()));
}

#[test]
fn flush_creates_sstable_and_reads_still_work() {
    let mut db = Db::open(Disk::default());
    db.put(b"a", b"1");
    db.put(b"b", b"2");
    db.flush();
    assert_eq!(db.num_sstables(), 1);
    assert_eq!(db.get(b"a"), Some(b"1".to_vec()));
    db.put(b"a", b"1-new");
    assert_eq!(db.get(b"a"), Some(b"1-new".to_vec()));
}

#[test]
fn newer_sstable_overrides_older() {
    let mut db = Db::open(Disk::default());
    db.put(b"k", b"v1");
    db.flush();
    db.put(b"k", b"v2");
    db.flush();
    assert_eq!(db.num_sstables(), 2);
    assert_eq!(db.get(b"k"), Some(b"v2".to_vec()));
}

#[test]
fn tombstone_in_memtable_hides_sstable_value() {
    let mut db = Db::open(Disk::default());
    db.put(b"k", b"v");
    db.flush();
    db.delete(b"k");
    assert_eq!(db.get(b"k"), None);
}

#[test]
fn restart_picks_up_existing_sstables() {
    let disk = {
        let mut db = Db::open(Disk::default());
        db.put(b"x", b"1");
        db.flush();
        db.put(b"y", b"2");
        db.flush();
        db.disk.clone()
    };
    let db = Db::open(disk);
    assert_eq!(db.num_sstables(), 2);
    assert_eq!(db.get(b"x"), Some(b"1".to_vec()));
    assert_eq!(db.get(b"y"), Some(b"2".to_vec()));
}

#[test]
fn auto_flush_triggers_when_threshold_exceeded() {
    let mut db = Db::open_with_threshold(Disk::default(), 8);
    db.put(b"aaaa", b"bbbb");
    assert!(db.num_sstables() >= 1);
}

#[test]
fn flush_of_empty_memtable_does_nothing() {
    let mut db = Db::open(Disk::default());
    db.flush();
    assert_eq!(db.num_sstables(), 0);
    assert!(db.disk.tables.is_empty());
}

#[test]
fn flush_empties_log_and_numbers_tables() {
    let mut db = Db::open(Disk::default());
    db.put(b"a", b"1");
    assert!(!db.disk.wal.is_empty());
    db.flush();
    assert!(db.disk.wal.is_empty());
    db.put(b"b", b"2");
    db.flush();
    let ids: Vec<u64> = db.disk.tables.iter().map(|(id, _)| *id).collect();
    assert_eq!(ids, vec![0, 1]);
}

#[test]
fn reopen_orders_tables_by_number() {
    let disk = {
        let mut db = Db::open(Disk::default());
        db.put(b"k", b"old");
        db.flush();
        db.put(b"k", b"new");
        db.flush();
        db.disk.clone()
    };
    let mut shuffled = disk.clone();
    shuffled.tables.reverse();
    let mut db = Db::open(shuffled);
    assert_eq!(db.get(b"k"), Some(b"new".to_vec()));
    db.put(b"z", b"1");
    db.flush();
    assert_eq!(db.disk.tables.last().unwrap().0, 2);
}

#[test]
fn restart_replays_deletes_over_tables() {
    let disk = {
        let mut db = Db::open(Disk::default());
        db.put(b"k", b"v");
        db.flush();
        db.delete(b"k");
        db.disk.clone()
    };
    let db = Db::open(disk);
    assert_eq!(db.get(b"k"), None);
}

#[test]
fn open_fails_on_corrupt_table() {
    let disk = Disk { tables: vec![(3, vec![1, 2, 3])], wal: Vec::new() };
    let files = disk
        .tables
        .iter()
        .map(|(id, bytes)| TableFile { id: *id, bytes: bytes.clone(), name: table_file_name(*id) })
        .collect();
    match LsmEngine::open_with_threshold("db/", files, &disk.wal, 100) {
        Err(lsm_kv::Error::Corruption(_)) => {}
        _ => panic!("expected corruption"),
    }
}

#[test]
fn materialize_reads_tombstone_as_absent() {
    assert_eq!(materialize(Value::Put(b"x".to_vec())), Some(b"x".to_vec()));
    assert_eq!(materialize(Value::Tombstone), None);
}

#[test]
fn table_file_ids_read_like_u64_parse() {
    let cases = [
        "00000000000000000005.sst",
        "+7.sst",
        "abc.sst",
        "5.txt",
        ".sst",
        "+.sst",
        "18446744073709551615.sst",
        "18446744073709551616.sst",
        "-1.sst",
        "wal.log",
        "12a.sst",
        "sst",
        "1.sst.sst",
    ];
    for name in cases {
        let expected = name.strip_suffix(".sst").and_then(|rest| rest.parse::<u64>().ok());
        assert_eq!(table_file_id(name), expected, "{}", name);
    }
    assert_eq!(table_file_id("00000000000000000005.sst"), Some(5));
    assert_eq!(table_file_id(&table_file_name(42)), Some(42));
    assert_eq!(table_file_name(42), format!("{:020}.sst", 42));
    assert_eq!(table_file_name(u64::MAX), format!("{:020}.sst", u64::MAX));
    assert_eq!(table_file_id(&table_file_name(u64::MAX)), Some(u64::MAX));
    assert_eq!(lsm_kv::engine::table_file_name_text(7), "00000000000000000007.sst");
}

#[test]
fn write_after_torn_log_survives_restart() {
    let mut disk = {
        let mut db = Db::open(Disk::default());
        db.put(b"a", b"1");
        db.disk.clone()
    };
    // A crash in mid-append leaves part of a record at the end of the log.
    let mut wal = Wal::new();
    wal.append_put(b"torn", b"xyz");
    let record = wal.take_pending();
    disk.wal.extend_from_slice(&record[..record.len() - 2]);
    let valid = disk.wal.len() - (record.len() - 2);

    let disk = {
        let mut db = Db::open(disk);
        assert_eq!(db.engine.recovered_log_len(), valid);
        assert_eq!(db.disk.wal.len(), valid);
        assert_eq!(db.get(b"torn"), None);
        db.put(b"b", b"2");
        db.disk.clone()
    };
    let db = Db::open(disk);
    assert_eq!(db.get(b"a"), Some(b"1".to_vec()));
    assert_eq!(db.get(b"b"), Some(b"2".to_vec()));
}

#[test]
fn maybe_flush_follows_threshold() {
    let files = Vec::new();
    let mut engine = LsmEngine::open_with_threshold("db/", files, &[], 4).unwrap();
    engine.put(b"a", b"b");
    assert!(!engine.needs_flush());
    assert!(engine.maybe_flush().unwrap().is_none());
    engine.put(b"c", b"d");
    assert!(engine.needs_flush());
    let t = engine.maybe_flush().unwrap().unwrap();
    assert_eq!(t.id, 0);
    assert_eq!(engine.num_sstables(), 1);
    assert!(engine.memtable().is_empty());
    assert_eq!(engine.next_table_id(), 1);
    assert_eq!(engine.get(b"a").unwrap(), Some(b"b".to_vec()));
}

#[test]
fn install_table_rejects_bytes_that_do_not_open() {
    let mut engine = LsmEngine::open_with_threshold("db/", Vec::new(), &[], 100).unwrap();
    engine.put(b"k", b"v");
    assert!(engine.install_table(vec![1, 2, 3]).is_err());
    assert_eq!(engine.num_sstables(), 0);
    assert_eq!(engine.get(b"k").unwrap(), Some(b"v".to_vec()));
}

#[test]
fn open_reports_the_first_failing_table() {
    let mut bad_offset = vec![0u8; 16];
    bad_offset[..8].copy_from_slice(&1u64.to_le_bytes());
    let files = vec![
        TableFile { id: 9, bytes: bad_offset, name: table_file_name(9) },
        TableFile { id: 4, bytes: vec![1, 2, 3], name: table_file_name(4) },
    ];
    match LsmEngine::open_with_threshold("db/", files, &[], 100) {
        Err(lsm_kv::Error::Corruption(msg)) => {
            assert_eq!(msg, format!("SSTable 檔案 {:?} 太小，無法包含 footer", table_file_name(4)))
        }
        _ => panic!("expected corruption"),
    }
}
