//! The engine: the memtable over a stack of tables.
//!
//! Writes go to the memtable (the caller has logged them first); once the
//! memtable's size reaches the flush threshold it becomes a new table.
//! Reads look in the memtable, then in the tables from newest to oldest,
//! and stop at the first level that knows the key; a tombstone there means
//! the key is absent.
//!
//! The engine holds table bytes in memory. A flush is done in steps: the
//! caller takes the new table's bytes and file name from `flush_table`,
//! writes and syncs the file, hands what the file holds to `install_table`,
//! and then empties the log. At start-up, the caller cuts the log file back
//! to `recovered_log_len` before appending to it, so that a record torn by
//! a crash does not hide the records written after it.

use vstd::prelude::*;
use vstd::string::StringSliceAdditionalSpecFns;
use crate::memtable::{
    lemma_entries_map_at, EntryView, MemModel, MemTable, Value, ValueView,
};
use crate::sstable::{
    data_section, entries_fit, error_is, index_of, index_sorted, lemma_data_section_prefix,
    lemma_data_section_take, lemma_table_len, lemma_table_roundtrip, open_spec, table_bytes,
    table_lookup, tag_of, value_bytes, ReadFault, SsTableReader, SsTableWriter,
};
use crate::record::lemma_record_len;
use crate::wal::{
    apply_ops, lemma_replay_log, lemma_replay_recovered_then_log, log_bytes, op_bytes, op_fits,
    replay_end, replay_from, replay_spec, LogOp, Wal, OP_DEL, OP_PUT,
};
use crate::record::{decode_record, slice_to_owned, RecordView};
use crate::Error;

verus! {

/// The flush threshold that `LsmEngine::open` uses: 1 MiB.
pub const DEFAULT_MEMTABLE_FLUSH_BYTES: usize = 1048576;

/// A table that a flush produced: the bytes to store under number `id`,
/// in the file named `file_name`.
pub struct FlushedTable {
    pub id: u64,
    pub file_name: String,
    pub bytes: Vec<u8>,
}

/// The file name a flushed table is stored under.
pub open spec fn names_table(t: FlushedTable) -> bool {
    t.file_name@ == table_name_bytes(t.id).map_values(|b: u8| b as char)
}

/// A table file found at start-up: its number, its bytes and its name.
pub struct TableFile {
    pub id: u64,
    pub bytes: Vec<u8>,
    pub name: String,
}

/// What a stored value means to a reader: bytes, or absence.
pub open spec fn materialized(v: ValueView) -> Option<Seq<u8>> {
    match v {
        ValueView::Put(b) => Some(b),
        ValueView::Tombstone => None,
    }
}

/// A table as lookups see it: its bytes and its index.
pub type TableView = (Seq<u8>, Seq<(Seq<u8>, u64)>);

/// Looks `key` up in the tables from the last (newest) to the first.
pub open spec fn tables_lookup(ts: Seq<TableView>, key: Seq<u8>) -> Result<Option<Seq<u8>>, ReadFault>
    decreases ts.len(),
{
    if ts.len() == 0 {
        Ok(None)
    } else {
        match table_lookup(ts.last().0, ts.last().1, key) {
            Ok(Some(v)) => Ok(materialized(v)),
            Ok(None) => tables_lookup(ts.drop_last(), key),
            Err(f) => Err(f),
        }
    }
}

/// A read result matches its specification.
pub open spec fn read_matches(r: Result<Option<Vec<u8>>, Error>, s: Result<Option<Seq<u8>>, ReadFault>) -> bool {
    match (r, s) {
        (Ok(Some(v)), Ok(Some(m))) => v@ == m,
        (Ok(None), Ok(None)) => true,
        (Err(e), Err(f)) => error_is(e, f),
        _ => false,
    }
}

/// Every key and value in the map fits the `u32` length fields of a record.
pub open spec fn map_fits(m: Map<Seq<u8>, ValueView>) -> bool {
    forall|k: Seq<u8>|
        #[trigger] m.contains_key(k) ==> k.len() <= u32::MAX && value_bytes(m[k]).len() <= u32::MAX
}

/// The store: a memtable over tables ordered from oldest to newest.
pub struct LsmEngine {
    memtable: MemTable,
    sstables: Vec<SsTableReader>,
    next_sst_id: u64,
    flush_threshold: usize,
    dir: String,
    recovered_log_len: usize,
    ids: Ghost<Seq<u64>>,
}

impl LsmEngine {
    /// The memtable.
    pub closed spec fn mem(&self) -> MemTable {
        self.memtable
    }

    /// The tables, oldest first.
    pub closed spec fn tables(&self) -> Seq<TableView> {
        self.sstables@.map_values(|t: SsTableReader| (t.data(), t.index()))
    }

    /// The tables with the numbers they are stored under, oldest first.
    pub closed spec fn table_images(&self) -> Seq<(u64, Seq<u8>)> {
        Seq::new(self.sstables@.len(), |i: int| (self.ids@[i], self.sstables@[i].data()))
    }

    /// The number the next flushed table gets.
    pub closed spec fn next_id(&self) -> u64 {
        self.next_sst_id
    }

    /// The length of the valid records of the log the store was opened with.
    pub closed spec fn log_len(&self) -> nat {
        self.recovered_log_len as nat
    }

    /// The memtable size at which a flush happens.
    pub closed spec fn threshold(&self) -> usize {
        self.flush_threshold
    }

    /// The memtable is well formed, every table holds the index its bytes
    /// hold, and table numbers ascend and stay below the next number.
    pub closed spec fn wf(&self) -> bool {
        &&& self.memtable.wf()
        &&& self.ids@.len() == self.sstables@.len()
        &&& forall|i: int| 0 <= i < self.sstables@.len() ==> (#[trigger] self.sstables@[i]).wf()
        &&& forall|i: int, j: int|
            0 <= i < j < self.ids@.len() ==> #[trigger] self.ids@[i] <= #[trigger] self.ids@[j]
        &&& forall|i: int| 0 <= i < self.ids@.len() ==> #[trigger] self.ids@[i] < self.next_sst_id
    }

    /// What a well-formed engine promises about its parts: the memtable is
    /// well formed; the tables are the images' bytes, each with the index
    /// those bytes hold; table numbers ascend below the next number.
    pub proof fn lemma_wf(&self)
        requires
            self.wf(),
        ensures
            self.mem().wf(),
            self.tables().len() == self.table_images().len(),
            forall|i: int|
                0 <= i < self.tables().len() ==> #[trigger] self.tables()[i].0 == self.table_images()[i].1
                    && open_spec(self.tables()[i].0) == Ok::<Seq<(Seq<u8>, u64)>, ReadFault>(
                    self.tables()[i].1,
                ),
            ids_ascending(self.table_images()),
            forall|i: int| 0 <= i < self.table_images().len() ==> #[trigger] self.table_images()[i].0 < self.next_id(),
    {
        assert forall|i: int| 0 <= i < self.tables().len() implies #[trigger] self.tables()[i].0 == self.table_images()[i].1
            && open_spec(self.tables()[i].0) == Ok::<Seq<(Seq<u8>, u64)>, ReadFault>(self.tables()[i].1) by {
            assert(self.sstables@[i].wf());
        }
        let imgs = self.table_images();
        assert forall|i: int, j: int| 0 <= i < j < imgs.len() implies #[trigger] imgs[i].0 <= #[trigger] imgs[j].0 by {
            assert(self.ids@[i] <= self.ids@[j]);
        }
        assert forall|i: int| 0 <= i < imgs.len() implies #[trigger] imgs[i].0 < self.next_id() by {
            assert(self.ids@[i] < self.next_sst_id);
        }
    }

    /// Every table's index is sorted, as every table a writer produced is.
    pub open spec fn all_sorted(&self) -> bool {
        forall|i: int| 0 <= i < self.tables().len() ==> index_sorted(#[trigger] self.tables()[i].1)
    }

    /// What a read of `key` gives: the memtable decides if it holds the
    /// key, else the newest table that holds it.
    pub open spec fn lookup(&self, key: Seq<u8>) -> Result<Option<Seq<u8>>, ReadFault> {
        if self.mem()@.contains_key(key) {
            Ok(materialized(self.mem()@[key]))
        } else {
            tables_lookup(self.tables(), key)
        }
    }

    /// A flush has a table number left and its table fits in memory.
    pub open spec fn flush_fits(&self) -> bool {
        &&& self.mem()@.len() > 0 ==> self.next_id() < u64::MAX
        &&& 26 * self.mem()@.len() + 2 * self.mem().size() + 16 <= usize::MAX
    }

    /// Writing `added` more bytes under `key` keeps the tracked size within
    /// a `usize`, as the memtable's size arithmetic requires.
    pub open spec fn accepts(&self, key: Seq<u8>, added: nat) -> bool {
        self.mem().size() + key.len() + added <= usize::MAX
    }
}

impl LsmEngine {
    /// The table that flushing the memtable stores: the next table number,
    /// the file name for it, and the bytes of a table of the memtable's
    /// entries in key order.
    pub fn flush_table(&self) -> (t: FlushedTable)
        requires
            self.wf(),
            26 * self.mem()@.len() + 2 * self.mem().size() + 16 <= usize::MAX,
        ensures
            t.id == self.next_id(),
            names_table(t),
            t.bytes@ == table_bytes(self.mem().contents()),
    {
        let ghost es = self.memtable.contents();
        proof {
            self.memtable.lemma_wf();
        }
        let id = self.next_sst_id;
        let mut writer = SsTableWriter::create();
        let entries = self.memtable.iter();
        let mut i: usize = 0;
        proof {
            assert(es.take(0) =~= Seq::<EntryView>::empty());
            lemma_table_len(es);
        }
        while i < entries.len()
            invariant
                es == self.memtable.contents(),
                crate::memtable::sorted_keys(es),
                entries@.len() == es.len(),
                forall|j: int| 0 <= j < entries@.len() ==> (#[trigger] entries@[j].0@, entries@[j].1@) == es[j],
                i <= es.len(),
                writer.wf(),
                writer.entries() == es.take(i as int),
                2 * data_section(es).len() + 16 <= usize::MAX,
            decreases es.len() - i,
        {
            proof {
                writer.lemma_data_len();
                lemma_data_section_prefix(es, i + 1);
                lemma_data_section_take(es, i as int);
                lemma_record_len(tag_of(es[i as int].1), es[i as int].0, value_bytes(es[i as int].1));
                assert((entries@[i as int].0@, entries@[i as int].1@) == es[i as int]);
                if i > 0 {
                    assert(writer.entries().last() == es[i - 1]);
                    assert(crate::keys::key_lt(es[i - 1].0, es[i as int].0));
                }
            }
            writer.append(entries[i].0.as_slice(), &entries[i].1);
            proof {
                assert(es.take(i as int).push(es[i as int]) =~= es.take(i + 1));
            }
            i = i + 1;
        }
        proof {
            assert(es.take(i as int) =~= es);
        }
        let bytes = writer.finish();
        let file_name = table_file_name_text(id);
        FlushedTable { id, file_name, bytes }
    }

    /// Installs a flushed table once its bytes are stored: opens the bytes
    /// read back from its file as the newest table, numbered with the next
    /// number, and starts an empty memtable. Fails, changing nothing, when
    /// the bytes do not open.
    pub fn install_table(&mut self, bytes: Vec<u8>) -> (r: Result<(), Error>)
        requires
            old(self).wf(),
            old(self).next_id() < u64::MAX,
        ensures
            final(self).wf(),
            final(self).threshold() == old(self).threshold(),
            match r {
                Ok(()) => {
                    &&& final(self).next_id() == old(self).next_id() + 1
                    &&& final(self).mem().model() == MemModel::empty()
                    &&& final(self).table_images() == old(self).table_images().push((old(self).next_id(), bytes@))
                    &&& final(self).tables().drop_last() == old(self).tables()
                    &&& final(self).tables().last().0 == bytes@
                },
                Err(e) => {
                    &&& *final(self) == *old(self)
                    &&& match open_spec(bytes@) {
                        Err(f) => error_is(e, f),
                        Ok(_) => false,
                    }
                },
            },
            bytes@ == table_bytes(old(self).mem().contents()) && map_fits(old(self).mem()@) ==> {
                &&& r is Ok
                &&& forall|k: Seq<u8>| #[trigger] final(self).lookup(k) == old(self).lookup(k)
                &&& old(self).all_sorted() ==> final(self).all_sorted()
            },
    {
        let ghost es = self.memtable.contents();
        let byte_count = bytes.len();
        proof {
            self.memtable.lemma_wf();
            if bytes@ == table_bytes(es) && map_fits(self.memtable@) {
                assert(table_bytes(es).len() == byte_count);
                assert(entries_fit(es)) by {
                    assert forall|j: int| 0 <= j < es.len() implies (#[trigger] es[j]).0.len() <= u32::MAX
                        && value_bytes(es[j].1).len() <= u32::MAX by {
                        lemma_entries_map_at(es, j);
                    }
                }
                lemma_table_len(es);
                lemma_table_roundtrip(es);
            }
        }
        let id = self.next_sst_id;
        let ghost data = bytes@;
        let file_name = table_file_name_text(id);
        let path = self.dir.clone().concat(file_name.as_str());
        let reader = match SsTableReader::open(bytes, path.as_str()) {
            Ok(t) => t,
            Err(e) => {
                return Err(e);
            },
        };
        let ghost old_self = *self;
        let ghost ix = reader.index();
        self.sstables.push(reader);
        self.ids = Ghost(self.ids@.push(id));
        self.next_sst_id = id + 1;
        self.memtable = MemTable::new();
        proof {
            assert(self.tables().drop_last() =~= old_self.tables());
            assert(self.tables().last() == (data, ix));
            assert(self.table_images() =~= old_self.table_images().push((id, data)));
            assert(forall|j: int| 0 <= j < self.sstables@.len() - 1 ==> #[trigger] self.sstables@[j] == old_self.sstables@[j]);
            if data == table_bytes(es) && map_fits(old_self.mem()@) {
                assert(index_sorted(index_of(es))) by {
                    assert forall|a: int, b: int| 0 <= a < b < index_of(es).len() implies crate::keys::key_lt(
                        #[trigger] index_of(es)[a].0,
                        #[trigger] index_of(es)[b].0,
                    ) by {
                        assert(index_of(es)[a].0 == es[a].0);
                        assert(index_of(es)[b].0 == es[b].0);
                    }
                }
                assert(ix == index_of(es));
                assert forall|k: Seq<u8>| #[trigger] self.lookup(k) == old_self.lookup(k) by {
                    assert(table_lookup(data, ix, k) == table_lookup(table_bytes(es), index_of(es), k));
                }
                if old_self.all_sorted() {
                    assert forall|j: int| 0 <= j < self.tables().len() implies index_sorted(#[trigger] self.tables()[j].1) by {
                        if j < old_self.tables().len() {
                            assert(self.tables()[j] == old_self.tables()[j]);
                        }
                    }
                }
            }
        }
        Ok(())
    }

    /// Turns the memtable into a table: builds its bytes and installs them
    /// as the newest table. Returns the table, for the caller to store.
    fn do_flush(&mut self) -> (r: Result<FlushedTable, Error>)
        requires
            old(self).wf(),
            26 * old(self).mem()@.len() + 2 * old(self).mem().size() + 16 <= usize::MAX,
            old(self).next_id() < u64::MAX,
        ensures
            final(self).wf(),
            final(self).threshold() == old(self).threshold(),
            match r {
                Ok(t) => {
                    &&& t.id == old(self).next_id()
                    &&& names_table(t)
                    &&& t.bytes@ == table_bytes(old(self).mem().contents())
                    &&& final(self).next_id() == old(self).next_id() + 1
                    &&& final(self).mem().model() == MemModel::empty()
                    &&& final(self).table_images() == old(self).table_images().push((t.id, t.bytes@))
                    &&& final(self).tables().drop_last() == old(self).tables()
                },
                Err(_) => *final(self) == *old(self),
            },
            map_fits(old(self).mem()@) ==> r is Ok,
            map_fits(old(self).mem()@) ==> forall|k: Seq<u8>| #[trigger] final(self).lookup(k) == old(self).lookup(k),
            old(self).all_sorted() && map_fits(old(self).mem()@) ==> final(self).all_sorted(),
    {
        let t = self.flush_table();
        let copy = t.bytes.clone();
        proof {
            assert(copy@ =~= t.bytes@);
        }
        match self.install_table(copy) {
            Ok(()) => Ok(t),
            Err(e) => Err(e),
        }
    }

    /// Flushes when the memtable has reached the threshold.
    pub fn maybe_flush(&mut self) -> (r: Result<Option<FlushedTable>, Error>)
        requires
            old(self).wf(),
            26 * old(self).mem()@.len() + 2 * old(self).mem().size() + 16 <= usize::MAX,
            old(self).mem().size() >= old(self).threshold() ==> old(self).next_id() < u64::MAX,
        ensures
            final(self).wf(),
            final(self).threshold() == old(self).threshold(),
            match r {
                Ok(None) => old(self).mem().size() < old(self).threshold() && *final(self) == *old(self),
                Ok(Some(t)) => {
                    &&& old(self).mem().size() >= old(self).threshold()
                    &&& t.id == old(self).next_id()
                    &&& names_table(t)
                    &&& t.bytes@ == table_bytes(old(self).mem().contents())
                    &&& final(self).next_id() == old(self).next_id() + 1
                    &&& final(self).mem().model() == MemModel::empty()
                    &&& final(self).table_images() == old(self).table_images().push((t.id, t.bytes@))
                    &&& final(self).tables().drop_last() == old(self).tables()
                },
                Err(_) => old(self).mem().size() >= old(self).threshold() && *final(self) == *old(self),
            },
            map_fits(old(self).mem()@) ==> r is Ok,
            map_fits(old(self).mem()@) ==> forall|k: Seq<u8>| #[trigger] final(self).lookup(k) == old(self).lookup(k),
            old(self).all_sorted() && map_fits(old(self).mem()@) ==> final(self).all_sorted(),
    {
        if self.needs_flush() {
            match self.do_flush() {
                Ok(t) => Ok(Some(t)),
                Err(e) => Err(e),
            }
        } else {
            Ok(None)
        }
    }

    /// The memtable has reached the flush threshold.
    pub fn needs_flush(&self) -> (b: bool)
        ensures
            b == (self.mem().size() >= self.threshold()),
    {
        self.memtable.approximate_size() >= self.flush_threshold
    }

    /// Applies a write that the log already holds: `key` now holds `value`
    /// in the memtable, and every read sees it.
    pub fn put(&mut self, key: &[u8], value: &[u8])
        requires
            old(self).wf(),
            old(self).accepts(key@, value@.len()),
        ensures
            final(self).wf(),
            final(self).threshold() == old(self).threshold(),
            final(self).next_id() == old(self).next_id(),
            final(self).tables() == old(self).tables(),
            final(self).table_images() == old(self).table_images(),
            final(self).mem().model() == old(self).mem().model().put(key@, value@),
            forall|k: Seq<u8>| #[trigger] final(self).lookup(k) == if k == key@ {
                Ok::<Option<Seq<u8>>, ReadFault>(Some(value@))
            } else {
                old(self).lookup(k)
            },
            map_fits(old(self).mem()@) && key@.len() <= u32::MAX && value@.len() <= u32::MAX ==> map_fits(final(self).mem()@),
    {
        let ghost before = *self;
        self.memtable.put(slice_to_owned(key), slice_to_owned(value));
        proof {
            if map_fits(before.mem()@) && key@.len() <= u32::MAX && value@.len() <= u32::MAX {
                lemma_fits_insert(before.mem()@, key@, ValueView::Put(value@));
            }
        }
    }

    /// Applies a delete that the log already holds: `key` now holds a
    /// tombstone in the memtable, and reads see it as absent.
    pub fn delete(&mut self, key: &[u8])
        requires
            old(self).wf(),
            old(self).accepts(key@, 0),
        ensures
            final(self).wf(),
            final(self).threshold() == old(self).threshold(),
            final(self).next_id() == old(self).next_id(),
            final(self).tables() == old(self).tables(),
            final(self).table_images() == old(self).table_images(),
            final(self).mem().model() == old(self).mem().model().delete(key@),
            forall|k: Seq<u8>| #[trigger] final(self).lookup(k) == if k == key@ {
                Ok::<Option<Seq<u8>>, ReadFault>(None)
            } else {
                old(self).lookup(k)
            },
            map_fits(old(self).mem()@) && key@.len() <= u32::MAX ==> map_fits(final(self).mem()@),
    {
        let ghost before = *self;
        self.memtable.delete(slice_to_owned(key));
        proof {
            if map_fits(before.mem()@) && key@.len() <= u32::MAX {
                lemma_fits_insert(before.mem()@, key@, ValueView::Tombstone);
            }
        }
    }

    /// Whether `flush` stays within the machine's limits.
    pub fn accepts_flush(&self) -> (b: bool)
        requires
            self.wf(),
        ensures
            b == self.flush_fits(),
    {
        let len = self.memtable.len() as u128;
        let size = self.memtable.approximate_size() as u128;
        (len == 0 || self.next_sst_id < u64::MAX) && 26 * len + 2 * size + 16 <= usize::MAX as u128
    }

    /// The number the next flushed table gets.
    pub fn next_table_id(&self) -> (id: u64)
        ensures
            id == self.next_id(),
    {
        self.next_sst_id
    }

    /// Flushes the memtable unless it is empty. Returns the table to store.
    pub fn flush(&mut self) -> (r: Result<Option<FlushedTable>, Error>)
        requires
            old(self).wf(),
            old(self).flush_fits(),
        ensures
            final(self).wf(),
            final(self).threshold() == old(self).threshold(),
            match r {
                Ok(None) => old(self).mem()@.len() == 0 && *final(self) == *old(self),
                Ok(Some(t)) => {
                    &&& old(self).mem()@.len() > 0
                    &&& t.id == old(self).next_id()
                    &&& names_table(t)
                    &&& t.bytes@ == table_bytes(old(self).mem().contents())
                    &&& final(self).next_id() == old(self).next_id() + 1
                    &&& final(self).mem().model() == MemModel::empty()
                    &&& final(self).table_images() == old(self).table_images().push((t.id, t.bytes@))
                    &&& final(self).tables().drop_last() == old(self).tables()
                },
                Err(_) => *final(self) == *old(self),
            },
            map_fits(old(self).mem()@) ==> r is Ok,
            map_fits(old(self).mem()@) ==> forall|k: Seq<u8>| #[trigger] final(self).lookup(k) == old(self).lookup(k),
            old(self).all_sorted() && map_fits(old(self).mem()@) ==> final(self).all_sorted(),
    {
        if self.memtable.is_empty() {
            return Ok(None);
        }
        match self.do_flush() {
            Ok(t) => Ok(Some(t)),
            Err(e) => Err(e),
        }
    }

    /// Reads `key`: the memtable first, then the tables from newest to
    /// oldest; the first level that holds the key decides, and a tombstone
    /// there reads as absent.
    pub fn get(&self, key: &[u8]) -> (r: Result<Option<Vec<u8>>, Error>)
        requires
            self.wf(),
        ensures
            self.mem()@.contains_key(key@) ==> read_matches(r, self.lookup(key@)),
            self.all_sorted() ==> read_matches(r, self.lookup(key@)),
    {
        match self.memtable.get(key) {
            Some(v) => {
                return Ok(materialize(v.clone()));
            },
            None => {},
        }
        let ghost ts = self.tables();
        let mut i = self.sstables.len();
        proof {
            assert(ts.take(i as int) =~= ts);
        }
        while i > 0
            invariant
                ts == self.tables(),
                ts.len() == self.sstables@.len(),
                i <= ts.len(),
                !self.mem()@.contains_key(key@),
                self.all_sorted() ==> tables_lookup(ts, key@) == tables_lookup(ts.take(i as int), key@),
            decreases i,
        {
            i = i - 1;
            let ghost t = ts.take(i + 1);
            proof {
                assert(t.drop_last() =~= ts.take(i as int));
                assert(t.last() == ts[i as int]);
                assert(ts[i as int] == (self.sstables@[i as int].data(), self.sstables@[i as int].index()));
            }
            match self.sstables[i].get(key) {
                Err(e) => {
                    return Err(e);
                },
                Ok(Some(v)) => {
                    return Ok(materialize(v));
                },
                Ok(None) => {},
            }
        }
        proof {
            assert(ts.take(0) =~= Seq::<TableView>::empty());
        }
        Ok(None)
    }

    /// The number of tables.
    pub fn num_sstables(&self) -> (n: usize)
        ensures
            n == self.tables().len(),
    {
        self.sstables.len()
    }

    /// Where the valid records of the log the store was opened with end;
    /// the caller cuts the log file back to this length before appending.
    pub fn recovered_log_len(&self) -> (n: usize)
        ensures
            n == self.log_len(),
    {
        self.recovered_log_len
    }

    /// The memtable.
    pub fn memtable(&self) -> (m: &MemTable)
        ensures
            *m == self.mem(),
    {
        &self.memtable
    }

    /// Whether a write of `value_len` bytes under `key` (0 for a delete)
    /// stays within the limit that `put` and `delete` require.
    pub fn accepts_write(&self, key: &[u8], value_len: usize) -> (b: bool)
        requires
            self.wf(),
        ensures
            b == self.accepts(key@, value_len as nat),
    {
        let size = self.memtable.approximate_size() as u128;
        size + key.len() as u128 + value_len as u128 <= usize::MAX as u128
    }
}

/// Reads a stored value: bytes for a put, absence for a tombstone.
pub fn materialize(v: Value) -> (r: Option<Vec<u8>>)
    ensures
        match r {
            Some(b) => materialized(v@) == Some(b@),
            None => materialized(v@) is None,
        },
{
    match v {
        Value::Put(bytes) => Some(bytes),
        Value::Tombstone => None,
    }
}

/// The read path reports absence as `Ok(None)`; the `KeyNotFound` error
/// stays for callers that want an error instead.
#[allow(dead_code)]
fn _ensure_error_used() -> (e: Error)
    ensures
        e is KeyNotFound,
{
    Error::KeyNotFound
}


/// The numbers and bytes of table files.
pub open spec fn files_view(fs: Seq<TableFile>) -> Seq<(u64, Seq<u8>)> {
    fs.map_values(|f: TableFile| (f.id, f.bytes@))
}

/// Table numbers ascend (equal numbers may repeat).
pub open spec fn ids_ascending(s: Seq<(u64, Seq<u8>)>) -> bool {
    forall|i: int, j: int| 0 <= i < j < s.len() ==> #[trigger] s[i].0 <= #[trigger] s[j].0
}

/// Orders table files by number; files with equal numbers keep their order.
pub fn sort_table_files(files: Vec<TableFile>) -> (r: Vec<TableFile>)
    ensures
        ids_ascending(files_view(r@)),
        files_view(r@).to_multiset() == files_view(files@).to_multiset(),
        ids_ascending(files_view(files@)) ==> files_view(r@) == files_view(files@),
{
    broadcast use vstd::seq_lib::group_to_multiset_ensures;
    broadcast use vstd::multiset::group_multiset_axioms;

    let ghost input = files_view(files@);
    let mut rest = files;
    let mut sorted: Vec<TableFile> = Vec::new();
    let ghost mut k: int = 0;
    proof {
        assert(files_view(sorted@) =~= Seq::<(u64, Seq<u8>)>::empty());
        vstd::multiset::lemma_multiset_empty_len(files_view(sorted@).to_multiset());
        assert(files_view(rest@) =~= input);
        assert(input.skip(0) =~= input);
    }
    while rest.len() > 0
        invariant
            ids_ascending(files_view(sorted@)),
            files_view(sorted@).to_multiset().add(files_view(rest@).to_multiset()) == input.to_multiset(),
            ids_ascending(input) ==> {
                &&& 0 <= k <= input.len()
                &&& files_view(sorted@) == input.take(k)
                &&& files_view(rest@) == input.skip(k)
            },
        decreases rest@.len(),
    {
        let ghost rv = files_view(rest@);
        let ghost sv = files_view(sorted@);
        let item = rest.remove(0);
        let ghost iv = (item.id, item.bytes@);
        proof {
            assert(rv[0] == iv);
            assert(files_view(rest@) =~= rv.remove(0));
            assert(rv.to_multiset() == files_view(rest@).to_multiset().insert(iv)) by {
                vstd::seq_lib::to_multiset_remove(rv, 0);
                assert(rv.to_multiset().count(iv) > 0) by {
                    vstd::seq_lib::to_multiset_contains(rv, iv);
                    assert(rv.contains(iv)) by { assert(rv[0] == iv); }
                }
            }
        }
        let mut pos = sorted.len();
        while pos > 0 && sorted[pos - 1].id > item.id
            invariant
                pos <= sorted@.len(),
                sv == files_view(sorted@),
                forall|j: int| pos <= j < sorted@.len() ==> #[trigger] sorted@[j].id > item.id,
            decreases pos,
        {
            pos = pos - 1;
        }
        proof {
            if ids_ascending(input) {
                if sorted@.len() > 0 {
                    assert(sv[sv.len() - 1] == input[k - 1]);
                    assert(rv[0] == input[k]);
                    assert(input[k - 1].0 <= input[k].0);
                }
            }
        }
        sorted.insert(pos, item);
        proof {
            let nv = files_view(sorted@);
            assert(nv =~= sv.insert(pos as int, iv));
            assert forall|i: int, j: int| 0 <= i < j < nv.len() implies #[trigger] nv[i].0 <= #[trigger] nv[j].0 by {
                if j < pos {
                    assert(nv[i] == sv[i] && nv[j] == sv[j]);
                } else if j == pos {
                    if i < pos {
                        assert(nv[i] == sv[i]);
                        assert(sv[i].0 <= sv[pos - 1].0);
                    }
                } else if i < pos {
                    assert(nv[i] == sv[i] && nv[j] == sv[j - 1]);
                } else if i == pos {
                    assert(nv[j] == sv[j - 1]);
                    assert(sorted@[j] == sorted@[j]);
                } else {
                    assert(nv[i] == sv[i - 1] && nv[j] == sv[j - 1]);
                }
            }
            vstd::seq_lib::to_multiset_insert(sv, pos as int, iv);
            assert(nv.to_multiset() == sv.to_multiset().insert(iv));
            assert(nv.to_multiset().add(files_view(rest@).to_multiset()) =~= input.to_multiset());
            if ids_ascending(input) {
                assert(pos == sv.len());
                assert(nv =~= input.take(k + 1));
                assert(files_view(rest@) =~= input.skip(k + 1));
                k = k + 1;
            }
        }
    }
    proof {
        assert(files_view(rest@) =~= Seq::<(u64, Seq<u8>)>::empty());
        vstd::multiset::lemma_multiset_empty_len(files_view(rest@).to_multiset());
        assert(files_view(sorted@).to_multiset() =~= input.to_multiset());
        if ids_ascending(input) {
            assert(input.skip(k).len() == 0);
            assert(input.take(k) =~= input);
        }
    }
    sorted
}

/// `err` is the error of the first of the files `s` that does not open.
pub open spec fn fails_first(err: Error, s: Seq<(u64, Seq<u8>)>) -> bool {
    exists|i: int|
        #![trigger s[i]]
        0 <= i < s.len() && (forall|j: int| 0 <= j < i ==> open_spec(#[trigger] s[j].1) is Ok)
            && match open_spec(s[i].1) {
            Err(fault) => error_is(err, fault),
            Ok(_) => false,
        }
}

/// What opening the store from table files and log bytes gives: on
/// failure, the error of the first table, in number order, that does not
/// open.
pub open spec fn opened_from(
    r: Result<LsmEngine, Error>,
    files: Seq<(u64, Seq<u8>)>,
    wal: Seq<u8>,
    threshold: usize,
) -> bool {
    &&& match r {
        Ok(e) => {
            &&& e.wf()
            &&& e.threshold() == threshold
            &&& e.mem().model() == replay_spec(wal)
            &&& e.log_len() == replay_end(wal)
            &&& map_fits(e.mem()@)
            &&& ids_ascending(e.table_images())
            &&& e.table_images().to_multiset() == files.to_multiset()
            &&& e.table_images().len() == files.len()
            &&& e.next_id() == if files.len() == 0 {
                0
            } else {
                e.table_images().last().0 + 1
            }
            &&& ids_ascending(files) ==> e.table_images() == files
        },
        Err(err) => {
            &&& exists|f: (u64, Seq<u8>)|
                #[trigger] files.contains(f) && match open_spec(f.1) {
                    Err(fault) => error_is(err, fault),
                    Ok(_) => false,
                }
            &&& exists|s: Seq<(u64, Seq<u8>)>|
                {
                    &&& ids_ascending(s)
                    &&& s.to_multiset() == files.to_multiset()
                    &&& (ids_ascending(files) ==> s == files)
                    &&& #[trigger] fails_first(err, s)
                }
        },
    }
    &&& (forall|f: (u64, Seq<u8>)| #[trigger] files.contains(f) ==> open_spec(f.1) is Ok) ==> r is Ok
}

impl LsmEngine {
    /// Opens the store with the default flush threshold.
    pub fn open(dir: &str, tables: Vec<TableFile>, wal_data: &[u8]) -> (r: Result<LsmEngine, Error>)
        requires
            forall|i: int| 0 <= i < tables@.len() ==> (#[trigger] tables@[i]).id < u64::MAX,
        ensures
            opened_from(r, files_view(tables@), wal_data@, DEFAULT_MEMTABLE_FLUSH_BYTES),
    {
        Self::open_with_threshold(dir, tables, wal_data, DEFAULT_MEMTABLE_FLUSH_BYTES)
    }

    /// Opens the store from the table files found in its directory and the
    /// bytes of its log: the tables are ordered by number and opened in that
    /// order (the first that fails to open fails the whole), the next table
    /// number follows the greatest, and the memtable is rebuilt by replaying
    /// the log. `dir` is the directory's path with a trailing separator;
    /// error messages of tables flushed later name them by it.
    pub fn open_with_threshold(
        dir: &str,
        tables: Vec<TableFile>,
        wal_data: &[u8],
        flush_threshold: usize,
    ) -> (r: Result<LsmEngine, Error>)
        requires
            forall|i: int| 0 <= i < tables@.len() ==> (#[trigger] tables@[i]).id < u64::MAX,
        ensures
            opened_from(r, files_view(tables@), wal_data@, flush_threshold),
    {
        broadcast use vstd::seq_lib::group_to_multiset_ensures;

        let ghost input = files_view(tables@);
        proof {
            assert forall|f: (u64, Seq<u8>)| #[trigger] input.contains(f) implies f.0 < u64::MAX by {
                let i = choose|i: int| 0 <= i < input.len() && input[i] == f;
                assert(tables@[i].id < u64::MAX);
            }
        }
        let mut rest = sort_table_files(tables);
        let ghost sorted = files_view(rest@);
        let mut sstables: Vec<SsTableReader> = Vec::new();
        let ghost mut ids: Seq<u64> = Seq::empty();
        let mut last_id: Option<u64> = None;
        let ghost mut k: int = 0;
        proof {
            assert(sorted.skip(0) =~= sorted);
            assert forall|f: (u64, Seq<u8>)| #[trigger] sorted.contains(f) implies input.contains(f) by {
                assert(sorted.to_multiset().count(f) > 0);
            }
        }
        while rest.len() > 0
            invariant
                input == files_view(tables@),
                sorted.to_multiset() == input.to_multiset(),
                ids_ascending(input) ==> sorted == input,
                0 <= k <= sorted.len(),
                files_view(rest@) == sorted.skip(k),
                ids.len() == k,
                sstables@.len() == k,
                forall|i: int| 0 <= i < k ==> (#[trigger] sstables@[i]).wf(),
                forall|i: int| 0 <= i < k ==> (ids[i], (#[trigger] sstables@[i]).data()) == sorted[i],
                ids_ascending(sorted),
                forall|f: (u64, Seq<u8>)| #[trigger] sorted.contains(f) ==> input.contains(f),
                forall|f: (u64, Seq<u8>)| #[trigger] input.contains(f) ==> f.0 < u64::MAX,
                k == 0 <==> last_id is None,
                last_id matches Some(l) ==> l == sorted[k - 1].0,
            decreases rest@.len(),
        {
            let ghost rv = files_view(rest@);
            proof {
                assert(rv.len() == sorted.len() - k);
                assert(rv[0] == sorted[k]);
            }
            let file = rest.remove(0);
            proof {
                assert(files_view(rest@) =~= rv.remove(0));
                assert(files_view(rest@) =~= sorted.skip(k + 1));
                assert(sorted[k] == (file.id, file.bytes@));
                assert(sorted.contains(sorted[k]));
            }
            let TableFile { id, bytes, name } = file;
            let ghost f = sorted[k];
            assert(bytes@ == f.1);
            let reader = match SsTableReader::open(bytes, name.as_str()) {
                Ok(t) => t,
                Err(e) => {
                    proof {
                        assert(input.contains(f));
                        assert(open_spec(f.1) is Err);
                        match open_spec(f.1) {
                            Err(fault) => {
                                assert(error_is(e, fault));
                            },
                            Ok(_) => {},
                        }
                        assert forall|j: int| 0 <= j < k implies open_spec(#[trigger] sorted[j].1) is Ok by {
                            assert(sstables@[j].wf());
                            assert(sstables@[j].data() == sorted[j].1);
                        }
                        assert(fails_first(e, sorted));
                    }
                    return Err(e);
                },
            };
            sstables.push(reader);
            proof {
                ids = ids.push(id);
                k = k + 1;
            }
            last_id = Some(id);
        }
        let next_sst_id = match last_id {
            Some(l) => {
                proof {
                    assert(sorted.contains(sorted[k - 1]));
                }
                l + 1
            },
            None => 0,
        };
        let (memtable, recovered_log_len) = Wal::replay(wal_data);
        proof {
            lemma_replay_fits(wal_data@, MemModel::empty());
        }
        let e = LsmEngine {
            memtable,
            sstables,
            next_sst_id,
            flush_threshold,
            dir: String::from_str(dir),
            recovered_log_len,
            ids: Ghost(ids),
        };
        proof {
            assert(sorted.skip(k).len() == 0);
            assert(e.table_images() =~= sorted);
            assert forall|i: int| 0 <= i < ids.len() implies #[trigger] ids[i] < next_sst_id by {
                assert(sorted[i].0 <= sorted[k - 1].0);
            }
            assert forall|i: int, j: int| 0 <= i < j < ids.len() implies #[trigger] ids[i] <= #[trigger] ids[j] by {
                assert(sorted[i].0 <= sorted[j].0);
            }
            assert(sorted.len() == input.len()) by {
                assert(sorted.to_multiset().len() == input.to_multiset().len());
            }
        }
        Ok(e)
    }
}

/// Writing a fitting key and value into a fitting map keeps it fitting.
pub proof fn lemma_fits_insert(m: Map<Seq<u8>, ValueView>, k: Seq<u8>, v: ValueView)
    requires
        map_fits(m),
        k.len() <= u32::MAX,
        value_bytes(v).len() <= u32::MAX,
    ensures
        map_fits(m.insert(k, v)),
{
    assert forall|q: Seq<u8>| #[trigger] m.insert(k, v).contains_key(q) implies q.len() <= u32::MAX
        && value_bytes(m.insert(k, v)[q]).len() <= u32::MAX by {
        if q != k {
            assert(m.contains_key(q));
        }
    }
}

/// Replay only stores keys and values whose lengths came from `u32` fields.
proof fn lemma_replay_fits(data: Seq<u8>, m: MemModel)
    requires
        map_fits(m.map),
    ensures
        map_fits(replay_from(data, m).map),
    decreases data.len(),
{
    if data.len() > 0 {
        match decode_record(data) {
            RecordView::Valid { tag, key, value } => {
                let n = crate::record::record_len(data);
                assert(key.len() == crate::record::field_key_len(data));
                assert(value.len() == crate::record::field_value_len(data));
                if tag == OP_PUT {
                    let m2 = m.put(key, value);
                    assert(map_fits(m2.map)) by {
                        assert forall|k: Seq<u8>| #[trigger] m2.map.contains_key(k) implies k.len() <= u32::MAX
                            && value_bytes(m2.map[k]).len() <= u32::MAX by {
                            if k != key {
                                assert(m.map.contains_key(k));
                            }
                        }
                    }
                    lemma_replay_fits(data.skip(n), m2);
                } else if tag == OP_DEL {
                    let m2 = m.delete(key);
                    assert(map_fits(m2.map)) by {
                        assert forall|k: Seq<u8>| #[trigger] m2.map.contains_key(k) implies k.len() <= u32::MAX
                            && value_bytes(m2.map[k]).len() <= u32::MAX by {
                            if k != key {
                                assert(m.map.contains_key(k));
                            }
                        }
                    }
                    lemma_replay_fits(data.skip(n), m2);
                }
            },
            _ => {},
        }
    }
}

/// Reopening the store from what it stored reads as the store did: when
/// the table files are the store's tables under their numbers and the log
/// replays to its memtable, opening succeeds and every key reads the same.
pub proof fn lemma_reopen_reads_same(e: LsmEngine, r: Result<LsmEngine, Error>, wal: Seq<u8>, threshold: usize)
    requires
        e.wf(),
        replay_spec(wal) == e.mem().model(),
        opened_from(r, e.table_images(), wal, threshold),
    ensures
        r is Ok,
        r->Ok_0.tables().len() == e.tables().len(),
        forall|k: Seq<u8>| #[trigger] r->Ok_0.lookup(k) == e.lookup(k),
        e.all_sorted() ==> r->Ok_0.all_sorted(),
{
    let imgs = e.table_images();
    assert(ids_ascending(imgs)) by {
        assert forall|i: int, j: int| 0 <= i < j < imgs.len() implies #[trigger] imgs[i].0 <= #[trigger] imgs[j].0 by {
            assert(e.ids@[i] <= e.ids@[j]);
        }
    }
    assert forall|f: (u64, Seq<u8>)| #[trigger] imgs.contains(f) implies open_spec(f.1) is Ok by {
        let i = choose|i: int| 0 <= i < imgs.len() && imgs[i] == f;
        assert(e.sstables@[i].wf());
    }
    let n = r->Ok_0;
    assert(n.table_images() == imgs);
    assert(n.tables() =~= e.tables()) by {
        assert forall|i: int| 0 <= i < n.tables().len() implies #[trigger] n.tables()[i] == e.tables()[i] by {
            assert(n.table_images()[i] == imgs[i]);
            assert(n.sstables@[i].wf());
            assert(e.sstables@[i].wf());
        }
    }
    assert(n.mem()@ == e.mem()@);
}

/// A byte is an ASCII decimal digit.
pub open spec fn is_digit(b: u8) -> bool {
    48 <= b <= 57
}

/// The number a run of decimal digits writes.
pub open spec fn decimal_value(d: Seq<u8>) -> nat
    decreases d.len(),
{
    if d.len() == 0 {
        0
    } else {
        decimal_value(d.drop_last()) * 10 + (d.last() - 48) as nat
    }
}

/// How `u64::from_str` reads `s`: an optional `+`, then one or more
/// decimal digits whose value fits a `u64`.
pub open spec fn parse_u64(s: Seq<u8>) -> Option<u64> {
    if s.len() > 1 && s[0] == 43 {
        parse_digits(s.drop_first())
    } else {
        parse_digits(s)
    }
}

/// One or more decimal digits whose value fits a `u64`.
pub open spec fn parse_digits(d: Seq<u8>) -> Option<u64> {
    if d.len() > 0 && (forall|i: int| 0 <= i < d.len() ==> is_digit(#[trigger] d[i]))
        && decimal_value(d) <= u64::MAX {
        Some(decimal_value(d) as u64)
    } else {
        None
    }
}

/// The table number a file name carries: the name is a number followed by `.sst`.
pub open spec fn table_id_of(name: Seq<u8>) -> Option<u64> {
    if name.len() >= 4 && name.subrange(name.len() - 4, name.len() as int) == seq![46u8, 115u8, 115u8, 116u8] {
        parse_u64(name.subrange(0, name.len() - 4))
    } else {
        None
    }
}

proof fn lemma_decimal_monotone(d: Seq<u8>, j: int)
    requires
        0 <= j <= d.len(),
        forall|i: int| 0 <= i < d.len() ==> is_digit(#[trigger] d[i]),
    ensures
        decimal_value(d.take(j)) <= decimal_value(d),
    decreases d.len() - j,
{
    if j < d.len() {
        lemma_decimal_monotone(d, j + 1);
        assert(d.take(j + 1).drop_last() =~= d.take(j));
        assert(is_digit(d[j]));
    } else {
        assert(d.take(j) =~= d);
    }
}

/// The table number of a file name, if the name is one of a table: the
/// part before a `.sst` suffix must read as a `u64`, as `u64::from_str`
/// reads it.
pub fn table_file_id(name: &str) -> (r: Option<u64>)
    ensures
        r == table_id_of(name.spec_bytes()),
{
    let b = name.as_bytes();
    let ghost nb = b@;
    let n = b.len();
    if n < 4 || b[n - 4] != 46 || b[n - 3] != 115 || b[n - 2] != 115 || b[n - 1] != 116 {
        proof {
            if n >= 4 {
                let suf = nb.subrange(n - 4, n as int);
                if suf == seq![46u8, 115u8, 115u8, 116u8] {
                    assert(suf[0] == nb[n - 4]);
                    assert(suf[1] == nb[n - 3]);
                    assert(suf[2] == nb[n - 2]);
                    assert(suf[3] == nb[n - 1]);
                }
            }
        }
        return None;
    }
    let end = n - 4;
    let ghost stem = nb.subrange(0, end as int);
    proof {
        assert(nb.subrange(n - 4, n as int) =~= seq![46u8, 115u8, 115u8, 116u8]);
    }
    let start: usize = if end > 1 && b[0] == 43 {
        1
    } else {
        0
    };
    let ghost d = if stem.len() > 1 && stem[0] == 43 {
        stem.drop_first()
    } else {
        stem
    };
    proof {
        assert(d =~= nb.subrange(start as int, end as int));
    }
    if start == end {
        return None;
    }
    let mut value: u64 = 0;
    let mut i = start;
    proof {
        assert(d.take(0) =~= Seq::<u8>::empty());
        assert(d.len() > 0);
        assert(table_id_of(nb) == parse_u64(stem));
        if end > 1 {
            assert(stem[0] == nb[0]);
        }
        assert(stem.len() == end);
        assert(parse_u64(stem) == parse_digits(d));
    }
    while i < end
        invariant
            nb == b@,
            nb == name.spec_bytes(),
            d.len() > 0,
            table_id_of(nb) == parse_digits(d),
            n == nb.len(),
            start <= i <= end,
            end == n - 4,
            d == nb.subrange(start as int, end as int),
            forall|j: int| 0 <= j < i - start ==> is_digit(#[trigger] d[j]),
            value == decimal_value(d.take(i - start)),
        decreases end - i,
    {
        let c = b[i];
        let ghost t = d.take(i - start + 1);
        proof {
            assert(d[i - start] == c);
            assert(t.drop_last() =~= d.take(i - start));
        }
        if c < 48 || c > 57 {
            return None;
        }
        let digit = (c - 48) as u64;
        let next = match value.checked_mul(10) {
            Some(v) => match v.checked_add(digit) {
                Some(w) => w,
                None => {
                    proof {
                        assert(decimal_value(t) > u64::MAX);
                        if forall|j: int| 0 <= j < d.len() ==> is_digit(#[trigger] d[j]) {
                            lemma_decimal_monotone(d, i - start + 1);
                        }
                    }
                    return None;
                },
            },
            None => {
                proof {
                    assert(decimal_value(t) > u64::MAX);
                    if forall|j: int| 0 <= j < d.len() ==> is_digit(#[trigger] d[j]) {
                        lemma_decimal_monotone(d, i - start + 1);
                    }
                }
                return None;
            },
        };
        value = next;
        i = i + 1;
    }
    proof {
        assert(d.take(i - start) =~= d);
    }
    Some(value)
}

/// A store survives a restart through its log: when its memtable is what
/// a sequence of logged writes built, reopening it from its tables and the
/// log of those writes succeeds and every key reads as before.
pub proof fn lemma_restart_from_log(
    e: LsmEngine,
    ops: Seq<LogOp>,
    r: Result<LsmEngine, Error>,
    threshold: usize,
)
    requires
        e.wf(),
        e.mem().model() == apply_ops(MemModel::empty(), ops),
        forall|i: int| 0 <= i < ops.len() ==> op_fits(#[trigger] ops[i]),
        opened_from(r, e.table_images(), log_bytes(ops), threshold),
    ensures
        r is Ok,
        r->Ok_0.tables().len() == e.tables().len(),
        forall|k: Seq<u8>| #[trigger] r->Ok_0.lookup(k) == e.lookup(k),
{
    let torn = Seq::<u8>::empty();
    let next = LogOp::Delete(Seq::empty());
    crate::record::lemma_record_len(crate::wal::OP_DEL, Seq::empty(), Seq::empty());
    assert(torn =~= op_bytes(next).subrange(0, 0));
    lemma_replay_log(ops, next, torn);
    lemma_reopen_reads_same(e, r, log_bytes(ops), threshold);
}

/// A store survives a restart after a crash that tore its log: the store
/// was opened from a log `data` (cut back to its valid records, the
/// `recovered_log_len`), then took writes `ops`, each logged after those
/// records. Reopening it from its tables and that log succeeds and every
/// key reads as before.
pub proof fn lemma_restart_after_recovery(
    e: LsmEngine,
    data: Seq<u8>,
    ops: Seq<LogOp>,
    r: Result<LsmEngine, Error>,
    threshold: usize,
)
    requires
        e.wf(),
        e.mem().model() == apply_ops(replay_spec(data), ops),
        forall|i: int| 0 <= i < ops.len() ==> op_fits(#[trigger] ops[i]),
        opened_from(r, e.table_images(), data.take(replay_end(data) as int) + log_bytes(ops), threshold),
    ensures
        r is Ok,
        r->Ok_0.tables().len() == e.tables().len(),
        forall|k: Seq<u8>| #[trigger] r->Ok_0.lookup(k) == e.lookup(k),
{
    lemma_replay_recovered_then_log(data, ops);
    lemma_reopen_reads_same(e, r, data.take(replay_end(data) as int) + log_bytes(ops), threshold);
}

/// Ten to the power `w`.
pub open spec fn pow10(w: nat) -> nat
    decreases w,
{
    if w == 0 {
        1
    } else {
        10 * pow10((w - 1) as nat)
    }
}

/// The last `w` decimal digits of `n`, with leading zeros, as ASCII bytes.
pub open spec fn padded_digits(n: nat, w: nat) -> Seq<u8>
    decreases w,
{
    if w == 0 {
        Seq::empty()
    } else {
        padded_digits(n / 10, (w - 1) as nat).push((48 + n % 10) as u8)
    }
}

/// The file name of table number `id`: the number in 20 digits, then `.sst`.
pub open spec fn table_name_bytes(id: u64) -> Seq<u8> {
    padded_digits(id as nat, 20) + seq![46u8, 115u8, 115u8, 116u8]
}

proof fn lemma_mod_step(n: nat, p: nat)
    requires
        p > 0,
    ensures
        ((n / 10) % p) * 10 + n % 10 == n % (10 * p),
{
    let q = n / 10;
    let r = n % 10;
    let a = q / p;
    let b = q % p;
    vstd::arithmetic::div_mod::lemma_fundamental_div_mod(n as int, 10);
    vstd::arithmetic::div_mod::lemma_fundamental_div_mod(q as int, p as int);
    assert(n == a * (10 * p) + (10 * b + r)) by (nonlinear_arith)
        requires
            n == 10 * q + r,
            q == p * a + b,
    ;
    assert(10 * b + r < 10 * p) by (nonlinear_arith)
        requires
            b < p,
            r < 10,
    ;
    vstd::arithmetic::div_mod::lemma_fundamental_div_mod_converse(
        n as int,
        (10 * p) as int,
        a as int,
        (10 * b + r) as int,
    );
}

pub(crate) proof fn lemma_padded_digits(n: nat, w: nat)
    ensures
        padded_digits(n, w).len() == w,
        forall|i: int| 0 <= i < w ==> is_digit(#[trigger] padded_digits(n, w)[i]),
        decimal_value(padded_digits(n, w)) == n % pow10(w),
        pow10(w) > 0,
    decreases w,
{
    if w > 0 {
        let d = padded_digits(n, w);
        lemma_padded_digits(n / 10, (w - 1) as nat);
        assert(d.drop_last() =~= padded_digits(n / 10, (w - 1) as nat));
        assert forall|i: int| 0 <= i < w implies is_digit(#[trigger] d[i]) by {
            if i < w - 1 {
                assert(d[i] == padded_digits(n / 10, (w - 1) as nat)[i]);
            }
        }
        lemma_mod_step(n, pow10((w - 1) as nat));
    } else {
        assert(n % 1 == 0);
    }
}

pub(crate) proof fn lemma_pow10_20()
    ensures
        pow10(20) == 100000000000000000000,
{
    reveal_with_fuel(pow10, 21);
}

pub(crate) fn push_digits(n: u64, w: usize, out: &mut Vec<u8>)
    requires
        old(out)@.len() + w <= usize::MAX,
    ensures
        final(out)@ == old(out)@ + padded_digits(n as nat, w as nat),
    decreases w,
{
    if w == 0 {
        assert(old(out)@ + padded_digits(n as nat, 0) =~= old(out)@);
        return;
    }
    push_digits(n / 10, w - 1, out);
    out.push((48 + n % 10) as u8);
    proof {
        assert(final(out)@ =~= old(out)@ + padded_digits(n as nat, w as nat)) by {
            lemma_padded_digits((n / 10) as nat, (w - 1) as nat);
        }
    }
}

/// The file name of table number `id`, as bytes: the number in 20 digits
/// with leading zeros, then `.sst`. Reading the name back gives `id`.
pub fn table_file_name(id: u64) -> (name: Vec<u8>)
    ensures
        name@ == table_name_bytes(id),
        table_id_of(name@) == Some(id),
{
    let mut name: Vec<u8> = Vec::new();
    push_digits(id, 20, &mut name);
    name.push(46);
    name.push(115);
    name.push(115);
    name.push(116);
    proof {
        let d = padded_digits(id as nat, 20);
        assert(name@ =~= table_name_bytes(id));
        lemma_padded_digits(id as nat, 20);
        lemma_pow10_20();
        assert(name@.subrange(0, 20) =~= d);
        assert(name@.subrange(20, 24) =~= seq![46u8, 115u8, 115u8, 116u8]);
        assert(d[0] != 43);
        assert(parse_u64(d) == parse_digits(d));
    }
    name
}

/// The text of ASCII bytes, as `String::from_utf8_lossy` decodes them.
#[verifier::external_body]
pub(crate) fn ascii_string(bytes: Vec<u8>) -> (s: String)
    requires
        forall|i: int| 0 <= i < bytes@.len() ==> bytes@[i] < 128,
    ensures
        s@ == bytes@.map_values(|b: u8| b as char),
{
    String::from_utf8_lossy(&bytes).into_owned()
}

/// The file name of table number `id`, as text.
pub fn table_file_name_text(id: u64) -> (name: String)
    ensures
        name@ == table_name_bytes(id).map_values(|b: u8| b as char),
{
    let bytes = table_file_name(id);
    proof {
        lemma_padded_digits(id as nat, 20);
        assert forall|i: int| 0 <= i < bytes@.len() implies bytes@[i] < 128 by {
            if i < 20 {
                assert(is_digit(padded_digits(id as nat, 20)[i]));
            }
        }
    }
    ascii_string(bytes)
}

} // verus!
