//! Sorted string tables: the immutable, sorted files that a memtable is
//! flushed into.
//!
//! ```text
//!  data section    record_0 record_1 ...          (see crate::record)
//!  index section   key_len (4) | key | offset (8)  for each record
//!  footer          index_offset (8) | num_entries (8)
//! ```
//!
//! A record's tag is 0 for a put and 1 for a tombstone, whose value is
//! empty. The index lists the keys in ascending order with the offset of
//! their record, so a lookup is a binary search on the index followed by
//! one record read.

use vstd::prelude::*;
use vstd::bytes::{
    spec_u32_from_le_bytes, spec_u32_to_le_bytes, spec_u64_from_le_bytes, spec_u64_to_le_bytes,
    u32_from_le_bytes, u32_to_le_bytes, u64_from_le_bytes, u64_to_le_bytes,
    lemma_auto_spec_u32_to_from_le_bytes, lemma_auto_spec_u64_to_from_le_bytes,
};
use vstd::slice::slice_subrange;
use crate::keys::{compare_keys, key_lt, lemma_key_lt_bytewise, lemma_key_lt_from_prefixes, lemma_key_lt_irreflexive, lemma_key_lt_transitive, KeyOrder};
use crate::memtable::{
    entries_map, entries_size, lemma_entries_map_at, sorted_keys, has_key, EntryView, Value, ValueView,
};
use crate::record::{
    slice_to_owned,
    decode_record, encode_record, lemma_decode_encoded, read_record, record_bytes, Decoded,
    RecordView,
};
use crate::{unexpected_eof, Error};
use crate::engine::{
    ascii_string, is_digit, lemma_padded_digits, lemma_pow10_20, padded_digits, pow10, push_digits,
};

verus! {

/// The tag of a put record.
pub const TAG_PUT: u8 = 0;

/// The tag of a tombstone record.
pub const TAG_TOMBSTONE: u8 = 1;

/// The length of the footer.
pub const FOOTER_SIZE: u64 = 16;

/// The tag a value is stored with.
pub open spec fn tag_of(v: ValueView) -> u8 {
    match v {
        ValueView::Put(_) => TAG_PUT,
        ValueView::Tombstone => TAG_TOMBSTONE,
    }
}

/// The value bytes a value is stored with.
pub open spec fn value_bytes(v: ValueView) -> Seq<u8> {
    match v {
        ValueView::Put(b) => b,
        ValueView::Tombstone => Seq::empty(),
    }
}

/// The record of one entry.
pub open spec fn entry_record(e: EntryView) -> Seq<u8> {
    record_bytes(tag_of(e.1), e.0, value_bytes(e.1))
}

/// The data section: the records of the entries, in order.
pub open spec fn data_section(es: Seq<EntryView>) -> Seq<u8>
    decreases es.len(),
{
    if es.len() == 0 {
        Seq::empty()
    } else {
        data_section(es.drop_last()) + entry_record(es.last())
    }
}

/// The index: each key with the offset of its record.
pub open spec fn index_of(es: Seq<EntryView>) -> Seq<(Seq<u8>, u64)> {
    Seq::new(es.len(), |i: int| (es[i].0, data_section(es.take(i)).len() as u64))
}

/// The bytes of one index item.
pub open spec fn index_item(item: (Seq<u8>, u64)) -> Seq<u8> {
    spec_u32_to_le_bytes(item.0.len() as u32) + item.0 + spec_u64_to_le_bytes(item.1)
}

/// The bytes of an index.
pub open spec fn index_section(ix: Seq<(Seq<u8>, u64)>) -> Seq<u8>
    decreases ix.len(),
{
    if ix.len() == 0 {
        Seq::empty()
    } else {
        index_item(ix[0]) + index_section(ix.drop_first())
    }
}

/// The bytes of the table a writer produces for `es`.
pub open spec fn table_bytes(es: Seq<EntryView>) -> Seq<u8> {
    data_section(es) + index_section(index_of(es)) + spec_u64_to_le_bytes(
        data_section(es).len() as u64,
    ) + spec_u64_to_le_bytes(es.len() as u64)
}

/// Every key and value fits the `u32` length fields.
pub open spec fn entries_fit(es: Seq<EntryView>) -> bool {
    forall|i: int|
        0 <= i < es.len() ==> (#[trigger] es[i]).0.len() <= u32::MAX && value_bytes(es[i].1).len()
            <= u32::MAX
}

proof fn lemma_index_section_push(ix: Seq<(Seq<u8>, u64)>, item: (Seq<u8>, u64))
    ensures
        index_section(ix.push(item)) == index_section(ix) + index_item(item),
    decreases ix.len(),
{
    if ix.len() == 0 {
        let e = Seq::<(Seq<u8>, u64)>::empty();
        assert(ix.push(item).drop_first() =~= e);
        assert(index_section(e) == Seq::<u8>::empty());
        assert(index_section(ix) == Seq::<u8>::empty());
        assert(index_section(ix.push(item)) == index_item(item) + index_section(e));
        assert(index_section(ix.push(item)) =~= index_section(ix) + index_item(item));
    } else {
        lemma_index_section_push(ix.drop_first(), item);
        assert(ix.push(item).drop_first() =~= ix.drop_first().push(item));
        assert(ix.push(item)[0] == ix[0]);
        assert(index_section(ix.push(item)) =~= index_section(ix) + index_item(item));
    }
}

proof fn lemma_index_of_push(es: Seq<EntryView>, e: EntryView)
    ensures
        index_of(es.push(e)) == index_of(es).push((e.0, data_section(es).len() as u64)),
{
    let t = es.push(e);
    assert(t.take(es.len() as int) =~= es);
    assert forall|i: int| 0 <= i < es.len() implies #[trigger] t.take(i) == es.take(i) by {
        assert(t.take(i) =~= es.take(i));
    }
    assert(index_of(t) =~= index_of(es).push((e.0, data_section(es).len() as u64)));
}

/// Writes a table: entries arrive in strictly ascending key order.
pub struct SsTableWriter {
    data: Vec<u8>,
    index: Vec<(Vec<u8>, u64)>,
    cursor: u64,
    last_key: Option<Vec<u8>>,
    written: Ghost<Seq<EntryView>>,
}

impl SsTableWriter {
    /// The entries appended so far.
    pub closed spec fn entries(&self) -> Seq<EntryView> {
        self.written@
    }

    /// The bytes produced so far are the data section of the entries, the
    /// index lists them, and the last key is the greatest.
    pub closed spec fn wf(&self) -> bool {
        &&& sorted_keys(self.written@)
        &&& self.data@ == data_section(self.written@)
        &&& self.cursor == self.data@.len()
        &&& 2 * self.data@.len() + 16 <= usize::MAX
        &&& self.index@.len() == self.written@.len()
        &&& forall|i: int|
            0 <= i < self.index@.len() ==> (#[trigger] self.index@[i].0@, self.index@[i].1)
                == index_of(self.written@)[i]
        &&& match self.last_key {
            Some(k) => self.written@.len() > 0 && k@ == self.written@.last().0,
            None => self.written@.len() == 0,
        }
    }

    /// The number of bytes the data section holds so far.
    pub closed spec fn data_len(&self) -> nat {
        self.data@.len()
    }

    /// The data section written so far.
    pub closed spec fn data(&self) -> Seq<u8> {
        self.data@
    }

    /// The index gathered so far: each key with the offset of its record.
    pub closed spec fn index(&self) -> Seq<(Seq<u8>, u64)> {
        index_view(self.index@)
    }

    /// The bytes produced so far are the data section of the entries appended.
    pub proof fn lemma_data_len(&self)
        requires
            self.wf(),
        ensures
            self.data_len() == data_section(self.entries()).len(),
    {
    }

    /// Whether `append` takes an entry for `key` with `value_len` value
    /// bytes: the key sorts after the last one, and the table stays within
    /// the size a `usize` can count twice over.
    pub fn accepts(&self, key: &[u8], value_len: usize) -> (b: bool)
        requires
            self.wf(),
        ensures
            b == ((self.entries().len() > 0 ==> key_lt(self.entries().last().0, key@))
                && 2 * (self.data_len() + 13 + key@.len() + value_len) + 16 <= usize::MAX),
    {
        let ordered = match &self.last_key {
            Some(prev) => match compare_keys(prev.as_slice(), key) {
                KeyOrder::Less => true,
                _ => false,
            },
            None => true,
        };
        let room = (usize::MAX - 16) / 2;
        let len = self.data.len();
        let fits = len <= room && 13 <= room - len && key.len() <= room - len - 13 && value_len
            <= room - len - 13 - key.len();
        ordered && fits
    }

    /// A writer with nothing written.
    pub fn create() -> (w: Self)
        ensures
            w.wf(),
            w.entries() == Seq::<EntryView>::empty(),
    {
        SsTableWriter {
            data: Vec::new(),
            index: Vec::new(),
            cursor: 0,
            last_key: None,
            written: Ghost(Seq::empty()),
        }
    }

    /// Appends the entry for `key`, which must sort after every key appended before.
    pub fn append(&mut self, key: &[u8], value: &Value)
        requires
            old(self).wf(),
            old(self).entries().len() > 0 ==> key_lt(old(self).entries().last().0, key@),
            2 * (old(self).data_len() + 13 + key@.len() + value_bytes(value@).len()) + 16 <= usize::MAX,
        ensures
            final(self).wf(),
            final(self).entries() == old(self).entries().push((key@, value@)),
            final(self).data_len() == old(self).data_len() + entry_record((key@, value@)).len(),
            final(self).data() == old(self).data() + record_bytes(tag_of(value@), key@, value_bytes(value@)),
            final(self).index() == old(self).index().push((key@, old(self).data_len() as u64)),
    {
        let ghost es = self.written@;
        let ghost e: EntryView = (key@, value@);
        proof {
            match &self.last_key {
                Some(prev) => {
                    assert(key_lt(prev@, key@));
                },
                None => {},
            }
        }
        let empty: [u8; 0] = [];
        let mut record = match value {
            Value::Put(v) => encode_record(TAG_PUT, key, v.as_slice()),
            Value::Tombstone => {
                proof {
                    assert(empty@ =~= Seq::<u8>::empty());
                }
                encode_record(TAG_TOMBSTONE, key, empty.as_slice())
            },
        };
        assert(record@ == entry_record(e));
        let offset = self.cursor;
        self.data.append(&mut record);
        self.cursor = self.data.len() as u64;
        self.index.push((slice_to_owned(key), offset));
        self.last_key = Some(slice_to_owned(key));
        self.written = Ghost(es.push(e));
        proof {
            crate::record::lemma_record_len(tag_of(e.1), e.0, value_bytes(e.1));
            lemma_index_of_push(es, e);
            assert(es.push(e).drop_last() =~= es);
            let t = es.push(e);
            assert forall|i: int, j: int| 0 <= i < j < t.len() implies key_lt(
                #[trigger] t[i].0,
                #[trigger] t[j].0,
            ) by {
                if j == es.len() {
                    if i < es.len() - 1 {
                        lemma_key_lt_transitive(t[i].0, es.last().0, key@);
                    }
                } else {
                    assert(t[i] == es[i] && t[j] == es[j]);
                }
            }
            assert forall|i: int| 0 <= i < self.index@.len() implies (
            #[trigger] self.index@[i].0@,
            self.index@[i].1,
            ) == index_of(self.written@)[i] by {
                if i < es.len() {
                    assert(self.index@[i] == old(self).index@[i]);
                }
            }
        }
    }

    /// Writes the index and the footer after the data section and returns
    /// the bytes of the whole table.
    pub fn finish(self) -> (bytes: Vec<u8>)
        requires
            self.wf(),
        ensures
            bytes@ == table_bytes(self.entries()),
    {
        proof {
            lemma_table_len(self.written@);
        }
        let ghost es = self.written@;
        let ghost ix = index_of(es);
        let SsTableWriter { data, index, cursor, last_key, written } = self;
        let mut out = data;
        let index_offset = cursor;
        let num_entries = index.len() as u64;
        let mut i: usize = 0;
        proof {
            lemma_auto_spec_u64_to_from_le_bytes();
            assert(index_offset == data_section(es).len());
            assert(num_entries == es.len());
            assert(table_bytes(es).len() == (data_section(es) + index_section(ix)).len() + 16);
            lemma_index_section_prefix_len(ix, 0);
            assert(ix.take(0) =~= Seq::<(Seq<u8>, u64)>::empty());
            assert(out@ =~= data_section(es) + index_section(ix.take(0)));
        }
        while i < index.len()
            invariant
                index@.len() == ix.len(),
                forall|j: int| 0 <= j < index@.len() ==> (#[trigger] index@[j].0@, index@[j].1) == ix[j],
                i <= ix.len(),
                out@ == data_section(es) + index_section(ix.take(i as int)),
                (data_section(es) + index_section(ix)).len() + 16 <= usize::MAX,
                table_bytes(es) == data_section(es) + index_section(ix) + spec_u64_to_le_bytes(
                    index_offset,
                ) + spec_u64_to_le_bytes(num_entries),
            decreases ix.len() - i,
        {
            let key = &index[i].0;
            let offset = index[i].1;
            proof {
                lemma_index_section_prefix_len(ix, i as int + 1);
                lemma_index_section_push(ix.take(i as int), ix[i as int]);
                assert(ix.take(i as int).push(ix[i as int]) =~= ix.take(i as int + 1));
                assert(index@[i as int].0@ == ix[i as int].0);
            }
            let klen = u32_to_le_bytes(#[verifier::truncate] (key.len() as u32));
            let off = u64_to_le_bytes(offset);
            out.extend_from_slice(klen.as_slice());
            out.extend_from_slice(key.as_slice());
            out.extend_from_slice(off.as_slice());
            proof {
                assert(out@ =~= data_section(es) + index_section(ix.take(i as int + 1)));
            }
            i = i + 1;
        }
        proof {
            assert(ix.take(i as int) =~= ix);
        }
        let io = u64_to_le_bytes(index_offset);
        let ne = u64_to_le_bytes(num_entries);
        out.extend_from_slice(io.as_slice());
        out.extend_from_slice(ne.as_slice());
        proof {
            assert(out@ =~= table_bytes(es));
        }
        out
    }
}


/// Why a table read failed: the bytes end early (an I/O error, as a short
/// read of the file reports), or they are not what a writer produces.
pub enum ReadFault {
    Truncated,
    Corrupted,
}

/// Reads one index item at `pos`: the key and the offset, and where the next item starts.
pub open spec fn index_item_at(d: Seq<u8>, pos: int) -> Option<(Seq<u8>, u64, int)> {
    if pos + 4 > d.len() {
        None
    } else {
        let klen = spec_u32_from_le_bytes(d.subrange(pos, pos + 4)) as int;
        if pos + 4 + klen + 8 > d.len() {
            None
        } else {
            Some(
                (
                    d.subrange(pos + 4, pos + 4 + klen),
                    spec_u64_from_le_bytes(d.subrange(pos + 4 + klen, pos + 12 + klen)),
                    pos + 12 + klen,
                ),
            )
        }
    }
}

/// Reads `n` index items from `pos` on.
pub open spec fn parse_index(d: Seq<u8>, pos: int, n: nat) -> Option<Seq<(Seq<u8>, u64)>>
    decreases n,
{
    if n == 0 {
        Some(Seq::empty())
    } else {
        match index_item_at(d, pos) {
            None => None,
            Some((key, offset, next)) => prepend(seq![(key, offset)], parse_index(d, next, (n - 1) as nat)),
        }
    }
}

/// Puts `front` before a parsed index, if there is one.
pub open spec fn prepend(front: Seq<(Seq<u8>, u64)>, rest: Option<Seq<(Seq<u8>, u64)>>) -> Option<Seq<(Seq<u8>, u64)>> {
    match rest {
        Some(r) => Some(front + r),
        None => None,
    }
}

/// The index offset the footer of `d` records.
pub open spec fn footer_index_offset(d: Seq<u8>) -> u64 {
    spec_u64_from_le_bytes(d.subrange(d.len() - 16, d.len() - 8))
}

/// The entry count the footer of `d` records.
pub open spec fn footer_count(d: Seq<u8>) -> u64 {
    spec_u64_from_le_bytes(d.subrange(d.len() - 8, d.len() as int))
}

/// What opening the table bytes `d` gives: its index, or why there is none.
pub open spec fn open_spec(d: Seq<u8>) -> Result<Seq<(Seq<u8>, u64)>, ReadFault> {
    if d.len() < 16 {
        Err(ReadFault::Corrupted)
    } else if footer_index_offset(d) > d.len() - 16 {
        Err(ReadFault::Corrupted)
    } else {
        match parse_index(d, footer_index_offset(d) as int, (footer_count(d) as usize) as nat) {
            Some(ix) => Ok(ix),
            None => Err(ReadFault::Truncated),
        }
    }
}

/// The record at `offset`, which the index lists for `key`.
pub open spec fn entry_at(d: Seq<u8>, offset: u64, key: Seq<u8>) -> Result<ValueView, ReadFault> {
    if offset > d.len() {
        Err(ReadFault::Truncated)
    } else {
        match decode_record(d.skip(offset as int)) {
            RecordView::Truncated => Err(ReadFault::Truncated),
            RecordView::BadChecksum => Err(ReadFault::Corrupted),
            RecordView::Valid { tag, key: k, value } => {
                if k != key {
                    Err(ReadFault::Corrupted)
                } else if tag == TAG_PUT {
                    Ok(ValueView::Put(value))
                } else if tag == TAG_TOMBSTONE {
                    Ok(ValueView::Tombstone)
                } else {
                    Err(ReadFault::Corrupted)
                }
            },
        }
    }
}

/// The keys of the index increase strictly.
pub open spec fn index_sorted(ix: Seq<(Seq<u8>, u64)>) -> bool {
    forall|i: int, j: int| 0 <= i < j < ix.len() ==> key_lt(#[trigger] ix[i].0, #[trigger] ix[j].0)
}

/// `key` is listed in the index.
pub open spec fn index_has(ix: Seq<(Seq<u8>, u64)>, key: Seq<u8>) -> bool {
    exists|i: int| 0 <= i < ix.len() && #[trigger] ix[i].0 == key
}

/// A position of `key` in the index, when it is listed.
pub open spec fn index_pos(ix: Seq<(Seq<u8>, u64)>, key: Seq<u8>) -> int {
    choose|i: int| 0 <= i < ix.len() && #[trigger] ix[i].0 == key
}

/// The result of looking `key` up in a table whose bytes are `d` and whose index is `ix`.
pub open spec fn table_lookup(d: Seq<u8>, ix: Seq<(Seq<u8>, u64)>, key: Seq<u8>) -> Result<Option<ValueView>, ReadFault> {
    if index_has(ix, key) {
        match entry_at(d, ix[index_pos(ix, key)].1, key) {
            Ok(v) => Ok(Some(v)),
            Err(f) => Err(f),
        }
    } else {
        Ok(None)
    }
}

/// An error of the store matches a read fault.
pub open spec fn error_is(e: Error, f: ReadFault) -> bool {
    match f {
        ReadFault::Truncated => e is Io,
        ReadFault::Corrupted => e is Corruption,
    }
}

/// A lookup result matches its specification.
pub open spec fn lookup_matches(r: Result<Option<Value>, Error>, s: Result<Option<ValueView>, ReadFault>) -> bool {
    match (r, s) {
        (Ok(Some(v)), Ok(Some(m))) => v@ == m,
        (Ok(None), Ok(None)) => true,
        (Err(e), Err(f)) => error_is(e, f),
        _ => false,
    }
}

/// Reads the tables a writer produced: the index is held in memory with the bytes.
pub struct SsTableReader {
    data: Vec<u8>,
    index: Vec<(Vec<u8>, u64)>,
    name: String,
}

impl SsTableReader {
    /// The table bytes.
    pub closed spec fn data(&self) -> Seq<u8> {
        self.data@
    }

    /// The index, as read from the table bytes.
    pub closed spec fn index(&self) -> Seq<(Seq<u8>, u64)> {
        index_view(self.index@)
    }

    /// The name the table's error messages give it.
    pub closed spec fn name(&self) -> Seq<char> {
        self.name@
    }

    /// The index is the one the table bytes hold.
    pub open spec fn wf(&self) -> bool {
        open_spec(self.data()) == Ok::<Seq<(Seq<u8>, u64)>, ReadFault>(self.index())
    }

    /// Opens the table whose bytes are `data`; `name` names the table in
    /// error messages. Fails with `Corruption` when the bytes cannot hold a
    /// footer or the footer points past itself, and with `Io` when the index
    /// runs past the end of the bytes.
    pub fn open(data: Vec<u8>, name: &str) -> (r: Result<SsTableReader, Error>)
        ensures
            match (r, open_spec(data@)) {
                (Ok(t), Ok(ix)) => t.wf() && t.data() == data@ && t.index() == ix && t.name() == name@,
                (Err(e), Err(f)) => error_is(e, f),
                _ => false,
            },
            data@.len() < 16 ==> (r matches Err(Error::Corruption(m)) && m@ == too_small_text(name@)),
            data@.len() >= 16 && footer_index_offset(data@) > data@.len() - 16 ==> (r matches Err(
                Error::Corruption(m),
            ) && m@ == bad_index_offset_text()),
    {
        let file_len = data.len();
        if file_len < 16 {
            return Err(Error::Corruption(too_small_message(name)));
        }
        let ghost d = data@;
        let index_offset = u64_from_le_bytes(slice_subrange(data.as_slice(), file_len - 16, file_len - 8));
        let num_entries = #[verifier::truncate] (u64_from_le_bytes(
            slice_subrange(data.as_slice(), file_len - 8, file_len),
        ) as usize);
        if index_offset > (file_len - 16) as u64 {
            return Err(Error::Corruption(String::from_str("index_offset 超出檔案範圍")));
        }
        let mut pos = index_offset as usize;
        let mut index: Vec<(Vec<u8>, u64)> = Vec::new();
        let mut i: usize = 0;
        let ghost full = parse_index(d, pos as int, num_entries as nat);
        proof {
            lemma_auto_spec_u64_to_from_le_bytes();
            assert(footer_index_offset(d) == index_offset);
            assert(footer_count(d) as usize == num_entries);
            assert(index_view(index@) =~= Seq::<(Seq<u8>, u64)>::empty());
            match full {
                Some(r) => {
                    assert(Seq::<(Seq<u8>, u64)>::empty() + r =~= r);
                },
                None => {},
            }
        }
        while i < num_entries
            invariant
                d == data@,
                file_len == d.len(),
                0 <= i <= num_entries,
                pos <= file_len,
                full == prepend(index_view(index@), parse_index(d, pos as int, (num_entries - i) as nat)),
                open_spec(d) == (match full {
                    Some(ix) => Ok::<Seq<(Seq<u8>, u64)>, ReadFault>(ix),
                    None => Err(ReadFault::Truncated),
                }),
            decreases num_entries - i,
        {
            let ghost acc = index_view(index@);
            let ghost rest_n = (num_entries - i) as nat;
            if file_len - pos < 4 {
                proof {
                    assert(index_item_at(d, pos as int) is None);
                }
                return Err(Error::Io(unexpected_eof()));
            }
            let key_len = u32_from_le_bytes(slice_subrange(data.as_slice(), pos, pos + 4)) as usize;
            if file_len - pos - 4 < key_len || file_len - pos - 4 - key_len < 8 {
                proof {
                    assert(index_item_at(d, pos as int) is None);
                }
                return Err(Error::Io(unexpected_eof()));
            }
            let key = slice_to_owned(slice_subrange(data.as_slice(), pos + 4, pos + 4 + key_len));
            let offset = u64_from_le_bytes(
                slice_subrange(data.as_slice(), pos + 4 + key_len, pos + 12 + key_len),
            );
            proof {
                assert(index_item_at(d, pos as int) == Some((key@, offset, pos + 12 + key_len)));
                let later = parse_index(d, pos + 12 + key_len, (rest_n - 1) as nat);
                assert(parse_index(d, pos as int, rest_n) == prepend(seq![(key@, offset)], later));
                assert(index_view(index@.push((key, offset))) =~= acc.push((key@, offset)));
                match later {
                    Some(r) => {
                        assert(acc + (seq![(key@, offset)] + r) =~= acc.push((key@, offset)) + r);
                    },
                    None => {},
                }
            }
            index.push((key, offset));
            pos = pos + 12 + key_len;
            i = i + 1;
        }
        proof {
            assert(index_view(index@) + Seq::<(Seq<u8>, u64)>::empty() =~= index_view(index@));
        }
        let t = SsTableReader { data, index, name: String::from_str(name) };
        Ok(t)
    }
}

impl SsTableReader {
    /// The number of entries the index lists.
    pub fn num_entries(&self) -> (n: usize)
        ensures
            n == self.index().len(),
    {
        self.index.len()
    }

    /// Binary search of the index for `key`.
    fn find(&self, key: &[u8]) -> (r: Option<usize>)
        ensures
            match r {
                Some(i) => i < self.index().len() && self.index()[i as int].0 == key@,
                None => index_sorted(self.index()) ==> !index_has(self.index(), key@),
            },
    {
        let ghost ix = self.index();
        let mut lo: usize = 0;
        let mut hi: usize = self.index.len();
        while lo < hi
            invariant
                ix == self.index(),
                ix.len() == self.index@.len(),
                lo <= hi <= ix.len(),
                index_sorted(ix) ==> forall|i: int| 0 <= i < lo ==> key_lt(#[trigger] ix[i].0, key@),
                index_sorted(ix) ==> forall|i: int| hi <= i < ix.len() ==> key_lt(key@, #[trigger] ix[i].0),
            decreases hi - lo,
        {
            let mid = lo + (hi - lo) / 2;
            let ghost km = ix[mid as int].0;
            assert(self.index@[mid as int].0@ == km);
            match compare_keys(self.index[mid].0.as_slice(), key) {
                KeyOrder::Equal => {
                    return Some(mid);
                },
                KeyOrder::Less => {
                    proof {
                        if index_sorted(ix) {
                            assert forall|i: int| 0 <= i < mid + 1 implies key_lt(#[trigger] ix[i].0, key@) by {
                                if i < mid {
                                    lemma_key_lt_transitive(ix[i].0, km, key@);
                                }
                            }
                        }
                    }
                    lo = mid + 1;
                },
                KeyOrder::Greater => {
                    proof {
                        if index_sorted(ix) {
                            assert forall|i: int| mid <= i < ix.len() implies key_lt(key@, #[trigger] ix[i].0) by {
                                if i > mid {
                                    lemma_key_lt_transitive(key@, km, ix[i].0);
                                }
                            }
                        }
                    }
                    hi = mid;
                },
            }
        }
        proof {
            if index_sorted(ix) && index_has(ix, key@) {
                let i = choose|i: int| 0 <= i < ix.len() && #[trigger] ix[i].0 == key@;
                lemma_key_lt_irreflexive(key@);
                if i < lo {
                    assert(key_lt(ix[i].0, key@));
                } else {
                    assert(key_lt(key@, ix[i].0));
                }
            }
        }
        None
    }

    /// Reads the record at `offset` and checks it against `key`.
    fn read_entry(&self, offset: u64, key: &[u8]) -> (r: Result<Value, Error>)
        ensures
            match (r, entry_at(self.data(), offset, key@)) {
                (Ok(v), Ok(m)) => v@ == m,
                (Err(e), Err(f)) => error_is(e, f),
                _ => false,
            },
            r matches Err(Error::Corruption(m)) ==> m@ == entry_message(self.data(), offset, key@, self.name()),
    {
        if offset > self.data.len() as u64 {
            return Err(Error::Io(unexpected_eof()));
        }
        match read_record(self.data.as_slice(), offset as usize) {
            Decoded::Truncated => Err(Error::Io(unexpected_eof())),
            Decoded::BadChecksum => Err(Error::Corruption(checksum_message(&self.name, offset))),
            Decoded::Valid { tag, key: stored_key, value } => {
                match compare_keys(stored_key.as_slice(), key) {
                    KeyOrder::Equal => {},
                    _ => {
                        proof {
                            lemma_key_lt_irreflexive(key@);
                        }
                        return Err(
                            Error::Corruption(String::from_str("SSTable index 與 entry 的 key 不一致")),
                        );
                    },
                }
                if tag == TAG_PUT {
                    Ok(Value::Put(value))
                } else if tag == TAG_TOMBSTONE {
                    Ok(Value::Tombstone)
                } else {
                    Err(Error::Corruption(unknown_tag_message(tag)))
                }
            },
        }
    }

    /// Looks `key` up: `Ok(Some(v))` when the table holds it (a tombstone
    /// included), `Ok(None)` when it does not. A record that is cut short
    /// gives `Io`; one that fails its checksum, holds another key or an
    /// unknown tag gives `Corruption`.
    pub fn get(&self, key: &[u8]) -> (r: Result<Option<Value>, Error>)
        ensures
            index_sorted(self.index()) ==> lookup_matches(r, table_lookup(self.data(), self.index(), key@)),
            r matches Ok(None) || exists|i: int|
                0 <= i < self.index().len() && #[trigger] self.index()[i].0 == key@ && lookup_matches(
                    r,
                    match entry_at(self.data(), self.index()[i].1, key@) {
                        Ok(v) => Ok(Some(v)),
                        Err(f) => Err(f),
                    },
                ) && (r matches Err(Error::Corruption(m)) ==> m@ == entry_message(
                    self.data(),
                    self.index()[i].1,
                    key@,
                    self.name(),
                )),
            (forall|i: int, j: int, k: int|
                0 <= i < j < self.index().len() && 0 <= k <= self.index()[i].0.len() && k
                    <= self.index()[j].0.len() && #[trigger] self.index()[i].0.take(k)
                    == #[trigger] self.index()[j].0.take(k) ==> k < self.index()[j].0.len() && (k
                    < self.index()[i].0.len() ==> self.index()[i].0[k] <= self.index()[j].0[k])) ==> lookup_matches(
                r,
                table_lookup(self.data(), self.index(), key@),
            ),
            index_sorted(self.index()) ==> (r matches Err(Error::Corruption(m)) ==> m@ == entry_message(
                self.data(),
                self.index()[index_pos(self.index(), key@)].1,
                key@,
                self.name(),
            )),
    {
        let ghost ix = self.index();
        proof {
            if forall|i: int, j: int, k: int|
                0 <= i < j < self.index().len() && 0 <= k <= self.index()[i].0.len() && k
                    <= self.index()[j].0.len() && #[trigger] self.index()[i].0.take(k)
                    == #[trigger] self.index()[j].0.take(k) ==> k < self.index()[j].0.len() && (k
                    < self.index()[i].0.len() ==> self.index()[i].0[k] <= self.index()[j].0[k]) {
                lemma_index_sorted_bytewise(self.index());
            }
        }
        match self.find(key) {
            None => Ok(None),
            Some(i) => {
                let offset = self.index[i].1;
                proof {
                    if index_sorted(ix) {
                        let j = index_pos(ix, key@);
                        lemma_key_lt_irreflexive(key@);
                        if j < i {
                            assert(key_lt(ix[j].0, ix[i as int].0));
                        } else if j > i {
                            assert(key_lt(ix[i as int].0, ix[j].0));
                        }
                        assert(j == i);
                    }
                }
                match self.read_entry(offset, key) {
                    Ok(v) => Ok(Some(v)),
                    Err(e) => Err(e),
                }
            },
        }
    }
}

/// The index items as keys and offsets.
pub open spec fn index_view(items: Seq<(Vec<u8>, u64)>) -> Seq<(Seq<u8>, u64)> {
    items.map_values(|item: (Vec<u8>, u64)| (item.0@, item.1))
}

/// The text that `{:?}` formatting writes for a string: quoted, with escapes.
pub uninterp spec fn debug_text_of(s: Seq<char>) -> Seq<char>;

/// Formats `s` with `{:?}`, as `<str as Debug>::fmt` writes it. The
/// contract claims only that the text is a function of `s`, named
/// `debug_text_of`.
#[verifier::external_body]
fn debug_text(s: &str) -> (t: String)
    ensures
        t@ == debug_text_of(s@),
{
    format!("{:?}", s)
}

/// The number of decimal digits of `n`.
pub open spec fn digit_count(n: nat) -> nat
    decreases n,
{
    if n < 10 {
        1
    } else {
        1 + digit_count(n / 10)
    }
}

/// The decimal digits of `n`, without leading zeros, as ASCII bytes.
pub open spec fn decimal_text(n: nat) -> Seq<u8> {
    padded_digits(n, digit_count(n))
}

/// ASCII bytes as text.
pub open spec fn ascii_chars(b: Seq<u8>) -> Seq<char> {
    b.map_values(|x: u8| x as char)
}

proof fn lemma_digit_count_bound(n: nat, k: nat)
    requires
        k >= 1,
        n < pow10(k),
    ensures
        digit_count(n) <= k,
    decreases k,
{
    if n >= 10 {
        let p = pow10((k - 1) as nat);
        assert(k >= 2) by {
            if k == 1 {
                assert(pow10(1) == 10 * pow10(0));
            }
        }
        assert(n / 10 < p) by (nonlinear_arith)
            requires
                n < 10 * p,
        ;
        lemma_digit_count_bound(n / 10, (k - 1) as nat);
    }
}

/// Writes `n` in decimal, without leading zeros.
fn decimal_string(n: u64) -> (s: String)
    ensures
        s@ == ascii_chars(decimal_text(n as nat)),
{
    proof {
        lemma_pow10_20();
        lemma_digit_count_bound(n as nat, 20);
    }
    let mut width: usize = 1;
    let mut m = n;
    while m >= 10
        invariant
            digit_count(n as nat) == width - 1 + digit_count(m as nat),
            digit_count(n as nat) <= 20,
            width >= 1,
        decreases m,
    {
        m = m / 10;
        width = width + 1;
    }
    let mut digits: Vec<u8> = Vec::new();
    push_digits(n, width, &mut digits);
    proof {
        assert(digits@ =~= decimal_text(n as nat));
        lemma_padded_digits(n as nat, width as nat);
        assert forall|i: int| 0 <= i < digits@.len() implies digits@[i] < 128 by {
            assert(is_digit(padded_digits(n as nat, width as nat)[i]));
        }
    }
    ascii_string(digits)
}

/// The message for a table too short to hold a footer.
pub open spec fn too_small_text(name: Seq<char>) -> Seq<char> {
    "SSTable 檔案 "@ + debug_text_of(name) + " 太小，無法包含 footer"@
}

/// The message for a footer whose index offset points past the footer.
pub open spec fn bad_index_offset_text() -> Seq<char> {
    "index_offset 超出檔案範圍"@
}

/// The message for a record that fails its checksum.
pub open spec fn checksum_text(name: Seq<char>, offset: u64) -> Seq<char> {
    "SSTable "@ + debug_text_of(name) + " 在 offset "@ + ascii_chars(decimal_text(offset as nat))
        + " 的 entry 校驗失敗"@
}

/// The message for a record that holds another key than the index lists.
pub open spec fn key_mismatch_text() -> Seq<char> {
    "SSTable index 與 entry 的 key 不一致"@
}

/// The message for a record with an unknown tag.
pub open spec fn unknown_tag_text(tag: u8) -> Seq<char> {
    "SSTable 內未知 tag: "@ + ascii_chars(decimal_text(tag as nat))
}

/// The message of the `Corruption` error that reading the record at
/// `offset` for `key` gives, in a table named `name`.
pub open spec fn entry_message(d: Seq<u8>, offset: u64, key: Seq<u8>, name: Seq<char>) -> Seq<char> {
    match decode_record(d.skip(offset as int)) {
        RecordView::BadChecksum => checksum_text(name, offset),
        RecordView::Valid { tag, key: k, .. } => if k != key {
            key_mismatch_text()
        } else {
            unknown_tag_text(tag)
        },
        RecordView::Truncated => Seq::empty(),
    }
}

fn too_small_message(name: &str) -> (m: String)
    ensures
        m@ == too_small_text(name@),
{
    String::from_str("SSTable 檔案 ").concat(debug_text(name).as_str()).concat(" 太小，無法包含 footer")
}

fn checksum_message(name: &String, offset: u64) -> (m: String)
    ensures
        m@ == checksum_text(name@, offset),
{
    String::from_str("SSTable ").concat(debug_text(name.as_str()).as_str()).concat(" 在 offset ").concat(
        decimal_string(offset).as_str(),
    ).concat(" 的 entry 校驗失敗")
}

fn unknown_tag_message(tag: u8) -> (m: String)
    ensures
        m@ == unknown_tag_text(tag),
{
    String::from_str("SSTable 內未知 tag: ").concat(decimal_string(tag as u64).as_str())
}

pub proof fn lemma_data_section_take(es: Seq<EntryView>, i: int)
    requires
        0 <= i < es.len(),
    ensures
        data_section(es.take(i + 1)) == data_section(es.take(i)) + entry_record(es[i]),
{
    assert(es.take(i + 1).drop_last() =~= es.take(i));
}

pub proof fn lemma_data_section_prefix(es: Seq<EntryView>, i: int)
    requires
        0 <= i <= es.len(),
    ensures
        data_section(es.take(i)).len() <= data_section(es).len(),
        data_section(es).subrange(0, data_section(es.take(i)).len() as int) == data_section(es.take(i)),
    decreases es.len() - i,
{
    if i == es.len() {
        assert(es.take(i) =~= es);
        assert(data_section(es).subrange(0, data_section(es).len() as int) =~= data_section(es));
    } else {
        lemma_data_section_prefix(es, i + 1);
        lemma_data_section_take(es, i);
        let a = data_section(es.take(i));
        let b = data_section(es.take(i + 1));
        assert(data_section(es).subrange(0, a.len() as int) =~= b.subrange(0, a.len() as int));
        assert(b.subrange(0, a.len() as int) =~= a);
    }
}

proof fn lemma_data_section_len(es: Seq<EntryView>)
    ensures
        data_section(es).len() >= 13 * es.len(),
    decreases es.len(),
{
    if es.len() > 0 {
        lemma_data_section_len(es.drop_last());
        lemma_auto_spec_u32_to_from_le_bytes();
    }
}

/// The record of each entry sits at the offset the index gives it.
proof fn lemma_entry_in_table(es: Seq<EntryView>, i: int)
    requires
        0 <= i < es.len(),
        entries_fit(es),
        table_bytes(es).len() <= usize::MAX,
    ensures
        index_of(es)[i].1 == data_section(es.take(i)).len(),
        entry_at(table_bytes(es), index_of(es)[i].1, es[i].0) == Ok::<ValueView, ReadFault>(es[i].1),
{
    let d = table_bytes(es);
    let ds = data_section(es);
    lemma_data_section_prefix(es, i + 1);
    lemma_data_section_take(es, i);
    let a = data_section(es.take(i));
    let rec = entry_record(es[i]);
    let off = a.len();
    assert(ds.len() <= d.len());
    assert(index_of(es)[i].1 == off);
    assert(d.subrange(0, ds.len() as int) =~= ds);
    assert(d.skip(off as int) =~= rec + d.skip((off + rec.len()) as int)) by {
        assert(ds.subrange(0, (off + rec.len()) as int) == a + rec);
        assert forall|j: int| 0 <= j < rec.len() implies #[trigger] d.skip(off as int)[j] == rec[j] by {
            assert(d[off + j] == ds[off + j]);
            assert(ds[off + j] == (a + rec)[off + j]);
        }
    }
    assert(es[i].0.len() <= u32::MAX && value_bytes(es[i].1).len() <= u32::MAX);
    lemma_decode_encoded(tag_of(es[i].1), es[i].0, value_bytes(es[i].1), d.skip((off + rec.len()) as int));
    match es[i].1 {
        ValueView::Put(b) => {},
        ValueView::Tombstone => {},
    }
}

/// Parsing an index section gives back the index, wherever it sits.
proof fn lemma_parse_index_section(p: Seq<u8>, ix: Seq<(Seq<u8>, u64)>, q: Seq<u8>)
    requires
        forall|i: int| 0 <= i < ix.len() ==> (#[trigger] ix[i]).0.len() <= u32::MAX,
    ensures
        parse_index(p + index_section(ix) + q, p.len() as int, ix.len()) == Some(ix),
    decreases ix.len(),
{
    let d = p + index_section(ix) + q;
    if ix.len() == 0 {
        assert(parse_index(d, p.len() as int, 0) == Some(Seq::<(Seq<u8>, u64)>::empty()));
        assert(ix =~= Seq::<(Seq<u8>, u64)>::empty());
    } else {
        lemma_auto_spec_u32_to_from_le_bytes();
        lemma_auto_spec_u64_to_from_le_bytes();
        let item = ix[0];
        let rest = ix.drop_first();
        let it = index_item(item);
        assert(item.0.len() <= u32::MAX);
        let pos = p.len() as int;
        let klen = item.0.len() as int;
        assert(d =~= (p + it) + index_section(rest) + q);
        assert(d.subrange(pos, pos + 4) =~= spec_u32_to_le_bytes(item.0.len() as u32));
        assert(d.subrange(pos + 4, pos + 4 + klen) =~= item.0);
        assert(d.subrange(pos + 4 + klen, pos + 12 + klen) =~= spec_u64_to_le_bytes(item.1));
        assert(index_item_at(d, pos) == Some((item.0, item.1, pos + 12 + klen)));
        assert forall|i: int| 0 <= i < rest.len() implies (#[trigger] rest[i]).0.len() <= u32::MAX by {
            assert(rest[i] == ix[i + 1]);
        }
        lemma_parse_index_section(p + it, rest, q);
        assert(seq![item] + rest =~= ix);
    }
}

/// A table that a writer produced opens to the index the writer wrote,
/// that index is sorted, and a lookup of any key gives what the entries
/// hold for it: the value or tombstone written, or nothing.
pub proof fn lemma_table_roundtrip(es: Seq<EntryView>)
    requires
        sorted_keys(es),
        entries_fit(es),
        table_bytes(es).len() <= usize::MAX,
    ensures
        open_spec(table_bytes(es)) == Ok::<Seq<(Seq<u8>, u64)>, ReadFault>(index_of(es)),
        index_sorted(index_of(es)),
        forall|key: Seq<u8>|
            #[trigger] table_lookup(table_bytes(es), index_of(es), key) == if entries_map(
                es,
            ).contains_key(key) {
                Ok::<Option<ValueView>, ReadFault>(Some(entries_map(es)[key]))
            } else {
                Ok(None)
            },
{
    lemma_auto_spec_u64_to_from_le_bytes();
    let d = table_bytes(es);
    let ds = data_section(es);
    let ix = index_of(es);
    let isec = index_section(ix);
    let footer = spec_u64_to_le_bytes(ds.len() as u64) + spec_u64_to_le_bytes(es.len() as u64);
    assert(d =~= ds + isec + footer);
    lemma_data_section_len(es);
    assert(d.subrange(d.len() - 16, d.len() - 8) =~= spec_u64_to_le_bytes(ds.len() as u64));
    assert(d.subrange(d.len() - 8, d.len() as int) =~= spec_u64_to_le_bytes(es.len() as u64));
    assert(footer_index_offset(d) == ds.len());
    assert(footer_count(d) == es.len());
    assert forall|i: int| 0 <= i < ix.len() implies (#[trigger] ix[i]).0.len() <= u32::MAX by {
        assert(es[i].0.len() <= u32::MAX);
    }
    lemma_parse_index_section(ds, ix, footer);
    assert forall|key: Seq<u8>| #[trigger] table_lookup(d, ix, key) == if entries_map(es).contains_key(key) {
        Ok::<Option<ValueView>, ReadFault>(Some(entries_map(es)[key]))
    } else {
        Ok(None)
    } by {
        if index_has(ix, key) {
            let i = index_pos(ix, key);
            lemma_entry_in_table(es, i);
            lemma_entries_map_at(es, i);
        } else {
            if has_key(es, key) {
                let i = choose|i: int| 0 <= i < es.len() && #[trigger] es[i].0 == key;
                assert(ix[i].0 == key);
            }
        }
    }
}

/// An index whose keys ascend bytewise is sorted: where, for any two keys
/// listed in that order and any length `k` on which they agree, the later
/// key goes on past `k` and the earlier one's byte there (if any) is no
/// greater, the index is in the order that lookups search.
pub proof fn lemma_index_sorted_bytewise(ix: Seq<(Seq<u8>, u64)>)
    requires
        forall|i: int, j: int, k: int|
            0 <= i < j < ix.len() && 0 <= k <= ix[i].0.len() && k <= ix[j].0.len()
                && #[trigger] ix[i].0.take(k) == #[trigger] ix[j].0.take(k) ==> k < ix[j].0.len() && (k
                < ix[i].0.len() ==> ix[i].0[k] <= ix[j].0[k]),
    ensures
        index_sorted(ix),
{
    assert forall|i: int, j: int| 0 <= i < j < ix.len() implies key_lt(#[trigger] ix[i].0, #[trigger] ix[j].0) by {
        lemma_key_lt_from_prefixes(ix[i].0, ix[j].0);
    }
}

/// A table written from entries whose keys ascend bytewise (of any two, the
/// earlier key is a proper prefix of the later one or holds the smaller byte
/// at the first position where they differ) opens, and looking up any of
/// those keys gives back the value or tombstone written for it.
pub proof fn lemma_table_get_bytewise(es: Seq<EntryView>)
    requires
        forall|i: int, j: int|
            #![trigger es[i], es[j]]
            0 <= i < j < es.len() ==> exists|k: int|
                #![trigger es[i].0.take(k)]
                0 <= k <= es[i].0.len() && k <= es[j].0.len() && es[i].0.take(k) == es[j].0.take(k) && (
                (k == es[i].0.len() && k < es[j].0.len()) || (k < es[i].0.len() && k < es[j].0.len()
                    && es[i].0[k] < es[j].0[k])),
        entries_fit(es),
        table_bytes(es).len() <= usize::MAX,
    ensures
        open_spec(table_bytes(es)) == Ok::<Seq<(Seq<u8>, u64)>, ReadFault>(index_of(es)),
        forall|i: int|
            0 <= i < es.len() ==> #[trigger] table_lookup(table_bytes(es), index_of(es), es[i].0)
                == Ok::<Option<ValueView>, ReadFault>(Some(es[i].1)),
{
    assert forall|i: int, j: int| 0 <= i < j < es.len() implies key_lt(#[trigger] es[i].0, #[trigger] es[j].0) by {
        lemma_key_lt_bytewise(es[i].0, es[j].0);
    }
    lemma_table_roundtrip(es);
    assert forall|i: int| 0 <= i < es.len() implies #[trigger] table_lookup(table_bytes(es), index_of(es), es[i].0)
        == Ok::<Option<ValueView>, ReadFault>(Some(es[i].1)) by {
        lemma_entries_map_at(es, i);
    }
}

proof fn lemma_sections_len(es: Seq<EntryView>)
    ensures
        data_section(es).len() == 13 * es.len() + entries_size(es),
        index_section(index_of(es)).len() <= 12 * es.len() + entries_size(es),
    decreases es.len(),
{
    if es.len() > 0 {
        let init = es.drop_last();
        let e = es.last();
        lemma_sections_len(init);
        lemma_auto_spec_u32_to_from_le_bytes();
        lemma_auto_spec_u64_to_from_le_bytes();
        assert(init.push(e) =~= es);
        lemma_index_of_push(init, e);
        lemma_index_section_push(index_of(init), (e.0, data_section(init).len() as u64));
        match e.1 {
            ValueView::Put(b) => {},
            ValueView::Tombstone => {},
        }
    }
}

/// A table takes at most 25 bytes per entry, twice the entries' size, and the footer.
pub proof fn lemma_table_len(es: Seq<EntryView>)
    ensures
        table_bytes(es).len() <= 25 * es.len() + 2 * entries_size(es) + 16,
        data_section(es).len() == 13 * es.len() + entries_size(es),
        table_bytes(es).len() <= 2 * data_section(es).len() + 16,
{
    lemma_sections_len(es);
    lemma_auto_spec_u64_to_from_le_bytes();
}

/// A prefix of an index is no longer in bytes than the whole index.
proof fn lemma_index_section_prefix_len(ix: Seq<(Seq<u8>, u64)>, n: int)
    requires
        0 <= n <= ix.len(),
    ensures
        index_section(ix.take(n)).len() <= index_section(ix).len(),
    decreases ix.len() - n,
{
    if n == ix.len() {
        assert(ix.take(n) =~= ix);
    } else {
        lemma_index_section_prefix_len(ix, n + 1);
        lemma_index_section_push(ix.take(n), ix[n]);
        assert(ix.take(n).push(ix[n]) =~= ix.take(n + 1));
    }
}


} // verus!
