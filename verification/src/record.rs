//! The record format shared by the write-ahead log and the tables:
//!
//! ```text
//! crc32 (4) | key_len (4) | value_len (4) | tag (1) | key | value
//! ```
//!
//! All integers are little-endian. The checksum covers everything after it.

use vstd::prelude::*;
use vstd::bytes::{
    spec_u32_from_le_bytes, spec_u32_to_le_bytes, u32_from_le_bytes, u32_to_le_bytes,
    lemma_auto_spec_u32_to_from_le_bytes,
};
use vstd::slice::{slice_subrange, slice_to_vec};
use crate::checksum::{crc32, crc32_of};

verus! {

/// The bytes of a record header and the fixed fields before the key.
pub const HEADER_LEN: usize = 13;

/// Everything a record's checksum covers.
pub open spec fn record_payload(tag: u8, key: Seq<u8>, value: Seq<u8>) -> Seq<u8> {
    spec_u32_to_le_bytes(key.len() as u32) + spec_u32_to_le_bytes(value.len() as u32) + seq![tag]
        + key + value
}

/// The bytes of one record. Lengths are stored as `u32`, truncated as `as u32` truncates.
pub open spec fn record_bytes(tag: u8, key: Seq<u8>, value: Seq<u8>) -> Seq<u8> {
    let payload = record_payload(tag, key, value);
    spec_u32_to_le_bytes(crc32_of(payload)) + payload
}

/// What the bytes at the start of `data` hold.
pub enum RecordView {
    /// The bytes end before the record does.
    Truncated,
    /// The record is complete but its checksum does not match.
    BadChecksum,
    /// A complete record whose checksum matches.
    Valid { tag: u8, key: Seq<u8>, value: Seq<u8> },
}

/// The key length field of a record starting at `data[0]`.
pub open spec fn field_key_len(data: Seq<u8>) -> int {
    spec_u32_from_le_bytes(data.subrange(4, 8)) as int
}

/// The value length field of a record starting at `data[0]`.
pub open spec fn field_value_len(data: Seq<u8>) -> int {
    spec_u32_from_le_bytes(data.subrange(8, 12)) as int
}

/// The number of bytes a record starting at `data[0]` claims.
pub open spec fn record_len(data: Seq<u8>) -> int {
    13 + field_key_len(data) + field_value_len(data)
}

/// Decodes the record at the start of `data`.
pub open spec fn decode_record(data: Seq<u8>) -> RecordView {
    if data.len() < 13 {
        RecordView::Truncated
    } else if data.len() < record_len(data) {
        RecordView::Truncated
    } else if crc32_of(data.subrange(4, record_len(data))) != spec_u32_from_le_bytes(
        data.subrange(0, 4),
    ) {
        RecordView::BadChecksum
    } else {
        RecordView::Valid {
            tag: data[12],
            key: data.subrange(13, 13 + field_key_len(data)),
            value: data.subrange(13 + field_key_len(data), record_len(data)),
        }
    }
}

/// A record decodes back to what was encoded, whatever follows it.
pub proof fn lemma_decode_encoded(tag: u8, key: Seq<u8>, value: Seq<u8>, rest: Seq<u8>)
    requires
        key.len() <= u32::MAX,
        value.len() <= u32::MAX,
    ensures
        decode_record(record_bytes(tag, key, value) + rest) == (RecordView::Valid {
            tag,
            key,
            value,
        }),
        record_len(record_bytes(tag, key, value) + rest) == record_bytes(tag, key, value).len(),
        record_bytes(tag, key, value).len() == 13 + key.len() + value.len(),
{
    lemma_auto_spec_u32_to_from_le_bytes();
    let payload = record_payload(tag, key, value);
    let r = record_bytes(tag, key, value);
    let d = r + rest;
    assert(d.subrange(4, 8) =~= spec_u32_to_le_bytes(key.len() as u32));
    assert(d.subrange(8, 12) =~= spec_u32_to_le_bytes(value.len() as u32));
    assert(d.subrange(0, 4) =~= spec_u32_to_le_bytes(crc32_of(payload)));
    assert(field_key_len(d) == key.len());
    assert(field_value_len(d) == value.len());
    assert(d.subrange(4, record_len(d)) =~= payload);
    assert(d[12] == tag);
    assert(d.subrange(13, 13 + field_key_len(d)) =~= key);
    assert(d.subrange(13 + field_key_len(d), record_len(d)) =~= value);
}

/// The layout of a record, field by field: the checksum of everything after
/// it, the key length, the value length (both little-endian `u32`, as `as
/// u32` truncates them), the tag, the key, the value.
pub proof fn lemma_record_layout(tag: u8, key: Seq<u8>, value: Seq<u8>)
    ensures
        ({
            let r = record_bytes(tag, key, value);
            let k = key.len() as int;
            &&& r.len() == 13 + key.len() + value.len()
            &&& r.subrange(0, 4) == spec_u32_to_le_bytes(crc32_of(r.subrange(4, r.len() as int)))
            &&& r.subrange(4, 8) == spec_u32_to_le_bytes(key.len() as u32)
            &&& r.subrange(8, 12) == spec_u32_to_le_bytes(value.len() as u32)
            &&& r[12] == tag
            &&& r.subrange(13, 13 + k) == key
            &&& r.subrange(13 + k, r.len() as int) == value
        }),
{
    lemma_auto_spec_u32_to_from_le_bytes();
    let r = record_bytes(tag, key, value);
    let p = record_payload(tag, key, value);
    let k = key.len() as int;
    assert(r.subrange(4, r.len() as int) =~= p);
    assert(r.subrange(0, 4) =~= spec_u32_to_le_bytes(crc32_of(p)));
    assert(r.subrange(4, 8) =~= spec_u32_to_le_bytes(key.len() as u32));
    assert(r.subrange(8, 12) =~= spec_u32_to_le_bytes(value.len() as u32));
    assert(r.subrange(13, 13 + k) =~= key);
    assert(r.subrange(13 + k, r.len() as int) =~= value);
}

/// A record is 13 bytes longer than its key and value.
pub proof fn lemma_record_len(tag: u8, key: Seq<u8>, value: Seq<u8>)
    ensures
        record_bytes(tag, key, value).len() == 13 + key.len() + value.len(),
{
    lemma_auto_spec_u32_to_from_le_bytes();
}

/// Builds the bytes of one record.
pub fn encode_record(tag: u8, key: &[u8], value: &[u8]) -> (r: Vec<u8>)
    requires
        13 + key@.len() + value@.len() <= usize::MAX,
    ensures
        r@ == record_bytes(tag, key@, value@),
{
    let mut payload: Vec<u8> = Vec::with_capacity(9 + key.len() + value.len());
    let klen = u32_to_le_bytes(#[verifier::truncate] (key.len() as u32));
    let vlen = u32_to_le_bytes(#[verifier::truncate] (value.len() as u32));
    payload.extend_from_slice(klen.as_slice());
    payload.extend_from_slice(vlen.as_slice());
    payload.push(tag);
    payload.extend_from_slice(key);
    payload.extend_from_slice(value);
    proof {
        assert(payload@ =~= record_payload(tag, key@, value@));
    }
    let crc = crc32(payload.as_slice());
    let mut out = u32_to_le_bytes(crc);
    out.append(&mut payload);
    proof {
        assert(out@ =~= record_bytes(tag, key@, value@));
    }
    out
}

/// Reads `len` bytes at `pos`, or reports that the data ends first.
pub fn read_full_or_eof(data: &[u8], pos: usize, len: usize) -> (r: Option<Vec<u8>>)
    requires
        pos <= data@.len(),
    ensures
        match r {
            Some(bytes) => pos + len <= data@.len() && bytes@ == data@.subrange(
                pos as int,
                pos + len,
            ),
            None => pos + len > data@.len(),
        },
{
    if len <= data.len() - pos {
        Some(slice_to_vec(slice_subrange(data, pos, pos + len)))
    } else {
        None
    }
}

/// Copies a byte slice into a vector.
pub(crate) fn slice_to_owned(s: &[u8]) -> (v: Vec<u8>)
    ensures
        v@ == s@,
{
    slice_to_vec(s)
}

/// A decoded record, or why the bytes do not hold one.
pub enum Decoded {
    Truncated,
    BadChecksum,
    Valid { tag: u8, key: Vec<u8>, value: Vec<u8> },
}

impl View for Decoded {
    type V = RecordView;

    open spec fn view(&self) -> RecordView {
        match self {
            Decoded::Truncated => RecordView::Truncated,
            Decoded::BadChecksum => RecordView::BadChecksum,
            Decoded::Valid { tag, key, value } => RecordView::Valid {
                tag: *tag,
                key: key@,
                value: value@,
            },
        }
    }
}

/// Decodes the record that starts at `pos`: its checksum, header, key and
/// value are read in turn, and the checksum is compared last.
pub fn read_record(data: &[u8], pos: usize) -> (r: Decoded)
    requires
        pos <= data@.len(),
    ensures
        r@ == decode_record(data@.skip(pos as int)),
        r matches Decoded::Valid { key, value, .. } ==> pos + 13 + key@.len() + value@.len()
            <= data@.len(),
{
    let ghost d = data@.skip(pos as int);
    let total = data.len();
    assert(total == data@.len());
    let crc_buf = match read_full_or_eof(data, pos, 4) {
        Some(b) => b,
        None => return Decoded::Truncated,
    };
    let header = match read_full_or_eof(data, pos + 4, 9) {
        Some(b) => b,
        None => return Decoded::Truncated,
    };
    proof {
        assert(d.subrange(0, 4) =~= crc_buf@);
        assert(d.subrange(4, 8) =~= header@.subrange(0, 4));
        assert(d.subrange(8, 12) =~= header@.subrange(4, 8));
    }
    let expected = u32_from_le_bytes(crc_buf.as_slice());
    let key_len = u32_from_le_bytes(slice_subrange(header.as_slice(), 0, 4)) as usize;
    let value_len = u32_from_le_bytes(slice_subrange(header.as_slice(), 4, 8)) as usize;
    let tag = header[8];
    let key = match read_full_or_eof(data, pos + 13, key_len) {
        Some(b) => b,
        None => return Decoded::Truncated,
    };
    let value = match read_full_or_eof(data, pos + 13 + key_len, value_len) {
        Some(b) => b,
        None => return Decoded::Truncated,
    };
    let end = pos + 13 + key_len + value_len;
    let actual = crc32(slice_subrange(data, pos + 4, end));
    proof {
        assert(data@.subrange(pos + 4, end as int) =~= d.subrange(4, record_len(d)));
        assert(key@ =~= d.subrange(13, 13 + field_key_len(d)));
        assert(value@ =~= d.subrange(13 + field_key_len(d), record_len(d)));
        assert(tag == d[12]);
    }
    if actual != expected {
        return Decoded::BadChecksum;
    }
    Decoded::Valid { tag, key, value }
}

} // verus!
