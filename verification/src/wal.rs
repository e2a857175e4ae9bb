//! The write-ahead log.
//!
//! Every write is appended to the log before it reaches the memtable, so
//! that after a crash the memtable can be rebuilt by replaying the log.
//! A record is `crc32 | key_len | value_len | op | key | value` (see
//! [`crate::record`]); a delete carries no value. Replay stops at the first
//! record that is cut short, fails its checksum, or has an unknown op: such
//! a record is the tail of a write that did not finish.
//!
//! `Wal` holds the bytes appended since they were last taken for writing,
//! as a buffered writer does; the caller moves them to the log file.

use vstd::prelude::*;
use crate::memtable::{MemModel, MemTable, ValueView};
use crate::record::{
    decode_record, encode_record, lemma_decode_encoded, read_record, record_bytes, record_len,
    Decoded, RecordView,
};

verus! {

/// The op byte of a put record.
pub const OP_PUT: u8 = 0;

/// The op byte of a delete record.
pub const OP_DEL: u8 = 1;

/// The state reached by replaying `data` on top of `m`.
pub open spec fn replay_from(data: Seq<u8>, m: MemModel) -> MemModel
    decreases data.len(),
{
    if data.len() == 0 {
        m
    } else {
        match decode_record(data) {
            RecordView::Valid { tag, key, value } => {
                if tag == OP_PUT {
                    replay_from(data.skip(record_len(data)), m.put(key, value))
                } else if tag == OP_DEL {
                    replay_from(data.skip(record_len(data)), m.delete(key))
                } else {
                    m
                }
            },
            _ => m,
        }
    }
}

/// The memtable state that replaying a whole log gives.
pub open spec fn replay_spec(data: Seq<u8>) -> MemModel {
    replay_from(data, MemModel::empty())
}

/// A logged write.
pub enum LogOp {
    Put(Seq<u8>, Seq<u8>),
    Delete(Seq<u8>),
}

/// The record bytes that the log holds for one write.
pub open spec fn op_bytes(op: LogOp) -> Seq<u8> {
    match op {
        LogOp::Put(k, v) => record_bytes(OP_PUT, k, v),
        LogOp::Delete(k) => record_bytes(OP_DEL, k, Seq::empty()),
    }
}

/// The log bytes for a sequence of writes.
pub open spec fn log_bytes(ops: Seq<LogOp>) -> Seq<u8>
    decreases ops.len(),
{
    if ops.len() == 0 {
        Seq::empty()
    } else {
        log_bytes(ops.drop_last()) + op_bytes(ops.last())
    }
}

/// The effect of one write on a memtable.
pub open spec fn apply_op(m: MemModel, op: LogOp) -> MemModel {
    match op {
        LogOp::Put(k, v) => m.put(k, v),
        LogOp::Delete(k) => m.delete(k),
    }
}

/// The effect of a sequence of writes, in order.
pub open spec fn apply_ops(m: MemModel, ops: Seq<LogOp>) -> MemModel
    decreases ops.len(),
{
    if ops.len() == 0 {
        m
    } else {
        apply_op(apply_ops(m, ops.drop_last()), ops.last())
    }
}

/// The key a write is under.
pub open spec fn op_key(op: LogOp) -> Seq<u8> {
    match op {
        LogOp::Put(k, _) => k,
        LogOp::Delete(k) => k,
    }
}

/// What a write stores.
pub open spec fn op_value(op: LogOp) -> ValueView {
    match op {
        LogOp::Put(_, v) => ValueView::Put(v),
        LogOp::Delete(_) => ValueView::Tombstone,
    }
}

/// Some write in `ops` is under `q`.
pub open spec fn writes_key(ops: Seq<LogOp>, q: Seq<u8>) -> bool {
    exists|i: int| 0 <= i < ops.len() && op_key(#[trigger] ops[i]) == q
}

/// What the last write under `q` stores.
pub open spec fn last_write(ops: Seq<LogOp>, q: Seq<u8>) -> ValueView
    decreases ops.len(),
{
    if ops.len() == 0 {
        ValueView::Tombstone
    } else if op_key(ops.last()) == q {
        op_value(ops.last())
    } else {
        last_write(ops.drop_last(), q)
    }
}

/// The keys written in `ops`.
pub open spec fn written_keys(ops: Seq<LogOp>) -> Set<Seq<u8>> {
    Set::new(|q: Seq<u8>| writes_key(ops, q))
}

/// A memtable built by a sequence of writes from empty holds exactly the
/// keys written, each with what its last write stored (a value, or a
/// tombstone); it counts the distinct keys written, and it is empty only
/// when nothing was written.
pub proof fn lemma_writes_read_back(ops: Seq<LogOp>)
    ensures
        apply_ops(MemModel::empty(), ops).map.dom() == written_keys(ops),
        apply_ops(MemModel::empty(), ops).map.dom().finite(),
        forall|q: Seq<u8>| #[trigger] writes_key(ops, q) ==> apply_ops(MemModel::empty(), ops).map[q] == last_write(ops, q),
        apply_ops(MemModel::empty(), ops).map.len() == written_keys(ops).len(),
        (apply_ops(MemModel::empty(), ops).map.len() == 0) == (ops.len() == 0),
    decreases ops.len(),
{
    let m = apply_ops(MemModel::empty(), ops);
    if ops.len() == 0 {
        assert(m.map.dom() =~= written_keys(ops));
    } else {
        let init = ops.drop_last();
        let op = ops.last();
        lemma_writes_read_back(init);
        let m0 = apply_ops(MemModel::empty(), init);
        assert(m.map == m0.map.insert(op_key(op), op_value(op))) by {
            match op {
                LogOp::Put(k, v) => {},
                LogOp::Delete(k) => {},
            }
        }
        assert forall|q: Seq<u8>| #[trigger] writes_key(ops, q) == (writes_key(init, q) || q == op_key(op)) by {
            if writes_key(ops, q) {
                let i = choose|i: int| 0 <= i < ops.len() && op_key(#[trigger] ops[i]) == q;
                if i < ops.len() - 1 {
                    assert(init[i] == ops[i]);
                }
            }
            if writes_key(init, q) {
                let i = choose|i: int| 0 <= i < init.len() && op_key(#[trigger] init[i]) == q;
                assert(ops[i] == init[i]);
            }
            if q == op_key(op) {
                assert(op_key(ops[ops.len() - 1]) == q);
            }
        }
        assert(m.map.dom() =~= written_keys(ops));
        assert(m.map.dom().contains(op_key(op)));
    }
}

/// A write whose lengths fit the `u32` fields of a record.
pub open spec fn op_fits(op: LogOp) -> bool {
    match op {
        LogOp::Put(k, v) => k.len() <= u32::MAX && v.len() <= u32::MAX,
        LogOp::Delete(k) => k.len() <= u32::MAX,
    }
}

proof fn lemma_replay_one(op: LogOp, tail: Seq<u8>, m: MemModel)
    requires
        op_fits(op),
    ensures
        replay_from(op_bytes(op) + tail, m) == replay_from(tail, apply_op(m, op)),
{
    let d = op_bytes(op) + tail;
    match op {
        LogOp::Put(k, v) => {
            lemma_decode_encoded(OP_PUT, k, v, tail);
        },
        LogOp::Delete(k) => {
            lemma_decode_encoded(OP_DEL, k, Seq::empty(), tail);
        },
    }
    assert(d.skip(record_len(d)) =~= tail);
}

proof fn lemma_replay_log_then(ops: Seq<LogOp>, tail: Seq<u8>, m: MemModel)
    requires
        forall|i: int| 0 <= i < ops.len() ==> op_fits(#[trigger] ops[i]),
    ensures
        replay_from(log_bytes(ops) + tail, m) == replay_from(tail, apply_ops(m, ops)),
    decreases ops.len(),
{
    if ops.len() == 0 {
        assert(log_bytes(ops) + tail =~= tail);
    } else {
        let init = ops.drop_last();
        let last = ops.last();
        assert(op_fits(ops[ops.len() - 1]));
        lemma_replay_log_then(init, op_bytes(last) + tail, m);
        assert(log_bytes(ops) + tail =~= log_bytes(init) + (op_bytes(last) + tail));
        lemma_replay_one(last, tail, apply_ops(m, init));
    }
}

/// Replaying the log of a sequence of writes rebuilds the memtable those
/// writes build, also when the last record was cut short: `torn` is any
/// proper prefix of the record of one more write.
pub proof fn lemma_replay_log(ops: Seq<LogOp>, next: LogOp, torn: Seq<u8>)
    requires
        forall|i: int| 0 <= i < ops.len() ==> op_fits(#[trigger] ops[i]),
        op_fits(next),
        torn.len() < op_bytes(next).len(),
        torn == op_bytes(next).subrange(0, torn.len() as int),
    ensures
        replay_spec(log_bytes(ops)) == apply_ops(MemModel::empty(), ops),
        replay_spec(log_bytes(ops) + torn) == apply_ops(MemModel::empty(), ops),
{
    let m = MemModel::empty();
    lemma_replay_log_then(ops, Seq::empty(), m);
    assert(log_bytes(ops) + Seq::<u8>::empty() =~= log_bytes(ops));
    lemma_replay_log_then(ops, torn, m);
    let m2 = apply_ops(m, ops);
    if torn.len() > 0 {
        let full = op_bytes(next);
        match next {
            LogOp::Put(k, v) => {
                lemma_decode_encoded(OP_PUT, k, v, Seq::empty());
            },
            LogOp::Delete(k) => {
                lemma_decode_encoded(OP_DEL, k, Seq::empty(), Seq::empty());
            },
        }
        assert(full + Seq::<u8>::empty() =~= full);
        if torn.len() >= 13 {
            assert(torn.subrange(4, 8) =~= full.subrange(4, 8));
            assert(torn.subrange(8, 12) =~= full.subrange(8, 12));
            assert(record_len(torn) == record_len(full));
        }
        assert(decode_record(torn) == RecordView::Truncated);
    }
}

/// Where replay stops: the length of the run of valid records at the start of `data`.
pub open spec fn replay_end(data: Seq<u8>) -> nat
    decreases data.len(),
{
    if data.len() == 0 {
        0
    } else {
        match decode_record(data) {
            RecordView::Valid { tag, .. } => {
                if tag == OP_PUT || tag == OP_DEL {
                    (record_len(data) + replay_end(data.skip(record_len(data)))) as nat
                } else {
                    0
                }
            },
            _ => 0,
        }
    }
}

/// A record's decoding depends on its own bytes only.
proof fn lemma_decode_same_prefix(x: Seq<u8>, y: Seq<u8>)
    requires
        x.len() >= 13,
        x.len() >= record_len(x),
        y.len() >= record_len(x),
        x.subrange(0, record_len(x)) == y.subrange(0, record_len(x)),
    ensures
        record_len(y) == record_len(x),
        decode_record(y) == decode_record(x),
{
    let n = record_len(x);
    assert(n >= 13) by {
        assert(crate::record::field_key_len(x) >= 0);
        assert(crate::record::field_value_len(x) >= 0);
    }
    assert(x.subrange(4, 8) =~= x.subrange(0, n).subrange(4, 8));
    assert(y.subrange(4, 8) =~= y.subrange(0, n).subrange(4, 8));
    assert(x.subrange(8, 12) =~= x.subrange(0, n).subrange(8, 12));
    assert(y.subrange(8, 12) =~= y.subrange(0, n).subrange(8, 12));
    assert(x.subrange(0, 4) =~= x.subrange(0, n).subrange(0, 4));
    assert(y.subrange(0, 4) =~= y.subrange(0, n).subrange(0, 4));
    assert(record_len(y) == n);
    assert(x.subrange(4, n) =~= x.subrange(0, n).subrange(4, n));
    assert(y.subrange(4, n) =~= y.subrange(0, n).subrange(4, n));
    let kl = crate::record::field_key_len(x);
    assert(x.subrange(13, 13 + kl) =~= x.subrange(0, n).subrange(13, 13 + kl));
    assert(y.subrange(13, 13 + kl) =~= y.subrange(0, n).subrange(13, 13 + kl));
    assert(x.subrange(13 + kl, n) =~= x.subrange(0, n).subrange(13 + kl, n));
    assert(y.subrange(13 + kl, n) =~= y.subrange(0, n).subrange(13 + kl, n));
    assert(x[12] == x.subrange(0, n)[12]);
    assert(y[12] == y.subrange(0, n)[12]);
}

/// Replaying the valid records of `data` and then `tail` is replaying
/// `data` and then `tail`: the bytes after the first bad record drop out.
pub proof fn lemma_replay_valid_prefix_then(data: Seq<u8>, tail: Seq<u8>, m: MemModel)
    ensures
        replay_end(data) <= data.len(),
        replay_from(data.take(replay_end(data) as int) + tail, m) == replay_from(tail, replay_from(data, m)),
    decreases data.len(),
{
    let end = replay_end(data);
    if end == 0 {
        assert(data.take(0) + tail =~= tail);
        if data.len() > 0 {
            match decode_record(data) {
                RecordView::Valid { tag, .. } => {
                    if tag == OP_PUT || tag == OP_DEL {
                        assert(record_len(data) >= 13) by {
                            assert(crate::record::field_key_len(data) >= 0);
                            assert(crate::record::field_value_len(data) >= 0);
                        }
                    }
                },
                _ => {},
            }
        }
    } else {
        let n = record_len(data);
        let rest = data.skip(n);
        assert(n >= 13) by {
            assert(crate::record::field_key_len(data) >= 0);
            assert(crate::record::field_value_len(data) >= 0);
        }
        lemma_replay_valid_prefix_then(rest, tail, match decode_record(data) {
            RecordView::Valid { tag, key, value } => if tag == OP_PUT {
                m.put(key, value)
            } else {
                m.delete(key)
            },
            _ => m,
        });
        let e2 = replay_end(rest);
        let whole = data.take(end as int) + tail;
        assert(data.take(end as int) =~= data.subrange(0, n) + rest.take(e2 as int));
        assert(whole =~= data.subrange(0, n) + (rest.take(e2 as int) + tail));
        assert(whole.subrange(0, n) =~= data.subrange(0, n));
        lemma_decode_same_prefix(data, whole);
        assert(whole.skip(n) =~= rest.take(e2 as int) + tail);
    }
}

/// After a crash the log is cut back to its valid records; replaying that
/// prefix followed by the records of new writes gives the memtable those
/// writes build on top of the recovered one.
pub proof fn lemma_replay_recovered_then_log(data: Seq<u8>, ops: Seq<LogOp>)
    requires
        forall|i: int| 0 <= i < ops.len() ==> op_fits(#[trigger] ops[i]),
    ensures
        replay_end(data) <= data.len(),
        replay_spec(data.take(replay_end(data) as int) + log_bytes(ops)) == apply_ops(replay_spec(data), ops),
{
    lemma_replay_valid_prefix_then(data, log_bytes(ops), MemModel::empty());
    lemma_replay_log_then(ops, Seq::empty(), replay_spec(data));
    assert(log_bytes(ops) + Seq::<u8>::empty() =~= log_bytes(ops));
}

/// The log writer: the record bytes appended and not yet taken for writing.
pub struct Wal {
    pending: Vec<u8>,
}

impl Wal {
    /// The bytes appended since they were last taken.
    pub closed spec fn pending(&self) -> Seq<u8> {
        self.pending@
    }

    /// A writer with nothing pending.
    pub fn new() -> (w: Wal)
        ensures
            w.pending() == Seq::<u8>::empty(),
    {
        Wal { pending: Vec::new() }
    }

    /// Appends a put record.
    pub fn append_put(&mut self, key: &[u8], value: &[u8])
        requires
            old(self).pending().len() + 13 + key@.len() + value@.len() <= usize::MAX,
        ensures
            final(self).pending() == old(self).pending() + op_bytes(LogOp::Put(key@, value@)),
    {
        self.append_record(OP_PUT, key, value);
    }

    /// Appends a delete record (a tombstone).
    pub fn append_delete(&mut self, key: &[u8])
        requires
            old(self).pending().len() + 13 + key@.len() <= usize::MAX,
        ensures
            final(self).pending() == old(self).pending() + op_bytes(LogOp::Delete(key@)),
    {
        let empty: [u8; 0] = [];
        proof {
            assert(empty@ =~= Seq::<u8>::empty());
        }
        self.append_record(OP_DEL, key, empty.as_slice());
    }

    fn append_record(&mut self, op: u8, key: &[u8], value: &[u8])
        requires
            old(self).pending().len() + 13 + key@.len() + value@.len() <= usize::MAX,
        ensures
            final(self).pending() == old(self).pending() + record_bytes(op, key@, value@),
    {
        let mut record = encode_record(op, key, value);
        self.pending.append(&mut record);
    }

    /// Takes the pending bytes, which the caller writes to the log file.
    pub fn take_pending(&mut self) -> (bytes: Vec<u8>)
        ensures
            bytes@ == old(self).pending(),
            final(self).pending() == Seq::<u8>::empty(),
    {
        let mut taken: Vec<u8> = Vec::new();
        std::mem::swap(&mut taken, &mut self.pending);
        taken
    }

    /// Drops the pending bytes: the log is being emptied.
    pub fn truncate(&mut self)
        ensures
            final(self).pending() == Seq::<u8>::empty(),
    {
        self.pending = Vec::new();
    }

    /// Rebuilds a memtable from the bytes of a log file, applying every
    /// record up to the first one that is cut short, fails its checksum or
    /// carries an unknown op. Also returns where the valid records end: the
    /// log file is cut back to that length before new records are appended.
    pub fn replay(data: &[u8]) -> (r: (MemTable, usize))
        ensures
            r.0.wf(),
            r.0.model() == replay_spec(data@),
            r.1 == replay_end(data@),
    {
        let mut mt = MemTable::new();
        let mut pos: usize = 0;
        let total = data.len();
        proof {
            assert(data@.skip(0) =~= data@);
        }
        while pos < total
            invariant
                total == data@.len(),
                pos <= total,
                mt.wf(),
                mt.size() <= pos,
                replay_spec(data@) == replay_from(data@.skip(pos as int), mt.model()),
                replay_end(data@) == pos + replay_end(data@.skip(pos as int)),
            decreases total - pos,
        {
            let ghost rest = data@.skip(pos as int);
            match read_record(data, pos) {
                Decoded::Valid { tag, key, value } => {
                    let n = 13 + key.len() + value.len();
                    proof {
                        assert(rest.skip(record_len(rest)) =~= data@.skip(pos + n));
                    }
                    if tag == OP_PUT {
                        mt.put(key, value);
                    } else if tag == OP_DEL {
                        mt.delete(key);
                    } else {
                        return (mt, pos);
                    }
                    pos = pos + n;
                },
                _ => {
                    return (mt, pos);
                },
            }
        }
        proof {
            assert(data@.skip(pos as int).len() == 0);
        }
        (mt, pos)
    }
}

} // verus!
