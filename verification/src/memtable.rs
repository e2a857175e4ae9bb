//! The memtable: the ordered, in-memory write buffer.
//!
//! Every write lands here first. A delete writes a tombstone, which hides
//! older versions of the key in the tables below. The memtable also tracks
//! an approximate byte size, which decides when it is flushed.

use vstd::prelude::*;
use crate::keys::{compare_keys, key_lt, lemma_key_lt_bytewise, lemma_key_lt_irreflexive, lemma_key_lt_transitive, KeyOrder};

verus! {

/// What is stored under a key: bytes, or a tombstone marking a deletion.
#[derive(Debug, PartialEq, Eq)]
pub enum Value {
    Put(Vec<u8>),
    Tombstone,
}

/// The mathematical content of a [`Value`].
pub enum ValueView {
    Put(Seq<u8>),
    Tombstone,
}

impl View for Value {
    type V = ValueView;

    open spec fn view(&self) -> ValueView {
        match self {
            Value::Put(v) => ValueView::Put(v@),
            Value::Tombstone => ValueView::Tombstone,
        }
    }
}

/// The bytes a value contributes to the memtable size.
pub open spec fn value_size(v: ValueView) -> nat {
    match v {
        ValueView::Put(bytes) => bytes.len(),
        ValueView::Tombstone => 0,
    }
}

impl Clone for Value {
    fn clone(&self) -> (r: Self)
        ensures
            r@ == self@,
    {
        match self {
            Value::Put(v) => {
                let c = v.clone();
                proof {
                    assert(c@ =~= v@);
                }
                Value::Put(c)
            },
            Value::Tombstone => Value::Tombstone,
        }
    }
}

impl Value {
    /// The number of value bytes: the length of a put value, 0 for a tombstone.
    pub fn encoded_size(&self) -> (n: usize)
        ensures
            n == value_size(self@),
    {
        match self {
            Value::Put(v) => v.len(),
            Value::Tombstone => 0,
        }
    }
}

/// An entry of a sorted run: a key and what it holds.
pub type EntryView = (Seq<u8>, ValueView);

/// The size an entry contributes: key bytes plus value bytes.
pub open spec fn entry_size(e: EntryView) -> nat {
    e.0.len() + value_size(e.1)
}

/// The total size of a run of entries.
pub open spec fn entries_size(s: Seq<EntryView>) -> nat
    decreases s.len(),
{
    if s.len() == 0 {
        0
    } else {
        entries_size(s.drop_last()) + entry_size(s.last())
    }
}

/// Keys of the run increase strictly.
pub open spec fn sorted_keys(s: Seq<EntryView>) -> bool {
    forall|i: int, j: int| 0 <= i < j < s.len() ==> key_lt(#[trigger] s[i].0, #[trigger] s[j].0)
}

/// `k` is one of the keys of the run.
pub open spec fn has_key(s: Seq<EntryView>, k: Seq<u8>) -> bool {
    exists|i: int| 0 <= i < s.len() && #[trigger] s[i].0 == k
}

/// The map that a run of entries with distinct keys stands for.
pub open spec fn entries_map(s: Seq<EntryView>) -> Map<Seq<u8>, ValueView> {
    Map::new(
        |k: Seq<u8>| has_key(s, k),
        |k: Seq<u8>| s[choose|i: int| 0 <= i < s.len() && #[trigger] s[i].0 == k].1,
    )
}

/// In a sorted run, each key has one position, and the map sends it there.
pub proof fn lemma_entries_map_at(s: Seq<EntryView>, i: int)
    requires
        sorted_keys(s),
        0 <= i < s.len(),
    ensures
        entries_map(s).contains_key(s[i].0),
        entries_map(s)[s[i].0] == s[i].1,
{
    let k = s[i].0;
    assert(has_key(s, k));
    let j = choose|j: int| 0 <= j < s.len() && #[trigger] s[j].0 == k;
    lemma_key_lt_irreflexive(k);
    if j < i {
        assert(key_lt(s[j].0, s[i].0));
    } else if j > i {
        assert(key_lt(s[i].0, s[j].0));
    }
    assert(j == i);
}

proof fn lemma_entries_size_update(s: Seq<EntryView>, i: int, e: EntryView)
    requires
        0 <= i < s.len(),
    ensures
        entries_size(s.update(i, e)) + entry_size(s[i]) == entries_size(s) + entry_size(e),
    decreases s.len(),
{
    if i == s.len() - 1 {
        assert(s.update(i, e).drop_last() =~= s.drop_last());
    } else {
        lemma_entries_size_update(s.drop_last(), i, e);
        assert(s.update(i, e).drop_last() =~= s.drop_last().update(i, e));
    }
}

proof fn lemma_entries_size_insert(s: Seq<EntryView>, i: int, e: EntryView)
    requires
        0 <= i <= s.len(),
    ensures
        entries_size(s.insert(i, e)) == entries_size(s) + entry_size(e),
    decreases s.len(),
{
    if i == s.len() {
        assert(s.insert(i, e).drop_last() =~= s);
    } else {
        lemma_entries_size_insert(s.drop_last(), i, e);
        assert(s.insert(i, e).drop_last() =~= s.drop_last().insert(i, e));
    }
}

/// The in-memory write buffer: entries sorted by key, and their total size.
pub struct MemTable {
    entries: Vec<(Vec<u8>, Value)>,
    approximate_size: usize,
}

impl View for MemTable {
    type V = Map<Seq<u8>, ValueView>;

    open spec fn view(&self) -> Map<Seq<u8>, ValueView> {
        entries_map(self.contents())
    }
}

impl MemTable {
    /// The map and the tracked size together.
    pub open spec fn model(&self) -> MemModel {
        MemModel { map: self@, size: self.size() as int }
    }

    /// The entries in key order.
    pub closed spec fn contents(&self) -> Seq<EntryView> {
        self.entries@.map_values(|e: (Vec<u8>, Value)| (e.0@, e.1@))
    }

    /// The tracked size: the sum over entries of key bytes plus value bytes.
    pub closed spec fn size(&self) -> nat {
        self.approximate_size as nat
    }

    /// The entries are sorted by key and the size is their total size.
    pub closed spec fn wf(&self) -> bool {
        &&& sorted_keys(self.contents())
        &&& self.approximate_size == entries_size(self.contents())
    }

    /// What a well-formed memtable promises about its entries.
    pub proof fn lemma_wf(&self)
        requires
            self.wf(),
        ensures
            sorted_keys(self.contents()),
            self.size() == entries_size(self.contents()),
            self@.dom().finite(),
            self@.len() == self.contents().len(),
    {
        let s = self.contents();
        lemma_entries_map_finite(s);
    }

    /// The bytes an entry contributes are part of the total.
    pub proof fn lemma_stored_le_size(&self, k: Seq<u8>)
        requires
            self.wf(),
        ensures
            stored_size(self@, k) <= self.size(),
    {
        let s = self.contents();
        if self@.contains_key(k) {
            let i = choose|i: int| 0 <= i < s.len() && #[trigger] s[i].0 == k;
            lemma_entries_map_at(s, i);
            let z: EntryView = (Seq::empty(), ValueView::Tombstone);
            lemma_entries_size_update(s, i, z);
        }
    }

    pub fn new() -> (mt: Self)
        ensures
            mt.wf(),
            mt@ == Map::<Seq<u8>, ValueView>::empty(),
            mt.size() == 0,
            mt.model() == MemModel::empty(),
            mt.contents() == Seq::<EntryView>::empty(),
    {
        let mt = MemTable { entries: Vec::new(), approximate_size: 0 };
        proof {
            assert(mt.contents() =~= Seq::<EntryView>::empty());
            assert(mt@ =~= Map::<Seq<u8>, ValueView>::empty());
        }
        mt
    }

    /// Binary search: the position of `key`, or where it would be inserted.
    fn find(&self, key: &[u8]) -> (r: (bool, usize))
        requires
            self.wf(),
        ensures
            r.1 <= self.contents().len(),
            r.0 ==> r.1 < self.contents().len() && self.contents()[r.1 as int].0 == key@,
            !r.0 ==> (forall|i: int| 0 <= i < r.1 ==> key_lt(#[trigger] self.contents()[i].0, key@)),
            !r.0 ==> (forall|i: int|
                r.1 <= i < self.contents().len() ==> key_lt(key@, #[trigger] self.contents()[i].0)),
    {
        let ghost s = self.contents();
        let mut lo: usize = 0;
        let mut hi: usize = self.entries.len();
        while lo < hi
            invariant
                s == self.contents(),
                sorted_keys(s),
                s.len() == self.entries@.len(),
                lo <= hi <= s.len(),
                forall|i: int| 0 <= i < lo ==> key_lt(#[trigger] s[i].0, key@),
                forall|i: int| hi <= i < s.len() ==> key_lt(key@, #[trigger] s[i].0),
            decreases hi - lo,
        {
            let mid = lo + (hi - lo) / 2;
            let ghost km = s[mid as int].0;
            assert(self.entries@[mid as int].0@ == km);
            match compare_keys(self.entries[mid].0.as_slice(), key) {
                KeyOrder::Equal => {
                    return (true, mid);
                },
                KeyOrder::Less => {
                    proof {
                        assert forall|i: int| 0 <= i < mid + 1 implies key_lt(#[trigger] s[i].0, key@) by {
                            if i < mid {
                                lemma_key_lt_transitive(s[i].0, km, key@);
                            }
                        }
                    }
                    lo = mid + 1;
                },
                KeyOrder::Greater => {
                    proof {
                        assert forall|i: int| mid <= i < s.len() implies key_lt(key@, #[trigger] s[i].0) by {
                            if i > mid {
                                lemma_key_lt_transitive(key@, km, s[i].0);
                            }
                        }
                    }
                    hi = mid;
                },
            }
        }
        (false, lo)
    }
}


impl MemTable {
    /// Writes `value` under `key`, replacing what was there, and keeps the
    /// tracked size: the old entry's bytes leave it, the new entry's enter.
    fn upsert(&mut self, key: Vec<u8>, value: Value)
        requires
            old(self).wf(),
            old(self).size() + key@.len() + value_size(value@) <= usize::MAX,
        ensures
            final(self).wf(),
            final(self)@ == old(self)@.insert(key@, value@),
            final(self).size() == old(self).size() + key@.len() + value_size(value@) - stored_size(
                old(self)@,
                key@,
            ),
    {
        let ghost s = self.contents();
        let (found, idx) = self.find(key.as_slice());
        proof {
            if found {
                let z: EntryView = (Seq::empty(), ValueView::Tombstone);
                lemma_entries_size_update(s, idx as int, z);
                assert(s[idx as int].1 == self.entries@[idx as int].1@);
            }
        }
        let new_size = key.len() + value.encoded_size();
        let old_size = if found {
            key.len() + self.entries[idx].1.encoded_size()
        } else {
            0
        };
        proof {
            if found {
                lemma_entries_map_at(s, idx as int);
                let z: EntryView = (Seq::empty(), ValueView::Tombstone);
                lemma_entries_size_update(s, idx as int, z);
                assert(old_size == entry_size(s[idx as int]));
            } else {
                assert(!self@.contains_key(key@)) by {
                    if has_key(s, key@) {
                        let i = choose|i: int| 0 <= i < s.len() && #[trigger] s[i].0 == key@;
                        lemma_key_lt_irreflexive(key@);
                        if i < idx {
                            assert(key_lt(s[i].0, key@));
                        } else {
                            assert(key_lt(key@, s[i].0));
                        }
                    }
                }
            }
            assert(old_size == stored_size(self@, key@));
        }
        let ghost e: EntryView = (key@, value@);
        self.approximate_size = self.approximate_size + new_size - old_size;
        if found {
            self.entries[idx] = (key, value);
            proof {
                assert(self.contents() =~= s.update(idx as int, e));
                lemma_entries_size_update(s, idx as int, e);
                assert forall|i: int, j: int|
                    0 <= i < j < self.contents().len() implies key_lt(
                    #[trigger] self.contents()[i].0,
                    #[trigger] self.contents()[j].0,
                ) by {
                    assert(s[i].0 == self.contents()[i].0);
                    assert(s[j].0 == self.contents()[j].0);
                }
                lemma_map_after_update(s, idx as int, e);
            }
        } else {
            self.entries.insert(idx, (key, value));
            proof {
                assert(self.contents() =~= s.insert(idx as int, e));
                lemma_entries_size_insert(s, idx as int, e);
                let t = self.contents();
                assert forall|i: int, j: int| 0 <= i < j < t.len() implies key_lt(
                    #[trigger] t[i].0,
                    #[trigger] t[j].0,
                ) by {
                    if j < idx {
                        assert(t[i] == s[i] && t[j] == s[j]);
                    } else if j == idx {
                        assert(t[i] == s[i]);
                    } else if i < idx {
                        assert(t[i] == s[i] && t[j] == s[j - 1]);
                        lemma_key_lt_transitive(t[i].0, key@, t[j].0);
                    } else if i == idx {
                        assert(t[j] == s[j - 1]);
                    } else {
                        assert(t[i] == s[i - 1] && t[j] == s[j - 1]);
                    }
                }
                lemma_map_after_insert(s, idx as int, e);
            }
        }
    }

    /// Writes or overwrites `key` with `value`.
    pub fn put(&mut self, key: Vec<u8>, value: Vec<u8>)
        requires
            old(self).wf(),
            old(self).size() + key@.len() + value@.len() <= usize::MAX,
        ensures
            final(self).wf(),
            final(self)@ == old(self)@.insert(key@, ValueView::Put(value@)),
            final(self)@.len() == old(self)@.len() + if old(self)@.contains_key(key@) {
                0nat
            } else {
                1nat
            },
            sorted_keys(final(self).contents()),
            final(self).size() == entries_size(final(self).contents()),
            final(self).model() == old(self).model().put(key@, value@),
            final(self).size() == old(self).size() + key@.len() + value@.len() - stored_size(
                old(self)@,
                key@,
            ),
    {
        proof {
            self.lemma_wf();
        }
        self.upsert(key, Value::Put(value));
        proof {
            self.lemma_wf();
        }
    }

    /// Deletes `key` by writing a tombstone for it.
    pub fn delete(&mut self, key: Vec<u8>)
        requires
            old(self).wf(),
            old(self).size() + key@.len() <= usize::MAX,
        ensures
            final(self).wf(),
            final(self)@ == old(self)@.insert(key@, ValueView::Tombstone),
            final(self)@.len() == old(self)@.len() + if old(self)@.contains_key(key@) {
                0nat
            } else {
                1nat
            },
            sorted_keys(final(self).contents()),
            final(self).size() == entries_size(final(self).contents()),
            final(self).model() == old(self).model().delete(key@),
            final(self).size() == old(self).size() + key@.len() - stored_size(old(self)@, key@),
    {
        proof {
            self.lemma_wf();
        }
        self.upsert(key, Value::Tombstone);
        proof {
            self.lemma_wf();
        }
    }

    /// What this memtable holds for `key`: a value, a tombstone (the key was
    /// deleted at this level), or nothing (the key was never written here).
    pub fn get(&self, key: &[u8]) -> (r: Option<&Value>)
        requires
            self.wf(),
        ensures
            match r {
                Some(v) => self@.contains_key(key@) && v@ == self@[key@],
                None => !self@.contains_key(key@),
            },
    {
        let ghost s = self.contents();
        let (found, idx) = self.find(key);
        if found {
            proof {
                lemma_entries_map_at(s, idx as int);
            }
            Some(&self.entries[idx].1)
        } else {
            proof {
                if has_key(s, key@) {
                    let i = choose|i: int| 0 <= i < s.len() && #[trigger] s[i].0 == key@;
                    lemma_key_lt_irreflexive(key@);
                    if i < idx {
                        assert(key_lt(s[i].0, key@));
                    } else {
                        assert(key_lt(key@, s[i].0));
                    }
                }
            }
            None
        }
    }

    /// The tracked size in bytes.
    pub fn approximate_size(&self) -> (n: usize)
        ensures
            n == self.size(),
    {
        self.approximate_size
    }

    /// No key has been written.
    pub fn is_empty(&self) -> (b: bool)
        requires
            self.wf(),
        ensures
            b == (self@.len() == 0),
            b == (self@ == Map::<Seq<u8>, ValueView>::empty()),
    {
        proof {
            self.lemma_wf();
            if self.contents().len() > 0 {
                lemma_entries_map_at(self.contents(), 0);
            } else {
                assert(self@ =~= Map::<Seq<u8>, ValueView>::empty());
            }
        }
        self.entries.len() == 0
    }

    /// All entries in ascending key order.
    pub fn iter(&self) -> (r: &[(Vec<u8>, Value)])
        requires
            self.wf(),
        ensures
            sorted_keys(self.contents()),
            r@.len() == self.contents().len(),
            forall|i: int| 0 <= i < r@.len() ==> (#[trigger] r@[i].0@, r@[i].1@) == self.contents()[i],
            forall|i: int, j: int|
                #![trigger r@[i], r@[j]]
                0 <= i < j < r@.len() ==> key_lt(r@[i].0@, r@[j].0@) && exists|k: int|
                    #![trigger r@[i].0@.take(k)]
                    0 <= k <= r@[i].0@.len() && k <= r@[j].0@.len()
                        && r@[i].0@.take(k) == r@[j].0@.take(k) && (
                    (k == r@[i].0@.len() && k < r@[j].0@.len()) || (k < r@[i].0@.len() && k
                        < r@[j].0@.len() && r@[i].0@[k] < r@[j].0@[k])),
    {
        let es = self.entries.as_slice();
        proof {
            assert forall|i: int, j: int|
                #![trigger es@[i], es@[j]]
                0 <= i < j < es@.len() implies key_lt(es@[i].0@, es@[j].0@) && exists|k: int|
                    #![trigger es@[i].0@.take(k)]
                    0 <= k <= es@[i].0@.len() && k <= es@[j].0@.len()
                        && es@[i].0@.take(k) == es@[j].0@.take(k) && (
                (k == es@[i].0@.len() && k < es@[j].0@.len()) || (k < es@[i].0@.len() && k
                    < es@[j].0@.len() && es@[i].0@[k] < es@[j].0@[k])) by {
                assert(key_lt(self.contents()[i].0, self.contents()[j].0));
                lemma_key_lt_bytewise(es@[i].0@, es@[j].0@);
            }
        }
        es
    }

    /// The number of keys held, tombstones included.
    pub fn len(&self) -> (n: usize)
        requires
            self.wf(),
        ensures
            n == self@.len(),
    {
        proof {
            self.lemma_wf();
        }
        self.entries.len()
    }
}

impl Default for MemTable {
    fn default() -> (mt: Self)
        ensures
            mt.wf(),
            mt@ == Map::<Seq<u8>, ValueView>::empty(),
            mt.size() == 0,
    {
        Self::new()
    }
}

/// A memtable as the write path sees it: its map and its tracked size.
pub struct MemModel {
    pub map: Map<Seq<u8>, ValueView>,
    pub size: int,
}

impl MemModel {
    pub open spec fn empty() -> MemModel {
        MemModel { map: Map::empty(), size: 0 }
    }

    /// The effect of `MemTable::put`.
    pub open spec fn put(self, k: Seq<u8>, v: Seq<u8>) -> MemModel {
        MemModel {
            map: self.map.insert(k, ValueView::Put(v)),
            size: self.size + k.len() + v.len() - stored_size(self.map, k),
        }
    }

    /// The effect of `MemTable::delete`.
    pub open spec fn delete(self, k: Seq<u8>) -> MemModel {
        MemModel {
            map: self.map.insert(k, ValueView::Tombstone),
            size: self.size + k.len() - stored_size(self.map, k),
        }
    }
}

/// The bytes that an existing entry for `k` contributes to the size, or 0.
pub open spec fn stored_size(m: Map<Seq<u8>, ValueView>, k: Seq<u8>) -> nat {
    if m.contains_key(k) {
        k.len() + value_size(m[k])
    } else {
        0
    }
}

proof fn lemma_map_after_update(s: Seq<EntryView>, idx: int, e: EntryView)
    requires
        sorted_keys(s),
        sorted_keys(s.update(idx, e)),
        0 <= idx < s.len(),
        s[idx].0 == e.0,
    ensures
        entries_map(s.update(idx, e)) == entries_map(s).insert(e.0, e.1),
{
    let t = s.update(idx, e);
    lemma_entries_map_at(t, idx);
    assert forall|k: Seq<u8>| #[trigger] has_key(t, k) == has_key(s, k) by {
        if has_key(t, k) {
            let i = choose|i: int| 0 <= i < t.len() && #[trigger] t[i].0 == k;
            assert(s[i].0 == k);
        }
        if has_key(s, k) {
            let i = choose|i: int| 0 <= i < s.len() && #[trigger] s[i].0 == k;
            assert(t[i].0 == k);
        }
    }
    assert forall|k: Seq<u8>| has_key(t, k) && k != e.0 implies entries_map(t)[k] == entries_map(s)[k] by {
        let i = choose|i: int| 0 <= i < t.len() && #[trigger] t[i].0 == k;
        lemma_entries_map_at(t, i);
        lemma_entries_map_at(s, i);
    }
    assert(entries_map(t) =~= entries_map(s).insert(e.0, e.1));
}

proof fn lemma_map_after_insert(s: Seq<EntryView>, idx: int, e: EntryView)
    requires
        sorted_keys(s),
        sorted_keys(s.insert(idx, e)),
        0 <= idx <= s.len(),
    ensures
        entries_map(s.insert(idx, e)) == entries_map(s).insert(e.0, e.1),
{
    let t = s.insert(idx, e);
    assert(t[idx] == e);
    lemma_entries_map_at(t, idx);
    assert forall|k: Seq<u8>| #[trigger] has_key(t, k) == (has_key(s, k) || k == e.0) by {
        if has_key(t, k) {
            let i = choose|i: int| 0 <= i < t.len() && #[trigger] t[i].0 == k;
            if i < idx {
                assert(s[i].0 == k);
            } else if i > idx {
                assert(s[i - 1].0 == k);
            }
        }
        if has_key(s, k) {
            let i = choose|i: int| 0 <= i < s.len() && #[trigger] s[i].0 == k;
            if i < idx {
                assert(t[i].0 == k);
            } else {
                assert(t[i + 1].0 == k);
            }
        }
    }
    assert forall|k: Seq<u8>| has_key(t, k) && k != e.0 implies entries_map(t)[k] == entries_map(s)[k] by {
        let i = choose|i: int| 0 <= i < t.len() && #[trigger] t[i].0 == k;
        lemma_entries_map_at(t, i);
        if i < idx {
            assert(s[i] == t[i]);
            lemma_entries_map_at(s, i);
        } else {
            assert(s[i - 1] == t[i]);
            lemma_entries_map_at(s, i - 1);
        }
    }
    assert(entries_map(t) =~= entries_map(s).insert(e.0, e.1));
}

proof fn lemma_entries_map_finite(s: Seq<EntryView>)
    requires
        sorted_keys(s),
    ensures
        entries_map(s).dom().finite(),
        entries_map(s).len() == s.len(),
{
    let keys = s.map_values(|e: EntryView| e.0);
    assert(entries_map(s).dom() =~= keys.to_set()) by {
        assert forall|k: Seq<u8>| entries_map(s).dom().contains(k) implies keys.to_set().contains(k) by {
            let i = choose|i: int| 0 <= i < s.len() && #[trigger] s[i].0 == k;
            assert(keys[i] == k);
        }
        assert forall|k: Seq<u8>| keys.to_set().contains(k) implies entries_map(s).dom().contains(k) by {
            let i = choose|i: int| 0 <= i < keys.len() && #[trigger] keys[i] == k;
            assert(s[i].0 == k);
        }
    }
    assert(keys.no_duplicates()) by {
        assert forall|i: int, j: int| 0 <= i < keys.len() && 0 <= j < keys.len() && i != j implies keys[i] != keys[j] by {
            if i < j {
                assert(key_lt(s[i].0, s[j].0));
                lemma_key_lt_irreflexive(s[i].0);
            } else {
                assert(key_lt(s[j].0, s[i].0));
                lemma_key_lt_irreflexive(s[j].0);
            }
        }
    }
    keys.unique_seq_to_set();
}

} // verus!
