//! Sorted table files.
//!
//! On-disk SSTable format:
//!
//! ```text
//! [data block]   — one frame per entry: [u32 len][bincode (key, Option<value>)]
//! [index block]  — one frame: [u32 len][bincode Vec<(key, offset)>]
//! [footer]       — u64 LE: byte offset where the index block starts
//! ```
use crate::codec::{
    deserialize_index, deserialize_record, index_encoding, index_view, le64, parse_index, parse_record,
    record_encoding, serialize_index, serialize_record,
};
pub use crate::entries::Entry;
use crate::entries::{entries_view, entry_view, map_of, opt_bytes, sorted, EntryView};
use crate::error::{invalid_seek, unexpected_eof, KvError};
use crate::frame::{encode_frame, frame, frame_at, read_frame};
use crate::keys::{bytes_lt, compare_keys, KeyOrder};
use vstd::bytes::{spec_u64_from_le_bytes, u64_from_le_bytes, u64_to_le_bytes};
use vstd::prelude::*;
use vstd::slice::{slice_subrange, slice_to_vec};

verus! {

/// The data block of a run of entries: the frame of each entry's record.
pub open spec fn data_block(es: Seq<EntryView>) -> Seq<u8>
    decreases es.len(),
{
    if es.len() == 0 {
        Seq::empty()
    } else {
        data_block(es.drop_last()) + frame(record_encoding(es.last()))
    }
}

/// The index of a run of entries: each key with the offset of its frame.
pub open spec fn table_index(es: Seq<EntryView>) -> Seq<(Seq<u8>, u64)> {
    Seq::new(es.len(), |i: int| (es[i].0, data_block(es.take(i)).len() as u64))
}

/// The bytes of the table file of a run of entries.
pub open spec fn table_file(es: Seq<EntryView>) -> Seq<u8> {
    data_block(es) + frame(index_encoding(table_index(es))) + le64(data_block(es).len() as u64)
}

/// Metadata about an SSTable file on disk.
#[derive(Debug, Clone)]
pub struct SSTableMeta {
    /// Path to the SSTable file.
    pub path: String,
    /// Number of entries (including tombstones).
    pub entry_count: usize,
    /// Smallest key in this SSTable.
    pub min_key: Vec<u8>,
    /// Largest key in this SSTable.
    pub max_key: Vec<u8>,
    /// Level in the LSM tree (0 = freshly flushed).
    pub level: usize,
}

/// Table metadata as plain values.
pub struct SSTableMetaView {
    pub path: Seq<char>,
    pub entry_count: nat,
    pub min_key: Seq<u8>,
    pub max_key: Seq<u8>,
    pub level: nat,
}

impl View for SSTableMeta {
    type V = SSTableMetaView;

    open spec fn view(&self) -> SSTableMetaView {
        SSTableMetaView {
            path: self.path@,
            entry_count: self.entry_count as nat,
            min_key: self.min_key@,
            max_key: self.max_key@,
            level: self.level as nat,
        }
    }
}

/// The metadata of a table with these keys in this order: the count, the
/// first and the last key (empty where there is none).
pub open spec fn meta_for(path: Seq<char>, keys: Seq<Seq<u8>>, level: nat) -> SSTableMetaView {
    SSTableMetaView {
        path,
        entry_count: keys.len(),
        min_key: if keys.len() > 0 { keys[0] } else { Seq::empty() },
        max_key: if keys.len() > 0 { keys.last() } else { Seq::empty() },
        level,
    }
}

/// The metadata of a table describes its keys: the path and level it was
/// given, as many entries as keys, and where there are keys, the first
/// (smallest) as the minimum and the last (largest) as the maximum; empty
/// keys where there are none.
pub proof fn lemma_meta_for(path: Seq<char>, keys: Seq<Seq<u8>>, level: nat)
    ensures
        meta_for(path, keys, level).path == path,
        meta_for(path, keys, level).level == level,
        meta_for(path, keys, level).entry_count == keys.len(),
        keys.len() > 0 ==> meta_for(path, keys, level).min_key == keys[0],
        keys.len() > 0 ==> meta_for(path, keys, level).max_key == keys[keys.len() - 1],
        keys.len() == 0 ==> meta_for(path, keys, level).min_key.len() == 0 && meta_for(path, keys, level).max_key.len() == 0,
{
}

impl SSTableMeta {
    /// A copy of the metadata.
    pub fn duplicate(&self) -> (r: Self)
        ensures
            r@ == self@,
    {
        SSTableMeta {
            path: self.path.clone(),
            entry_count: self.entry_count,
            min_key: slice_to_vec(self.min_key.as_slice()),
            max_key: slice_to_vec(self.max_key.as_slice()),
            level: self.level,
        }
    }
}

/// A copy of a byte string.
pub fn copy_bytes(b: &Vec<u8>) -> (r: Vec<u8>)
    ensures
        r@ == b@,
{
    slice_to_vec(b.as_slice())
}

/// Writes a sorted sequence of key-value entries as the bytes of a table
/// file.
pub struct SSTableWriter;

impl SSTableWriter {
    /// Encodes `entries` (sorted by key, as the engine hands them over) as a
    /// table file for `path`, and returns its bytes with the metadata that
    /// describes the table. It always succeeds: the encodings it asks of
    /// `bincode` cannot fail.
    pub fn write(path: &String, entries: &[Entry], level: usize) -> (r: Result<(Vec<u8>, SSTableMeta), KvError>)
        ensures
            r matches Ok((bytes, meta)) && bytes@ == table_file(entries_view(entries@)) && meta@ == meta_for(
                path@,
                entries_view(entries@).map_values(|e: EntryView| e.0),
                level as nat,
            ),
            r matches Ok((_, meta)) && meta.entry_count == entries@.len() && meta.level == level && meta.path@ == path@,
            entries@.len() > 0 ==> (r matches Ok((_, meta)) && meta.min_key@ == entries@[0].0@ && meta.max_key@
                == entries@[entries@.len() - 1].0@),
            entries@.len() == 0 ==> (r matches Ok((_, meta)) && meta.min_key@.len() == 0 && meta.max_key@.len() == 0),
    {
        let ghost es = entries_view(entries@);
        let mut out: Vec<u8> = Vec::new();
        let mut index: Vec<(Vec<u8>, u64)> = Vec::new();
        let mut i: usize = 0;
        proof {
            assert(es.take(0) =~= Seq::<EntryView>::empty());
            assert(table_index(es.take(0)) =~= Seq::<(Seq<u8>, u64)>::empty());
            assert(index_view(index@) =~= Seq::<(Seq<u8>, u64)>::empty());
        }
        while i < entries.len()
            invariant
                es == entries_view(entries@),
                i <= entries@.len(),
                out@ == data_block(es.take(i as int)),
                index_view(index@) == table_index(es.take(i as int)),
            decreases entries@.len() - i,
        {
            let offset = out.len() as u64;
            let key = copy_bytes(&entries[i].0);
            let encoded = match serialize_record(entries[i].0.as_slice(), &entries[i].1) {
                Ok(b) => b,
                Err(e) => {
                    return Err(KvError::Serialization(e));
                },
            };
            let ghost before = index_view(index@);
            index.push((key, offset));
            let mut framed = encode_frame(encoded.as_slice());
            out.append(&mut framed);
            proof {
                let t = es.take(i as int + 1);
                assert(t.drop_last() =~= es.take(i as int));
                assert(t.last() == es[i as int]);
                assert(es[i as int] == entry_view(entries@[i as int]));
                assert(index_view(index@) =~= before.push((es[i as int].0, offset)));
                assert forall|j: int| 0 <= j < t.len() implies #[trigger] table_index(t)[j] == index_view(index@)[j] by {
                    if j < i {
                        assert(t.take(j) =~= es.take(i as int).take(j));
                    } else {
                        assert(t.take(j) =~= es.take(i as int));
                    }
                }
                assert(table_index(t) =~= index_view(index@));
            }
            i = i + 1;
        }
        proof {
            assert(es.take(i as int) =~= es);
        }
        let index_offset = out.len() as u64;
        let index_bytes = match serialize_index(&index) {
            Ok(b) => b,
            Err(e) => {
                return Err(KvError::Serialization(e));
            },
        };
        let mut framed = encode_frame(index_bytes.as_slice());
        out.append(&mut framed);
        let mut footer = u64_to_le_bytes(index_offset);
        out.append(&mut footer);
        let n = entries.len();
        let min_key = if n > 0 {
            copy_bytes(&entries[0].0)
        } else {
            Vec::new()
        };
        let max_key = if n > 0 {
            copy_bytes(&entries[n - 1].0)
        } else {
            Vec::new()
        };
        let meta = SSTableMeta { path: path.clone(), entry_count: n, min_key, max_key, level };
        proof {
            let keys = es.map_values(|e: EntryView| e.0);
            if n > 0 {
                assert(keys[0] == es[0].0);
                assert(keys.last() == es[n - 1].0);
            }
            assert(meta.min_key@ =~= meta_for(path@, keys, level as nat).min_key);
            assert(meta.max_key@ =~= meta_for(path@, keys, level as nat).max_key);
        }
        Ok((out, meta))
    }
}

/// How reading a piece of a file turned out: the value read, or the bytes
/// ended too early (an I/O error), or they held no valid encoding (a
/// serialization error).
pub enum Decoded<T> {
    Value(T),
    Truncated,
    Malformed,
}

/// `e` is the error that the store reports for `d`.
pub open spec fn error_for<T>(e: KvError, d: Decoded<T>) -> bool {
    match d {
        Decoded::Truncated => e is Io,
        Decoded::Malformed => e is Serialization,
        Decoded::Value(_) => false,
    }
}

/// The offset that the footer (the last eight bytes) of a file holds.
pub open spec fn footer_offset(f: Seq<u8>) -> u64 {
    spec_u64_from_le_bytes(f.subrange(f.len() - 8, f.len() as int))
}

/// The index of a table file.
pub open spec fn open_index(f: Seq<u8>) -> Decoded<Seq<(Seq<u8>, u64)>> {
    if f.len() < 8 {
        Decoded::Truncated
    } else {
        match frame_at(f, footer_offset(f) as int) {
            None => Decoded::Truncated,
            Some((b, _)) => match parse_index(b) {
                None => Decoded::Malformed,
                Some(idx) => Decoded::Value(idx),
            },
        }
    }
}

/// The record whose frame starts at `off`.
pub open spec fn record_at(f: Seq<u8>, off: int) -> Decoded<EntryView> {
    match frame_at(f, off) {
        None => Decoded::Truncated,
        Some((b, _)) => match parse_record(b) {
            None => Decoded::Malformed,
            Some(e) => Decoded::Value(e),
        },
    }
}

/// The records that an index points at, in index order, up to the first
/// that cannot be read.
pub open spec fn scan_records(idx: Seq<(Seq<u8>, u64)>, f: Seq<u8>) -> Decoded<Seq<EntryView>>
    decreases idx.len(),
{
    if idx.len() == 0 {
        Decoded::Value(Seq::empty())
    } else {
        match scan_records(idx.drop_last(), f) {
            Decoded::Value(es) => match record_at(f, idx.last().1 as int) {
                Decoded::Value(e) => Decoded::Value(es.push(e)),
                Decoded::Truncated => Decoded::Truncated,
                Decoded::Malformed => Decoded::Malformed,
            },
            Decoded::Truncated => Decoded::Truncated,
            Decoded::Malformed => Decoded::Malformed,
        }
    }
}

/// The keys of an index are strictly increasing.
pub open spec fn index_sorted(idx: Seq<(Seq<u8>, u64)>) -> bool {
    forall|i: int, j: int| 0 <= i < j < idx.len() ==> #[trigger] bytes_lt(idx[i].0, idx[j].0)
}

/// The result of a point lookup, read from the record at `off`.
pub open spec fn lookup_matches(r: Result<Option<Option<Vec<u8>>>, KvError>, f: Seq<u8>, off: int) -> bool {
    match record_at(f, off) {
        Decoded::Value(e) => r matches Ok(Some(v)) && opt_bytes(v) == e.1,
        d => r matches Err(e) && error_for(e, d),
    }
}

/// The point lookup of `key` in a table whose index is `idx` and whose
/// file holds `f`: `Value(None)` where the index lacks the key, else the
/// value (or tombstone) of the record that the index points at.
pub open spec fn table_lookup(idx: Seq<(Seq<u8>, u64)>, f: Seq<u8>, key: Seq<u8>) -> Decoded<Option<Option<Seq<u8>>>> {
    if exists|i: int| 0 <= i < idx.len() && #[trigger] idx[i].0 == key {
        let i = position_of(idx, key);
        match record_at(f, idx[i].1 as int) {
            Decoded::Value(e) => Decoded::Value(Some(e.1)),
            Decoded::Truncated => Decoded::Truncated,
            Decoded::Malformed => Decoded::Malformed,
        }
    } else {
        Decoded::Value(None)
    }
}

/// A position of `key` in the index, where it has one.
pub open spec fn position_of(idx: Seq<(Seq<u8>, u64)>, key: Seq<u8>) -> int {
    choose|i: int| 0 <= i < idx.len() && #[trigger] idx[i].0 == key
}

/// In a sorted index, a key has one position only.
pub proof fn lemma_position_unique(idx: Seq<(Seq<u8>, u64)>, key: Seq<u8>, i: int)
    requires
        index_sorted(idx),
        0 <= i < idx.len(),
        idx[i].0 == key,
    ensures
        position_of(idx, key) == i,
{
    let j = position_of(idx, key);
    crate::keys::lemma_bytes_lt_irreflexive(key);
    if j < i {
        assert(bytes_lt(idx[j].0, idx[i].0));
    } else if j > i {
        assert(bytes_lt(idx[i].0, idx[j].0));
    }
}

/// A lookup's result is what `d` describes.
pub open spec fn lookup_result(r: Result<Option<Option<Vec<u8>>>, KvError>, d: Decoded<Option<Option<Seq<u8>>>>) -> bool {
    match d {
        Decoded::Value(None) => r matches Ok(None),
        Decoded::Value(Some(v)) => r matches Ok(Some(x)) && opt_bytes(x) == v,
        d => r matches Err(e) && error_for(e, d),
    }
}

/// Binary search of an index for a key: a position holding the key, or
/// `None`, which in a sorted index means that the key is absent.
pub fn search_index(index: &Vec<(Vec<u8>, u64)>, key: &[u8]) -> (r: Option<usize>)
    ensures
        r matches Some(i) ==> i < index@.len() && index_view(index@)[i as int].0 == key@,
        r is None ==> (index_sorted(index_view(index@)) ==> forall|j: int|
            0 <= j < index@.len() ==> #[trigger] index_view(index@)[j].0 != key@),
{
    let ghost s = index_view(index@);
    let mut lo: usize = 0;
    let mut hi: usize = index.len();
    while lo < hi
        invariant
            s == index_view(index@),
            s.len() == index@.len(),
            lo <= hi <= index@.len(),
            index_sorted(s) ==> forall|j: int| 0 <= j < lo ==> #[trigger] bytes_lt(s[j].0, key@),
            index_sorted(s) ==> forall|j: int| hi <= j < s.len() ==> #[trigger] bytes_lt(key@, s[j].0),
        decreases hi - lo,
    {
        let mid = lo + (hi - lo) / 2;
        let c = compare_keys(index[mid].0.as_slice(), key);
        assert(s[mid as int].0 == index@[mid as int].0@);
        match c {
            KeyOrder::Equal => {
                return Some(mid);
            },
            KeyOrder::Less => {
                proof {
                    if index_sorted(s) {
                        assert forall|j: int| 0 <= j < mid + 1 implies #[trigger] bytes_lt(s[j].0, key@) by {
                            if j < mid {
                                crate::keys::lemma_bytes_lt_transitive(s[j].0, s[mid as int].0, key@);
                            }
                        }
                    }
                }
                lo = mid + 1;
            },
            KeyOrder::Greater => {
                proof {
                    if index_sorted(s) {
                        assert forall|j: int| mid <= j < s.len() implies #[trigger] bytes_lt(key@, s[j].0) by {
                            if j > mid {
                                crate::keys::lemma_bytes_lt_transitive(key@, s[mid as int].0, s[j].0);
                            }
                        }
                    }
                }
                hi = mid;
            },
        }
    }
    proof {
        if index_sorted(s) {
            assert forall|j: int| 0 <= j < index@.len() implies #[trigger] s[j].0 != key@ by {
                crate::keys::lemma_bytes_lt_irreflexive(key@);
                if j < lo {
                    assert(bytes_lt(s[j].0, key@));
                } else {
                    assert(bytes_lt(key@, s[j].0));
                }
            }
        }
    }
    None
}

/// Reads the record whose frame starts at `off`.
fn read_record(file: &[u8], off: u64) -> (r: Result<(Vec<u8>, Option<Vec<u8>>), KvError>)
    ensures
        match record_at(file@, off as int) {
            Decoded::Value(e) => r matches Ok(x) && entry_view(x) == e,
            d => r matches Err(e) && error_for(e, d),
        },
{
    if off > file.len() as u64 {
        return Err(KvError::Io(unexpected_eof()));
    }
    match read_frame(file, off as usize) {
        None => Err(KvError::Io(unexpected_eof())),
        Some((payload, _)) => match deserialize_record(payload.as_slice()) {
            Ok(e) => Ok(e),
            Err(e) => Err(KvError::Serialization(e)),
        },
    }
}

/// Reads point-lookups from an SSTable file, keeping only the index in memory.
pub struct SSTableReader {
    path: String,
    /// In-memory index: sorted list of (key, data_offset).
    index: Vec<(Vec<u8>, u64)>,
    pub meta: SSTableMeta,
}

impl SSTableReader {
    /// The index as plain bytes.
    pub closed spec fn index_spec(&self) -> Seq<(Seq<u8>, u64)> {
        index_view(self.index@)
    }

    /// The table's metadata.
    pub closed spec fn meta_spec(&self) -> SSTableMetaView {
        self.meta@
    }

    /// The table's metadata.
    pub fn meta(&self) -> (r: &SSTableMeta)
        ensures
            r@ == self.meta_spec(),
    {
        &self.meta
    }

    /// The path of the table file.
    pub closed spec fn path_spec(&self) -> Seq<char> {
        self.path@
    }

    /// Opens a table from the bytes `file` of its file at `path`: reads the
    /// footer, then the frame of the index block that it points at, and
    /// decodes the index.
    pub fn open(path: &String, file: &[u8], level: usize) -> (r: Result<Self, KvError>)
        ensures
            match open_index(file@) {
                Decoded::Value(idx) => r matches Ok(reader) && {
                    &&& reader.index_spec() == idx
                    &&& reader.path_spec() == path@
                    &&& reader.meta_spec() == meta_for(path@, idx.map_values(|e: (Seq<u8>, u64)| e.0), level as nat)
                    &&& reader.meta_spec().entry_count == idx.len()
                    &&& reader.meta_spec().level == level
                    &&& idx.len() > 0 ==> reader.meta_spec().min_key == idx[0].0 && reader.meta_spec().max_key
                        == idx[idx.len() - 1].0
                },
                d => r matches Err(e) && error_for(e, d),
            },
    {
        let n = file.len();
        if n < 8 {
            return Err(KvError::Io(invalid_seek()));
        }
        let index_offset = u64_from_le_bytes(slice_subrange(file, n - 8, n));
        if index_offset > n as u64 {
            return Err(KvError::Io(unexpected_eof()));
        }
        let index_bytes = match read_frame(file, index_offset as usize) {
            None => {
                return Err(KvError::Io(unexpected_eof()));
            },
            Some((b, _)) => b,
        };
        let index = match deserialize_index(index_bytes.as_slice()) {
            Ok(idx) => idx,
            Err(e) => {
                return Err(KvError::Serialization(e));
            },
        };
        let entry_count = index.len();
        let min_key = if entry_count > 0 {
            copy_bytes(&index[0].0)
        } else {
            Vec::new()
        };
        let max_key = if entry_count > 0 {
            copy_bytes(&index[entry_count - 1].0)
        } else {
            Vec::new()
        };
        let meta = SSTableMeta { path: path.clone(), entry_count, min_key, max_key, level };
        proof {
            let idx = index_view(index@);
            let keys = idx.map_values(|e: (Seq<u8>, u64)| e.0);
            if entry_count > 0 {
                assert(keys[0] == idx[0].0);
                assert(keys.last() == idx[entry_count - 1].0);
            }
            assert(meta.min_key@ =~= meta_for(path@, keys, level as nat).min_key);
            assert(meta.max_key@ =~= meta_for(path@, keys, level as nat).max_key);
        }
        Ok(SSTableReader { path: path.clone(), index, meta })
    }

    /// Point-lookup for a key in the table whose file holds `file`.
    ///
    /// Returns:
    /// - `Ok(Some(Some(value)))` — key found with a live value
    /// - `Ok(Some(None))` — key found as a tombstone
    /// - `Ok(None)` — key not in this SSTable
    pub fn get(&self, key: &[u8], file: &[u8]) -> (r: Result<Option<Option<Vec<u8>>>, KvError>)
        ensures
            r is Ok && r->Ok_0 is None ==> (index_sorted(self.index_spec()) ==> forall|j: int|
                0 <= j < self.index_spec().len() ==> #[trigger] self.index_spec()[j].0 != key@),
            !(r is Ok && r->Ok_0 is None) ==> exists|i: int| 0 <= i < self.index_spec().len()
                && #[trigger] self.index_spec()[i].0 == key@
                && lookup_matches(r, file@, self.index_spec()[i].1 as int),
            index_sorted(self.index_spec()) ==> lookup_result(r, table_lookup(self.index_spec(), file@, key@)),
    {
        match search_index(&self.index, key) {
            None => {
                assert(!(exists|j: int| 0 <= j < self.index_spec().len() && #[trigger] self.index_spec()[j].0 == key@) || !index_sorted(self.index_spec()));
                Ok(None)
            },
            Some(i) => {
                let offset = self.index[i].1;
                assert(self.index_spec()[i as int].0 == key@);
                assert(self.index_spec()[i as int].1 == offset);
                match read_record(file, offset) {
                    Ok((_key, value)) => {
                        let r = Ok(Some(value));
                        assert(lookup_matches(r, file@, self.index_spec()[i as int].1 as int));
                        proof {
                            if index_sorted(self.index_spec()) {
                                lemma_position_unique(self.index_spec(), key@, i as int);
                            }
                        }
                        r
                    },
                    Err(e) => {
                        let r = Err(e);
                        assert(lookup_matches(r, file@, self.index_spec()[i as int].1 as int));
                        proof {
                            if index_sorted(self.index_spec()) {
                                lemma_position_unique(self.index_spec(), key@, i as int);
                            }
                        }
                        r
                    },
                }
            },
        }
    }

    /// Returns the path to this SSTable file.
    pub fn path(&self) -> (r: &String)
        ensures
            r@ == self.path_spec(),
    {
        &self.path
    }

    /// Reads all entries of the table whose file holds `file`, in index
    /// order. Used during compaction.
    pub fn scan_all(&self, file: &[u8]) -> (r: Result<Vec<Entry>, KvError>)
        ensures
            match scan_records(self.index_spec(), file@) {
                Decoded::Value(es) => r matches Ok(v) && entries_view(v@) == es,
                d => r matches Err(e) && error_for(e, d),
            },
    {
        let ghost idx = self.index_spec();
        let mut entries: Vec<Entry> = Vec::new();
        let mut i: usize = 0;
        proof {
            assert(idx.take(0) =~= Seq::<(Seq<u8>, u64)>::empty());
            assert(entries_view(entries@) =~= Seq::<EntryView>::empty());
        }
        while i < self.index.len()
            invariant
                idx == self.index_spec(),
                idx.len() == self.index@.len(),
                i <= idx.len(),
                scan_records(idx.take(i as int), file@) == Decoded::Value(entries_view(entries@)),
            decreases idx.len() - i,
        {
            let offset = self.index[i].1;
            proof {
                let t = idx.take(i as int + 1);
                assert(t.drop_last() =~= idx.take(i as int));
                assert(t.last().1 == offset);
            }
            match read_record(file, offset) {
                Ok(e) => {
                    let ghost before = entries_view(entries@);
                    entries.push(e);
                    assert(entries_view(entries@) =~= before.push(entry_view(e)));
                },
                Err(e) => {
                    proof {
                        lemma_scan_records_stops(idx, file@, i as int + 1);
                        assert(idx.take(i as int + 1).take(i as int + 1) =~= idx.take(i as int + 1));
                    }
                    return Err(e);
                },
            }
            i = i + 1;
        }
        proof {
            assert(idx.take(i as int) =~= idx);
        }
        Ok(entries)
    }
}

/// Once a record cannot be read, the scan fails as that record did.
proof fn lemma_scan_records_stops(idx: Seq<(Seq<u8>, u64)>, f: Seq<u8>, k: int)
    requires
        0 < k <= idx.len(),
        !(scan_records(idx.take(k), f) is Value),
    ensures
        scan_records(idx, f) == scan_records(idx.take(k), f),
    decreases idx.len() - k,
{
    if k < idx.len() {
        assert(idx.take(k + 1).drop_last() =~= idx.take(k));
        lemma_scan_records_stops(idx, f, k + 1);
    } else {
        assert(idx.take(k) =~= idx);
    }
}

/// The data block of a prefix of a run is a prefix of the run's data block.
proof fn lemma_data_block_prefix(es: Seq<EntryView>, k: int)
    requires
        0 <= k <= es.len(),
    ensures
        data_block(es.take(k)).len() <= data_block(es).len(),
        data_block(es).subrange(0, data_block(es.take(k)).len() as int) == data_block(es.take(k)),
    decreases es.len(),
{
    if k == es.len() {
        assert(es.take(k) =~= es);
    } else {
        let t = es.drop_last();
        assert(es.take(k) =~= t.take(k));
        lemma_data_block_prefix(t, k);
        assert(data_block(es).subrange(0, data_block(t.take(k)).len() as int) =~= data_block(t).subrange(
            0,
            data_block(t.take(k)).len() as int,
        ));
    }
}

/// A frame that can be read from some bytes can still be read where more
/// bytes follow.
proof fn lemma_frame_at_extend(p: Seq<u8>, q: Seq<u8>, pos: int)
    requires
        frame_at(p, pos) is Some,
    ensures
        frame_at(p + q, pos) == frame_at(p, pos),
{
    let b = p + q;
    assert(b.subrange(pos, pos + 4) =~= p.subrange(pos, pos + 4));
    let n = vstd::bytes::spec_u32_from_le_bytes(p.subrange(pos, pos + 4)) as int;
    assert(b.subrange(pos + 4, pos + 4 + n) =~= p.subrange(pos + 4, pos + 4 + n));
}

/// Entry `i` of a run is the record that the table file holds at the
/// offset that its index gives.
proof fn lemma_table_record(es: Seq<EntryView>, i: int)
    requires
        0 <= i < es.len(),
        table_fits(es),
    ensures
        table_index(es)[i].1 == data_block(es.take(i)).len(),
        record_at(table_file(es), table_index(es)[i].1 as int) == Decoded::Value(es[i]),
{
    let f = table_file(es);
    let pre = data_block(es.take(i));
    let t = es.take(i + 1);
    assert(t.drop_last() =~= es.take(i));
    assert(data_block(t) == pre + frame(record_encoding(es[i])));
    lemma_data_block_prefix(es, i + 1);
    lemma_data_block_prefix(es, i);
    assert(es[i].0.len() <= usize::MAX);
    assert(record_encoding(es[i]).len() <= u32::MAX);
    crate::frame::lemma_frame_at(pre, record_encoding(es[i]), Seq::empty());
    assert(pre + frame(record_encoding(es[i])) + Seq::<u8>::empty() =~= data_block(t));
    let rest = f.skip(data_block(t).len() as int);
    assert(f =~= data_block(t) + rest);
    lemma_frame_at_extend(data_block(t), rest, pre.len() as int);
    crate::codec::lemma_record_roundtrip(es[i], Seq::empty());
    assert(record_encoding(es[i]) + Seq::<u8>::empty() =~= record_encoding(es[i]));
}

/// The sizes for which a table file reads back: every record's frame and
/// the index's frame fit the 32-bit length, and offsets fit 64 bits.
pub open spec fn table_fits(es: Seq<EntryView>) -> bool {
    &&& es.len() <= usize::MAX
    &&& forall|i: int| 0 <= i < es.len() ==> {
        &&& (#[trigger] es[i]).0.len() <= usize::MAX
        &&& (es[i].1 matches Some(v) ==> v.len() <= usize::MAX)
        &&& record_encoding(es[i]).len() <= u32::MAX
    }
    &&& index_encoding(table_index(es)).len() <= u32::MAX
    &&& data_block(es).len() <= u64::MAX
}

/// A table file reads back as what was written: its index is the run's
/// keys with their offsets, every record reads back, a scan gives back the
/// run, and a lookup of any key gives what the run's map holds for it.
pub proof fn lemma_table_roundtrip(es: Seq<EntryView>)
    requires
        sorted(es),
        table_fits(es),
    ensures
        open_index(table_file(es)) == Decoded::Value(table_index(es)),
        index_sorted(table_index(es)),
        scan_records(table_index(es), table_file(es)) == Decoded::Value(es),
        forall|key: Seq<u8>| #[trigger] table_lookup(table_index(es), table_file(es), key) == Decoded::Value(
            if map_of(es).contains_key(key) { Some(map_of(es)[key]) } else { None },
        ),
{
    let f = table_file(es);
    let idx = table_index(es);
    let db = data_block(es);
    // the footer and the index block
    crate::codec::lemma_read_u64(db + frame(index_encoding(idx)), db.len() as u64, Seq::empty());
    assert(f.subrange(f.len() - 8, f.len() as int) =~= le64(db.len() as u64));
    vstd::bytes::lemma_auto_spec_u64_to_from_le_bytes();
    assert(footer_offset(f) == db.len());
    crate::frame::lemma_frame_at(db, index_encoding(idx), le64(db.len() as u64));
    assert forall|i: int| 0 <= i < idx.len() implies (#[trigger] idx[i]).0.len() <= usize::MAX by {
        assert(es[i].0.len() <= usize::MAX);
    }
    crate::codec::lemma_index_roundtrip(idx, Seq::empty());
    assert(index_encoding(idx) + Seq::<u8>::empty() =~= index_encoding(idx));
    // sortedness of the index
    assert forall|i: int, j: int| 0 <= i < j < idx.len() implies #[trigger] bytes_lt(idx[i].0, idx[j].0) by {
        assert(bytes_lt(es[i].0, es[j].0));
    }
    // the scan
    assert forall|k: int| 0 <= k <= es.len() implies #[trigger] scan_records(idx.take(k), f) == Decoded::Value(es.take(k)) by {
        lemma_scan_prefix(es, k);
    }
    assert(idx.take(es.len() as int) =~= idx);
    assert(es.take(es.len() as int) =~= es);
    // lookups
    assert forall|key: Seq<u8>| #[trigger] table_lookup(idx, f, key) == Decoded::Value(
        if map_of(es).contains_key(key) { Some(map_of(es)[key]) } else { None },
    ) by {
        crate::entries::lemma_map_of_sorted(es, key);
        if exists|i: int| 0 <= i < idx.len() && #[trigger] idx[i].0 == key {
            let i = choose|i: int| 0 <= i < idx.len() && #[trigger] idx[i].0 == key;
            lemma_position_unique(idx, key, i);
            lemma_table_record(es, i);
            assert(es[i].0 == key);
        } else {
            if map_of(es).contains_key(key) {
                let i = choose|i: int| 0 <= i < es.len() && #[trigger] es[i].0 == key;
                assert(idx[i].0 == key);
            }
        }
    }
}

/// A scan of the first `k` index items gives back the first `k` entries.
proof fn lemma_scan_prefix(es: Seq<EntryView>, k: int)
    requires
        table_fits(es),
        0 <= k <= es.len(),
    ensures
        scan_records(table_index(es).take(k), table_file(es)) == Decoded::Value(es.take(k)),
    decreases k,
{
    let idx = table_index(es);
    if k == 0 {
        assert(idx.take(0) =~= Seq::<(Seq<u8>, u64)>::empty());
        assert(es.take(0) =~= Seq::<EntryView>::empty());
    } else {
        lemma_scan_prefix(es, k - 1);
        assert(idx.take(k).drop_last() =~= idx.take(k - 1));
        lemma_table_record(es, k - 1);
        assert(es.take(k - 1).push(es[k - 1]) =~= es.take(k));
    }
}

} // verus!
