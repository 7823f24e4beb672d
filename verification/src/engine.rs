//! The engine: the memtable, the tables (newest first) and the manifest
//! that lists them, with the rules for lookups, listing, flushing and
//! compaction. The caller does the file work: it hands the engine the
//! bytes of the table files and stores what the engine returns.
use crate::entries::{
    collect_live, drop_tombstones, entries_view, insert_entry, map_of, opt_bytes, sorted, Entry, EntryView,
};
use crate::error::KvError;
use crate::memtable::{size_after_delete, size_after_put, MemTable};
use crate::sstable::{
    copy_bytes, error_for, index_sorted, scan_records, table_lookup, Decoded, SSTableMeta, SSTableMetaView,
    SSTableReader, SSTableWriter,
};
use crate::wal::{apply_ops, ops_bytes, wal_ops, WalEntry};
use vstd::prelude::*;

verus! {

/// Default memtable flush threshold: 4 MB.
pub const DEFAULT_MEMTABLE_THRESHOLD: usize = 4 * 1024 * 1024;

/// Default: trigger compaction when a level has this many SSTables.
pub const DEFAULT_COMPACTION_THRESHOLD: usize = 4;

/// Configuration for a `KvStore` instance.
#[derive(Debug, Clone)]
pub struct KvStoreConfig {
    /// Directory where all data files (WAL, SSTables, manifest) are stored.
    pub db_path: String,
    /// Flush the memtable to an SSTable when its approximate size exceeds this.
    pub memtable_threshold: usize,
    /// Trigger compaction when a level has ≥ this many SSTables.
    pub compaction_threshold: usize,
    /// If `true`, fsync the WAL after every write (durable but slower).
    /// If `false`, WAL writes are buffered and fsynced only on memtable flush
    /// (higher throughput, but recent writes may be lost on crash).
    pub sync_writes: bool,
}

impl KvStoreConfig {
    /// Creates a config with defaults and the given database directory.
    pub fn new(db_path: String) -> (c: Self)
        ensures
            c.db_path@ == db_path@,
            c.memtable_threshold == DEFAULT_MEMTABLE_THRESHOLD,
            c.compaction_threshold == DEFAULT_COMPACTION_THRESHOLD,
            c.sync_writes,
    {
        KvStoreConfig {
            db_path,
            memtable_threshold: DEFAULT_MEMTABLE_THRESHOLD,
            compaction_threshold: DEFAULT_COMPACTION_THRESHOLD,
            sync_writes: true,
        }
    }
}

/// Persistent metadata: tracks active SSTable files and their levels, in
/// the order in which they were made (oldest first).
#[derive(Debug, Clone, Default)]
pub struct Manifest {
    pub sstables: Vec<SSTableMeta>,
}

impl Manifest {
    /// The metadata as plain values.
    pub open spec fn metas(&self) -> Seq<SSTableMetaView> {
        self.sstables@.map_values(|m: SSTableMeta| m@)
    }
}

/// A map from keys to values, where `None` is a tombstone.
pub type KvMap = Map<Seq<u8>, Option<Seq<u8>>>;

/// The map that a list of tables (newest first) stands for: a newer table's
/// entry takes the place of an older table's.
pub open spec fn tables_map(ts: Seq<KvMap>) -> KvMap
    decreases ts.len(),
{
    if ts.len() == 0 {
        Map::empty()
    } else {
        tables_map(ts.drop_first()).union_prefer_right(ts[0])
    }
}

/// What the store holds: the memtable's entries over the tables'.
pub open spec fn store_map(mem: KvMap, ts: Seq<KvMap>) -> KvMap {
    tables_map(ts).union_prefer_right(mem)
}

/// The live value that a map holds for a key: none where the key is absent
/// or deleted.
pub open spec fn visible(m: KvMap, key: Seq<u8>) -> Option<Seq<u8>> {
    if m.contains_key(key) {
        m[key]
    } else {
        None
    }
}

/// A lookup in the tables, newest first: the first table that holds the
/// key decides; a table that cannot be read ends the lookup.
pub open spec fn chain_tables(ts: Seq<(Seq<(Seq<u8>, u64)>, Seq<u8>)>, key: Seq<u8>) -> Decoded<Option<Seq<u8>>>
    decreases ts.len(),
{
    if ts.len() == 0 {
        Decoded::Value(None)
    } else {
        match table_lookup(ts[0].0, ts[0].1, key) {
            Decoded::Value(Some(v)) => Decoded::Value(v),
            Decoded::Value(None) => chain_tables(ts.drop_first(), key),
            Decoded::Truncated => Decoded::Truncated,
            Decoded::Malformed => Decoded::Malformed,
        }
    }
}

/// A lookup in the store: the memtable decides where it holds the key,
/// else the tables do.
pub open spec fn chain_lookup(mem: KvMap, ts: Seq<(Seq<(Seq<u8>, u64)>, Seq<u8>)>, key: Seq<u8>) -> Decoded<Option<Seq<u8>>> {
    if mem.contains_key(key) {
        Decoded::Value(mem[key])
    } else {
        chain_tables(ts, key)
    }
}

/// A store lookup's result is what `d` describes.
pub open spec fn get_result(r: Result<Option<Vec<u8>>, KvError>, d: Decoded<Option<Seq<u8>>>) -> bool {
    match d {
        Decoded::Value(None) => r matches Ok(None),
        Decoded::Value(Some(v)) => r matches Ok(Some(x)) && x@ == v,
        d => r matches Err(e) && error_for(e, d),
    }
}

/// The tables' indexes paired with the bytes of their files.
pub open spec fn table_inputs(idxs: Seq<Seq<(Seq<u8>, u64)>>, files: Seq<Seq<u8>>) -> Seq<(Seq<(Seq<u8>, u64)>, Seq<u8>)> {
    Seq::new(idxs.len(), |i: int| (idxs[i], files[i]))
}

/// The bytes of several files.
pub open spec fn files_view(files: Seq<Vec<u8>>) -> Seq<Seq<u8>> {
    files.map_values(|f: Vec<u8>| f@)
}


/// The entries of all tables, oldest table first, up to the first table
/// that cannot be read (tables are scanned oldest first).
pub open spec fn scan_tables(ts: Seq<(Seq<(Seq<u8>, u64)>, Seq<u8>)>) -> Decoded<Seq<EntryView>>
    decreases ts.len(),
{
    if ts.len() == 0 {
        Decoded::Value(Seq::empty())
    } else {
        match scan_tables(ts.drop_first()) {
            Decoded::Value(older) => match scan_records(ts[0].0, ts[0].1) {
                Decoded::Value(es) => Decoded::Value(older + es),
                Decoded::Truncated => Decoded::Truncated,
                Decoded::Malformed => Decoded::Malformed,
            },
            Decoded::Truncated => Decoded::Truncated,
            Decoded::Malformed => Decoded::Malformed,
        }
    }
}

/// Pairs of byte strings as plain bytes.
pub open spec fn pairs_view(v: Seq<(Vec<u8>, Vec<u8>)>) -> Seq<(Seq<u8>, Seq<u8>)> {
    v.map_values(|p: (Vec<u8>, Vec<u8>)| (p.0@, p.1@))
}

/// A copy of an entry.
fn copy_entry(e: &Entry) -> (r: Entry)
    ensures
        crate::entries::entry_view(r) == crate::entries::entry_view(*e),
{
    let v = match &e.1 {
        Some(x) => Some(copy_bytes(x)),
        None => None,
    };
    (copy_bytes(&e.0), v)
}

/// Once the scan of the tables from position `i` on fails, the scan of all
/// the tables fails in the same way.
proof fn lemma_scan_tables_failure(ts: Seq<(Seq<(Seq<u8>, u64)>, Seq<u8>)>, i: int)
    requires
        0 <= i <= ts.len(),
        !(scan_tables(ts.skip(i)) is Value),
    ensures
        scan_tables(ts) == scan_tables(ts.skip(i)),
    decreases i,
{
    if i > 0 {
        let prev = ts.skip(i - 1);
        assert(prev.drop_first() =~= ts.skip(i));
        lemma_scan_tables_failure(ts, i - 1);
    } else {
        assert(ts.skip(0) =~= ts);
    }
}

/// The tables that remain where those whose paths are listed are removed.
pub open spec fn keep_tables(ts: Seq<SSTableReader>, paths: Seq<Seq<char>>) -> Seq<SSTableReader>
    decreases ts.len(),
{
    if ts.len() == 0 {
        Seq::empty()
    } else if paths.contains(ts.last().path_spec()) {
        keep_tables(ts.drop_last(), paths)
    } else {
        keep_tables(ts.drop_last(), paths).push(ts.last())
    }
}

/// The manifest entries that remain where those whose paths are listed are
/// removed.
pub open spec fn keep_metas(ms: Seq<SSTableMetaView>, paths: Seq<Seq<char>>) -> Seq<SSTableMetaView>
    decreases ms.len(),
{
    if ms.len() == 0 {
        Seq::empty()
    } else if paths.contains(ms.last().path) {
        keep_metas(ms.drop_last(), paths)
    } else {
        keep_metas(ms.drop_last(), paths).push(ms.last())
    }
}

/// A manifest entry's path and level.
pub open spec fn meta_key(m: SSTableMetaView) -> (Seq<char>, nat) {
    (m.path, m.level)
}

/// A reader's path and level.
pub open spec fn reader_key(r: SSTableReader) -> (Seq<char>, nat) {
    (r.path_spec(), r.meta_spec().level)
}

/// The readers (newest first) are the manifest's entries (oldest first)
/// in reverse: the `i`-th reader has the path and level of the `i`-th
/// entry from the manifest's end.
pub open spec fn mirrored(ts: Seq<SSTableReader>, ms: Seq<SSTableMetaView>) -> bool {
    &&& ts.len() == ms.len()
    &&& forall|i: int| 0 <= i < ts.len() ==> reader_key(#[trigger] ts[i]) == meta_key(ms[ms.len() - 1 - i])
}

/// The manifest entries that remain, seen from the oldest.
proof fn lemma_keep_metas_first(ms: Seq<SSTableMetaView>, paths: Seq<Seq<char>>)
    requires
        ms.len() > 0,
    ensures
        keep_metas(ms, paths) == if paths.contains(ms[0].path) {
            keep_metas(ms.drop_first(), paths)
        } else {
            seq![ms[0]] + keep_metas(ms.drop_first(), paths)
        },
    decreases ms.len(),
{
    if ms.len() == 1 {
        assert(ms.drop_last().len() == 0);
        assert(ms.drop_first().len() == 0);
        assert(keep_metas(ms.drop_last(), paths) == Seq::<SSTableMetaView>::empty());
        assert(keep_metas(ms.drop_first(), paths) == Seq::<SSTableMetaView>::empty());
        assert(ms.last() == ms[0]);
        assert(seq![ms[0]] + Seq::<SSTableMetaView>::empty() =~= Seq::<SSTableMetaView>::empty().push(ms[0]));
    } else {
        let a = ms.drop_last();
        let b = ms.drop_first();
        lemma_keep_metas_first(a, paths);
        assert(a.drop_first() =~= b.drop_last());
        assert(b.last() == ms.last());
        assert(a[0] == ms[0]);
        let k = keep_metas(b.drop_last(), paths);
        let kb = keep_metas(b, paths);
        assert(kb == if paths.contains(ms.last().path) { k } else { k.push(ms.last()) });
        if !paths.contains(ms[0].path) {
            if !paths.contains(ms.last().path) {
                assert((seq![ms[0]] + k).push(ms.last()) =~= seq![ms[0]] + k.push(ms.last()));
            }
        }
    }
}

/// Removing the same paths from the readers and from the manifest keeps
/// them mirrored.
pub proof fn lemma_keep_mirrored(ts: Seq<SSTableReader>, ms: Seq<SSTableMetaView>, paths: Seq<Seq<char>>)
    requires
        mirrored(ts, ms),
    ensures
        mirrored(keep_tables(ts, paths), keep_metas(ms, paths)),
    decreases ts.len(),
{
    if ts.len() > 0 {
        let n = ts.len() - 1;
        assert(mirrored(ts.drop_last(), ms.drop_first())) by {
            assert forall|i: int| 0 <= i < n implies reader_key(#[trigger] ts.drop_last()[i]) == meta_key(
                ms.drop_first()[ms.drop_first().len() - 1 - i],
            ) by {
                assert(reader_key(ts[i]) == meta_key(ms[ms.len() - 1 - i]));
            }
        }
        lemma_keep_mirrored(ts.drop_last(), ms.drop_first(), paths);
        lemma_keep_metas_first(ms, paths);
        assert(reader_key(ts[n]) == meta_key(ms[0]));
        let kt = keep_tables(ts.drop_last(), paths);
        let km = keep_metas(ms.drop_first(), paths);
        if !paths.contains(ts.last().path_spec()) {
            let kt2 = kt.push(ts.last());
            let km2 = seq![ms[0]] + km;
            assert forall|i: int| 0 <= i < kt2.len() implies reader_key(#[trigger] kt2[i]) == meta_key(km2[km2.len() - 1 - i]) by {
                if i < kt.len() {
                    assert(kt2[i] == kt[i]);
                    assert(reader_key(kt[i]) == meta_key(km[km.len() - 1 - i]));
                    assert(km2[km2.len() - 1 - i] == km[km.len() - 1 - i]);
                }
            }
        }
    } else {
        assert(ms.len() == 0);
    }
}

/// Paths as plain characters.
pub open spec fn paths_view(paths: Seq<String>) -> Seq<Seq<char>> {
    paths.map_values(|p: String| p@)
}

/// How many manifest entries are at a level.
pub open spec fn count_at_level(ms: Seq<SSTableMetaView>, level: nat) -> nat
    decreases ms.len(),
{
    if ms.len() == 0 {
        0
    } else {
        count_at_level(ms.drop_last(), level) + if ms.last().level == level { 1nat } else { 0nat }
    }
}

/// The deepest level of the manifest's entries; zero where there is none.
pub open spec fn max_level_of(ms: Seq<SSTableMetaView>) -> nat
    decreases ms.len(),
{
    if ms.len() == 0 {
        0
    } else {
        let m = max_level_of(ms.drop_last());
        if ms.last().level > m {
            ms.last().level
        } else {
            m
        }
    }
}

/// The paths of the manifest's entries at a level, oldest first.
pub open spec fn paths_at_level(ms: Seq<SSTableMetaView>, level: nat) -> Seq<Seq<char>>
    decreases ms.len(),
{
    if ms.len() == 0 {
        Seq::empty()
    } else if ms.last().level == level {
        paths_at_level(ms.drop_last(), level).push(ms.last().path)
    } else {
        paths_at_level(ms.drop_last(), level)
    }
}

/// Some table outside `level` is older (comes earlier in the manifest)
/// than a table at `level`: compacting the level leaves it in place, and it
/// may hold a key that a tombstone of the level deletes.
pub open spec fn older_tables_remain(ms: Seq<SSTableMetaView>, level: nat) -> bool {
    exists|i: int, j: int| 0 <= i < j < ms.len() && #[trigger] ms[i].level != level && #[trigger] ms[j].level == level
}

/// The entries that compaction reads from the files of the tables it
/// merges, oldest first: a file that is missing (`None`) or that does not
/// open as a table is passed over; a table whose records cannot be read
/// ends the compaction.
pub open spec fn compaction_scan(files: Seq<Option<Seq<u8>>>) -> Decoded<Seq<EntryView>>
    decreases files.len(),
{
    if files.len() == 0 {
        Decoded::Value(Seq::empty())
    } else {
        match compaction_scan(files.drop_last()) {
            Decoded::Value(prev) => match files.last() {
                None => Decoded::Value(prev),
                Some(f) => match crate::sstable::open_index(f) {
                    Decoded::Value(idx) => match scan_records(idx, f) {
                        Decoded::Value(es) => Decoded::Value(prev + es),
                        Decoded::Truncated => Decoded::Truncated,
                        Decoded::Malformed => Decoded::Malformed,
                    },
                    _ => Decoded::Value(prev),
                },
            },
            Decoded::Truncated => Decoded::Truncated,
            Decoded::Malformed => Decoded::Malformed,
        }
    }
}

/// A table as the store reads it: its path, its index and its level.
pub type TableView = (Seq<char>, Seq<(Seq<u8>, u64)>, nat);

/// A reader seen as the table it reads.
pub open spec fn reader_view(r: SSTableReader) -> TableView {
    (r.path_spec(), r.index_spec(), r.meta_spec().level)
}

/// `tables` in front of what `d` holds; `d` itself where it failed.
pub open spec fn prefixed(tables: Seq<TableView>, d: Decoded<Seq<TableView>>) -> Decoded<Seq<TableView>> {
    match d {
        Decoded::Value(t) => Decoded::Value(tables + t),
        Decoded::Truncated => Decoded::Truncated,
        Decoded::Malformed => Decoded::Malformed,
    }
}

/// The tables that opening the store reads from the files of the
/// manifest's entries (`files[i]` is the file of `ms[i]`; `None` where it
/// is missing): newest first, in reverse manifest order, passing over the
/// missing files. The newest file that does not open as a table fails the
/// whole.
pub open spec fn manifest_tables(ms: Seq<SSTableMetaView>, files: Seq<Option<Seq<u8>>>) -> Decoded<Seq<TableView>>
    decreases ms.len(),
{
    if ms.len() == 0 || files.len() == 0 {
        Decoded::Value(Seq::empty())
    } else {
        let rest = manifest_tables(ms.drop_last(), files.drop_last());
        match files.last() {
            None => rest,
            Some(f) => match crate::sstable::open_index(f) {
                Decoded::Value(idx) => prefixed(seq![(ms.last().path, idx, ms.last().level)], rest),
                Decoded::Truncated => Decoded::Truncated,
                Decoded::Malformed => Decoded::Malformed,
            },
        }
    }
}

/// Where every file of the manifest is present, the tables opened are all
/// of its entries, newest first.
pub proof fn lemma_manifest_tables_all(ms: Seq<SSTableMetaView>, files: Seq<Option<Seq<u8>>>)
    requires
        ms.len() == files.len(),
        forall|i: int| 0 <= i < files.len() ==> #[trigger] files[i] is Some,
        manifest_tables(ms, files) is Value,
    ensures
        manifest_tables(ms, files)->Value_0.len() == ms.len(),
        forall|i: int| 0 <= i < ms.len() ==> {
            let t = #[trigger] manifest_tables(ms, files)->Value_0[i];
            (t.0, t.2) == meta_key(ms[ms.len() - 1 - i])
        },
    decreases ms.len(),
{
    if ms.len() > 0 {
        let fa = files.drop_last();
        assert forall|i: int| 0 <= i < fa.len() implies #[trigger] fa[i] is Some by {
            assert(files[i] is Some);
        }
        assert(files[files.len() - 1] is Some);
        let f = files.last()->Some_0;
        let rest = manifest_tables(ms.drop_last(), fa);
        match crate::sstable::open_index(f) {
            Decoded::Value(idx) => {
                assert(rest is Value);
                lemma_manifest_tables_all(ms.drop_last(), fa);
                let ts = manifest_tables(ms, files)->Value_0;
                let rt = rest->Value_0;
                assert(ts == seq![(ms.last().path, idx, ms.last().level)] + rt);
                assert forall|i: int| 0 <= i < ms.len() implies {
                    let t = #[trigger] ts[i];
                    (t.0, t.2) == meta_key(ms[ms.len() - 1 - i])
                } by {
                    if i > 0 {
                        assert(ts[i] == rt[i - 1]);
                        assert(ms.drop_last()[ms.drop_last().len() - 1 - (i - 1)] == ms[ms.len() - 1 - i]);
                    }
                }
            },
            _ => {},
        }
    }
}

/// No two manifest entries share a path.
pub open spec fn distinct_paths(ms: Seq<SSTableMetaView>) -> bool {
    forall|i: int, j: int| 0 <= i < ms.len() && 0 <= j < ms.len() && i != j ==> #[trigger] ms[i].path != #[trigger] ms[j].path
}

/// The paths at a level are those of the entries at that level.
pub proof fn lemma_paths_at_level(ms: Seq<SSTableMetaView>, level: nat, p: Seq<char>)
    ensures
        paths_at_level(ms, level).contains(p) <==> exists|j: int| 0 <= j < ms.len() && #[trigger] ms[j].level == level && ms[j].path == p,
    decreases ms.len(),
{
    if ms.len() > 0 {
        let a = ms.drop_last();
        lemma_paths_at_level(a, level, p);
        if exists|j: int| 0 <= j < a.len() && #[trigger] a[j].level == level && a[j].path == p {
            let j = choose|j: int| 0 <= j < a.len() && #[trigger] a[j].level == level && a[j].path == p;
            assert(ms[j] == a[j]);
        }
        if exists|j: int| 0 <= j < ms.len() && #[trigger] ms[j].level == level && ms[j].path == p {
            let j = choose|j: int| 0 <= j < ms.len() && #[trigger] ms[j].level == level && ms[j].path == p;
            if j < a.len() {
                assert(a[j] == ms[j]);
            }
        }
        if ms.last().level == level {
            assert(paths_at_level(ms, level) == paths_at_level(a, level).push(ms.last().path));
            if paths_at_level(ms, level).contains(p) && p != ms.last().path {
                let k = choose|k: int| 0 <= k < paths_at_level(ms, level).len() && paths_at_level(ms, level)[k] == p;
                assert(paths_at_level(a, level)[k] == p);
            }
            if paths_at_level(a, level).contains(p) {
                let k = choose|k: int| 0 <= k < paths_at_level(a, level).len() && paths_at_level(a, level)[k] == p;
                assert(paths_at_level(ms, level)[k] == p);
            }
            assert(paths_at_level(ms, level)[paths_at_level(a, level).len() as int] == ms.last().path);
        }
    }
}

/// The paths at a level of two runs of entries one after the other are
/// those of the first run followed by those of the second: the manifest's
/// order (oldest first) is kept.
pub proof fn lemma_paths_at_level_concat(a: Seq<SSTableMetaView>, b: Seq<SSTableMetaView>, level: nat)
    ensures
        paths_at_level(a + b, level) == paths_at_level(a, level) + paths_at_level(b, level),
    decreases b.len(),
{
    if b.len() == 0 {
        assert(a + b =~= a);
        assert(paths_at_level(a, level) + paths_at_level(b, level) =~= paths_at_level(a, level));
    } else {
        lemma_paths_at_level_concat(a, b.drop_last(), level);
        assert((a + b).drop_last() =~= a + b.drop_last());
        assert((a + b).last() == b.last());
        let pa = paths_at_level(a, level);
        let pb = paths_at_level(b.drop_last(), level);
        if b.last().level == level {
            assert((pa + pb).push(b.last().path) =~= pa + pb.push(b.last().path));
        }
    }
}

/// A single entry has its path at its own level and none at another.
pub proof fn lemma_paths_at_level_single(x: SSTableMetaView, level: nat)
    ensures
        paths_at_level(seq![x], level) == if x.level == level { seq![x.path] } else { Seq::<Seq<char>>::empty() },
{
    let one = seq![x];
    assert(one.drop_last() =~= Seq::<SSTableMetaView>::empty());
    assert(one.last() == x);
    assert(paths_at_level(one.drop_last(), level) == Seq::<Seq<char>>::empty());
    assert(Seq::<Seq<char>>::empty().push(x.path) =~= seq![x.path]);
    if x.level == level {
        assert(paths_at_level(one, level) == paths_at_level(one.drop_last(), level).push(x.path));
    } else {
        assert(paths_at_level(one, level) == paths_at_level(one.drop_last(), level));
    }
}

/// Where the entries at a level are exactly those from position `a` on,
/// its paths are theirs, oldest first.
proof fn lemma_paths_at_level_suffix(ms: Seq<SSTableMetaView>, level: nat, a: int)
    requires
        0 <= a <= ms.len(),
        forall|i: int| 0 <= i < a ==> (#[trigger] ms[i]).level != level,
        forall|i: int| a <= i < ms.len() ==> (#[trigger] ms[i]).level == level,
    ensures
        paths_at_level(ms, level) == Seq::new((ms.len() - a) as nat, |k: int| ms[a + k].path),
    decreases ms.len(),
{
    if ms.len() > 0 {
        let d = ms.drop_last();
        if ms.len() > a {
            lemma_paths_at_level_suffix(d, level, a);
            assert(ms[ms.len() - 1].level == level);
            assert(Seq::new((d.len() - a) as nat, |k: int| d[a + k].path).push(ms.last().path) =~= Seq::new(
                (ms.len() - a) as nat,
                |k: int| ms[a + k].path,
            ));
        } else {
            lemma_paths_at_level_suffix(d, level, a - 1);
            assert(ms[ms.len() - 1].level != level);
            assert(Seq::new((d.len() - (a - 1)) as nat, |k: int| d[a - 1 + k].path) =~= Seq::new(
                (ms.len() - a) as nat,
                |k: int| ms[a + k].path,
            ));
        }
    } else {
        assert(paths_at_level(ms, level) =~= Seq::new((ms.len() - a) as nat, |k: int| ms[a + k].path));
    }
}

/// Removing paths that the newest `m` tables have and the others lack
/// leaves the older tables.
proof fn lemma_keep_newest(ts: Seq<SSTableReader>, paths: Seq<Seq<char>>, m: int)
    requires
        0 <= m <= ts.len(),
        forall|i: int| 0 <= i < m ==> paths.contains(#[trigger] ts[i].path_spec()),
        forall|i: int| m <= i < ts.len() ==> !paths.contains(#[trigger] ts[i].path_spec()),
    ensures
        keep_tables(ts, paths) == ts.skip(m),
    decreases ts.len(),
{
    if ts.len() > 0 {
        let a = ts.drop_last();
        if ts.len() > m {
            lemma_keep_newest(a, paths, m);
            assert(!paths.contains(ts[ts.len() - 1].path_spec()));
            assert(a.skip(m).push(ts.last()) =~= ts.skip(m));
        } else {
            lemma_keep_newest(a, paths, m - 1);
            assert(paths.contains(ts[ts.len() - 1].path_spec()));
            assert(a.skip(m - 1).len() == 0);
            assert(ts.skip(m).len() == 0);
            assert(a.skip(m - 1) =~= ts.skip(m));
        }
    }
}

/// Where the readers are in step with a manifest of distinct paths and the
/// tables at `level` are the newest `m`: removing the level's paths leaves
/// the older tables, and where no older table remains (and the level has a
/// table) every table is at the level.
pub proof fn lemma_compacted_level(ts: Seq<SSTableReader>, ms: Seq<SSTableMetaView>, level: nat, m: int)
    requires
        mirrored(ts, ms),
        distinct_paths(ms),
        0 < m <= ts.len(),
        forall|i: int| 0 <= i < m ==> (#[trigger] ts[i]).meta_spec().level == level,
        forall|i: int| m <= i < ts.len() ==> (#[trigger] ts[i]).meta_spec().level != level,
    ensures
        keep_tables(ts, paths_at_level(ms, level)) == ts.skip(m),
        !older_tables_remain(ms, level) ==> m == ts.len(),
        paths_at_level(ms, level) == Seq::new(m as nat, |k: int| ts[m - 1 - k].path_spec()),
{
    let n = ts.len();
    assert forall|i: int| 0 <= i < n - m implies (#[trigger] ms[i]).level != level by {
        assert(reader_key(ts[n - 1 - i]) == meta_key(ms[n - 1 - (n - 1 - i)]));
    }
    assert forall|i: int| n - m <= i < n implies (#[trigger] ms[i]).level == level by {
        assert(reader_key(ts[n - 1 - i]) == meta_key(ms[n - 1 - (n - 1 - i)]));
    }
    lemma_paths_at_level_suffix(ms, level, n - m);
    assert forall|k: int| 0 <= k < m implies ms[n - m + k].path == #[trigger] ts[m - 1 - k].path_spec() by {
        assert(reader_key(ts[m - 1 - k]) == meta_key(ms[n - 1 - (m - 1 - k)]));
    }
    assert(paths_at_level(ms, level) =~= Seq::new(m as nat, |k: int| ts[m - 1 - k].path_spec()));
    let pl = paths_at_level(ms, level);
    assert forall|i: int| 0 <= i < m implies pl.contains(#[trigger] ts[i].path_spec()) by {
        assert(reader_key(ts[i]) == meta_key(ms[n - 1 - i]));
        lemma_paths_at_level(ms, level, ts[i].path_spec());
    }
    assert forall|i: int| m <= i < n implies !pl.contains(#[trigger] ts[i].path_spec()) by {
        assert(reader_key(ts[i]) == meta_key(ms[n - 1 - i]));
        lemma_paths_at_level(ms, level, ts[i].path_spec());
        if pl.contains(ts[i].path_spec()) {
            let j = choose|j: int| 0 <= j < ms.len() && #[trigger] ms[j].level == level && ms[j].path == ts[i].path_spec();
            assert(ms[j].path == ms[n - 1 - i].path);
        }
    }
    lemma_keep_newest(ts, pl, m);
    if m < n {
        assert(reader_key(ts[m]) == meta_key(ms[n - 1 - m]));
        assert(reader_key(ts[0]) == meta_key(ms[n - 1]));
        assert(ms[n - 1 - m].level != level && ms[n - 1].level == level);
    }
}

/// Levels never rise from older to newer manifest entries: deeper tables
/// are older.
pub open spec fn levels_ordered(ms: Seq<SSTableMetaView>) -> bool {
    forall|i: int, j: int| 0 <= i < j < ms.len() ==> #[trigger] ms[i].level >= #[trigger] ms[j].level
}

/// No manifest entry is shallower than `level`.
pub open spec fn none_below(ms: Seq<SSTableMetaView>, level: nat) -> bool {
    forall|i: int| 0 <= i < ms.len() ==> #[trigger] ms[i].level >= level
}

/// Removing entries keeps the levels ordered, and every entry left was an
/// entry before.
pub proof fn lemma_keep_metas_ordered(ms: Seq<SSTableMetaView>, paths: Seq<Seq<char>>)
    requires
        levels_ordered(ms),
    ensures
        levels_ordered(keep_metas(ms, paths)),
        forall|j: int| 0 <= j < keep_metas(ms, paths).len() ==> exists|i: int| 0 <= i < ms.len() && #[trigger] keep_metas(ms, paths)[j] == ms[i] && !paths.contains(ms[i].path),
    decreases ms.len(),
{
    if ms.len() > 0 {
        let a = ms.drop_last();
        assert(levels_ordered(a)) by {
            assert forall|i: int, j: int| 0 <= i < j < a.len() implies #[trigger] a[i].level >= #[trigger] a[j].level by {
                assert(ms[i].level >= ms[j].level);
            }
        }
        lemma_keep_metas_ordered(a, paths);
        let ka = keep_metas(a, paths);
        let k = keep_metas(ms, paths);
        assert forall|j: int| 0 <= j < ka.len() implies exists|i: int| 0 <= i < ms.len() && #[trigger] ka[j] == ms[i] && !paths.contains(ms[i].path) by {
            let i = choose|i: int| 0 <= i < a.len() && #[trigger] ka[j] == a[i] && !paths.contains(a[i].path);
            assert(ms[i] == a[i]);
        }
        if !paths.contains(ms.last().path) {
            assert(k == ka.push(ms.last()));
            assert forall|i: int, j: int| 0 <= i < j < k.len() implies #[trigger] k[i].level >= #[trigger] k[j].level by {
                if j == k.len() - 1 {
                    let i0 = choose|i0: int| 0 <= i0 < ms.len() && #[trigger] ka[i] == ms[i0] && !paths.contains(ms[i0].path);
                    assert(k[i] == ka[i]);
                    if i0 == ms.len() - 1 {
                    } else {
                        assert(ms[i0].level >= ms[ms.len() - 1].level);
                    }
                } else {
                    assert(k[i] == ka[i] && k[j] == ka[j]);
                }
            }
            assert forall|j: int| 0 <= j < k.len() implies exists|i: int| 0 <= i < ms.len() && #[trigger] k[j] == ms[i] && !paths.contains(ms[i].path) by {
                if j == k.len() - 1 {
                    assert(k[j] == ms[ms.len() - 1]);
                } else {
                    assert(k[j] == ka[j]);
                }
            }
        }
    }
}

/// The order by level holds across a flush (a level-0 entry added last)
/// and across compacting the shallowest level (its entries removed, one
/// entry a level deeper added last); so in that order the tables of the
/// shallowest level are always the newest.
pub proof fn lemma_levels_ordered_kept(ms: Seq<SSTableMetaView>, level: nat, added: SSTableMetaView)
    requires
        levels_ordered(ms),
        none_below(ms, level),
        distinct_paths(ms),
    ensures
        added.level == 0 ==> levels_ordered(ms.push(added)),
        added.level == level + 1 ==> levels_ordered(keep_metas(ms, paths_at_level(ms, level)).push(added)),
        added.level == level + 1 ==> none_below(keep_metas(ms, paths_at_level(ms, level)).push(added), level + 1),
{
    let p = paths_at_level(ms, level);
    let k = keep_metas(ms, p);
    lemma_keep_metas_ordered(ms, p);
    assert forall|j: int| 0 <= j < k.len() implies #[trigger] k[j].level >= level + 1 by {
        let i = choose|i: int| 0 <= i < ms.len() && #[trigger] k[j] == ms[i] && !p.contains(ms[i].path);
        lemma_paths_at_level(ms, level, ms[i].path);
        assert(ms[i].level >= level);
    }
    let k2 = k.push(added);
    if added.level == level + 1 {
        assert forall|i: int, j: int| 0 <= i < j < k2.len() implies #[trigger] k2[i].level >= #[trigger] k2[j].level by {
            assert(k2[i] == k[i]);
            if j < k.len() {
                assert(k2[j] == k[j]);
            }
        }
        assert forall|i: int| 0 <= i < k2.len() implies #[trigger] k2[i].level >= level + 1 by {
            if i < k.len() {
                assert(k2[i] == k[i]);
            }
        }
    }
    let m2 = ms.push(added);
    if added.level == 0 {
        assert forall|i: int, j: int| 0 <= i < j < m2.len() implies #[trigger] m2[i].level >= #[trigger] m2[j].level by {
            assert(m2[i] == ms[i]);
            if j < ms.len() {
                assert(m2[j] == ms[j]);
            }
        }
    }
}

/// Where the levels are ordered and none is below `level`, the readers in
/// step with the manifest hold the level's tables first: some `m` splits
/// them into the newest `m` at the level and the rest at other levels.
pub proof fn lemma_newest_level(ts: Seq<SSTableReader>, ms: Seq<SSTableMetaView>, level: nat) -> (m: int)
    requires
        mirrored(ts, ms),
        levels_ordered(ms),
        none_below(ms, level),
    ensures
        0 <= m <= ts.len(),
        forall|i: int| 0 <= i < m ==> (#[trigger] ts[i]).meta_spec().level == level,
        forall|i: int| m <= i < ts.len() ==> (#[trigger] ts[i]).meta_spec().level != level,
    decreases ts.len(),
{
    let n = ts.len();
    if n == 0 {
        0
    } else {
        let a = ts.drop_last();
        let b = ms.drop_first();
        assert(mirrored(a, b)) by {
            assert forall|i: int| 0 <= i < a.len() implies reader_key(#[trigger] a[i]) == meta_key(b[b.len() - 1 - i]) by {
                assert(reader_key(ts[i]) == meta_key(ms[ms.len() - 1 - i]));
            }
        }
        assert(levels_ordered(b)) by {
            assert forall|i: int, j: int| 0 <= i < j < b.len() implies #[trigger] b[i].level >= #[trigger] b[j].level by {
                assert(ms[i + 1].level >= ms[j + 1].level);
            }
        }
        assert(none_below(b, level)) by {
            assert forall|i: int| 0 <= i < b.len() implies #[trigger] b[i].level >= level by {
                assert(ms[i + 1].level >= level);
            }
        }
        let m0 = lemma_newest_level(a, b, level);
        assert(reader_key(ts[n - 1]) == meta_key(ms[0]));
        assert(forall|i: int| 0 <= i < n - 1 ==> #[trigger] ts[i] == a[i]);
        if m0 < n - 1 {
            assert(reader_key(ts[m0]) == meta_key(ms[n - 1 - m0]));
            assert(ms[0].level >= ms[n - 1 - m0].level);
            assert(ms[n - 1 - m0].level >= level);
            assert(ts[m0].meta_spec().level != level);
            m0
        } else if ts[n - 1].meta_spec().level == level {
            n as int
        } else {
            m0
        }
    }
}

/// Optional file contents as plain bytes.
pub open spec fn opt_files_view(files: Seq<Option<Vec<u8>>>) -> Seq<Option<Seq<u8>>> {
    files.map_values(|f: Option<Vec<u8>>| opt_bytes(f))
}

/// Whether `paths` holds `p`.
fn contains_path(paths: &Vec<String>, p: &String) -> (r: bool)
    ensures
        r == paths_view(paths@).contains(p@),
{
    let mut i: usize = 0;
    while i < paths.len()
        invariant
            i <= paths@.len(),
            forall|j: int| 0 <= j < i ==> paths@[j]@ != p@,
        decreases paths@.len() - i,
    {
        if paths[i] == *p {
            assert(paths_view(paths@)[i as int] == p@);
            return true;
        }
        i = i + 1;
    }
    proof {
        if paths_view(paths@).contains(p@) {
            let j = choose|j: int| 0 <= j < paths_view(paths@).len() && paths_view(paths@)[j] == p@;
            assert(paths@[j]@ == p@);
        }
    }
    false
}

/// Once the compaction scan of the first `k` files fails, the scan of all
/// the files fails in the same way.
proof fn lemma_compaction_scan_failure(fs: Seq<Option<Seq<u8>>>, k: int)
    requires
        0 < k <= fs.len(),
        !(compaction_scan(fs.take(k)) is Value),
    ensures
        compaction_scan(fs) == compaction_scan(fs.take(k)),
    decreases fs.len() - k,
{
    if k < fs.len() {
        assert(fs.take(k + 1).drop_last() =~= fs.take(k));
        lemma_compaction_scan_failure(fs, k + 1);
    } else {
        assert(fs.take(k) =~= fs);
    }
}

/// The in-memory part of the store: configuration, memtable, table readers
/// (newest first), manifest and the counter for table file names.
pub struct KvStore {
    config: KvStoreConfig,
    memtable: MemTable,
    /// SSTable readers, ordered newest-first.
    sstables: Vec<SSTableReader>,
    manifest: Manifest,
    /// Monotonic counter for generating unique SSTable filenames.
    next_sst_id: u64,
}

impl KvStore {
    /// The memtable is well formed.
    pub closed spec fn wf(&self) -> bool {
        self.memtable.wf()
    }

    /// The memtable's map.
    pub closed spec fn mem_map(&self) -> KvMap {
        self.memtable.map()
    }

    /// The memtable's byte count.
    pub closed spec fn mem_size(&self) -> nat {
        self.memtable@.size
    }

    /// The memtable's entries in key order.
    pub closed spec fn mem_entries(&self) -> Seq<EntryView> {
        self.memtable@.entries
    }

    /// The table readers, newest first.
    pub closed spec fn tables(&self) -> Seq<SSTableReader> {
        self.sstables@
    }

    /// The indexes of the tables, newest first.
    pub open spec fn indexes(&self) -> Seq<Seq<(Seq<u8>, u64)>> {
        self.tables().map_values(|r: SSTableReader| r.index_spec())
    }

    /// The paths of the tables, newest first.
    pub open spec fn table_paths(&self) -> Seq<Seq<char>> {
        self.tables().map_values(|r: SSTableReader| r.path_spec())
    }

    /// The manifest's entries, oldest first.
    pub closed spec fn metas(&self) -> Seq<SSTableMetaView> {
        self.manifest.metas()
    }

    /// The flush threshold.
    pub closed spec fn memtable_threshold(&self) -> nat {
        self.config.memtable_threshold as nat
    }

    /// The compaction threshold.
    pub closed spec fn compaction_threshold(&self) -> nat {
        self.config.compaction_threshold as nat
    }

    /// Whether every write is synced to disk.
    pub closed spec fn sync_writes(&self) -> bool {
        self.config.sync_writes
    }

    /// The database directory.
    pub closed spec fn db_path(&self) -> Seq<char> {
        self.config.db_path@
    }

    /// The id that the next table file gets.
    pub closed spec fn next_id(&self) -> u64 {
        self.next_sst_id
    }

    /// The readers are in step with the manifest: they are its tables,
    /// newest first (its entries in reverse). Opening a store whose table
    /// files are all present gives this, and every operation keeps it.
    pub open spec fn in_step(&self) -> bool {
        mirrored(self.tables(), self.metas())
    }

    /// Every table's index is sorted (true of every table that this
    /// library wrote).
    pub open spec fn indexes_sorted(&self) -> bool {
        forall|i: int| 0 <= i < self.indexes().len() ==> index_sorted(#[trigger] self.indexes()[i])
    }

    /// Opens a store from its configuration, its manifest with the files
    /// of its entries (`files[i]` is the file of the manifest's `i`-th
    /// entry, `None` where it is missing), the entries recovered from its
    /// log (replayed into a fresh memtable), and the ids found in its table
    /// file names together with the clock's reading in milliseconds, from
    /// which the next table id is derived. The readers are those of the
    /// manifest's tables, newest first, so newer tables take priority.
    pub fn open(
        config: KvStoreConfig,
        manifest: Manifest,
        files: Vec<Option<Vec<u8>>>,
        wal_entries: Vec<WalEntry>,
        sst_ids: &Vec<u64>,
        now_millis: Option<u64>,
    ) -> (r: Result<Self, KvError>)
        requires
            files@.len() == manifest.metas().len(),
            ops_bytes(wal_ops(wal_entries@)) <= usize::MAX,
            forall|i: int| 0 <= i < sst_ids@.len() ==> #[trigger] sst_ids@[i] < u64::MAX,
            now_millis matches Some(t) ==> t < u64::MAX,
            now_millis is None ==> forall|i: int| 0 <= i < sst_ids@.len() ==> #[trigger] sst_ids@[i] < u64::MAX - 1,
        ensures
            match manifest_tables(manifest.metas(), opt_files_view(files@)) {
                Decoded::Value(ts) => r matches Ok(s) && {
                    &&& s.wf()
                    &&& (forall|i: int| 0 <= i < files@.len() ==> #[trigger] files@[i] is Some) ==> s.in_step()
                    &&& s.tables().map_values(|t: SSTableReader| reader_view(t)) == ts
                    &&& forall|i: int| 0 <= i < s.tables().len() ==> (#[trigger] s.tables()[i]).meta_spec() == crate::sstable::meta_for(
                        s.tables()[i].path_spec(),
                        s.tables()[i].index_spec().map_values(|e: (Seq<u8>, u64)| e.0),
                        s.tables()[i].meta_spec().level,
                    )
                    &&& s.metas() == manifest.metas()
                    &&& (s.mem_map(), s.mem_size() as int) == apply_ops(Map::empty(), 0, wal_ops(wal_entries@))
                    &&& s.next_id() == next_sst_id_spec(sst_ids@, now_millis)
                    &&& s.memtable_threshold() == config.memtable_threshold
                    &&& s.compaction_threshold() == config.compaction_threshold
                    &&& s.sync_writes() == config.sync_writes
                    &&& s.db_path() == config.db_path@
                },
                d => r matches Err(e) && error_for(e, d),
            },
    {
        let ghost ms = manifest.metas();
        let ghost fs = opt_files_view(files@);
        let mut readers: Vec<SSTableReader> = Vec::new();
        let mut i: usize = files.len();
        proof {
            assert(ms.take(i as int) =~= ms);
            assert(fs.take(i as int) =~= fs);
            assert(readers@.map_values(|t: SSTableReader| reader_view(t)) =~= Seq::<TableView>::empty());
            assert(Seq::<TableView>::empty() + Seq::<TableView>::empty() =~= Seq::<TableView>::empty());
            match manifest_tables(ms, fs) {
                Decoded::Value(t) => {
                    assert(Seq::<TableView>::empty() + t =~= t);
                },
                _ => {},
            }
        }
        while i > 0
            invariant
                ms == manifest.metas(),
                fs == opt_files_view(files@),
                ms.len() == files@.len(),
                fs.len() == files@.len(),
                ms.len() == manifest.sstables@.len(),
                i <= files@.len(),
                manifest_tables(ms, fs) == prefixed(
                    readers@.map_values(|t: SSTableReader| reader_view(t)),
                    manifest_tables(ms.take(i as int), fs.take(i as int)),
                ),
                forall|j: int| 0 <= j < readers@.len() ==> (#[trigger] readers@[j]).meta_spec() == crate::sstable::meta_for(
                    readers@[j].path_spec(),
                    readers@[j].index_spec().map_values(|e: (Seq<u8>, u64)| e.0),
                    readers@[j].meta_spec().level,
                ),
            decreases i,
        {
            i = i - 1;
            let ghost rv = readers@.map_values(|t: SSTableReader| reader_view(t));
            proof {
                assert(ms.take(i as int + 1).drop_last() =~= ms.take(i as int));
                assert(fs.take(i as int + 1).drop_last() =~= fs.take(i as int));
                assert(ms.take(i as int + 1).last() == ms[i as int]);
                assert(fs.take(i as int + 1).last() == fs[i as int]);
                assert(ms[i as int] == manifest.sstables@[i as int]@);
                assert(fs[i as int] == opt_bytes(files@[i as int]));
            }
            match &files[i] {
                None => {},
                Some(bytes) => {
                    let meta = &manifest.sstables[i];
                    match SSTableReader::open(&meta.path, bytes.as_slice(), meta.level) {
                        Ok(reader) => {
                            let ghost x = reader_view(reader);
                            readers.push(reader);
                            proof {
                                assert(readers@.map_values(|t: SSTableReader| reader_view(t)) =~= rv.push(x));
                                let rest = manifest_tables(ms.take(i as int), fs.take(i as int));
                                match rest {
                                    Decoded::Value(t) => {
                                        assert(rv + (seq![x] + t) =~= rv.push(x) + t);
                                    },
                                    _ => {},
                                }
                            }
                        },
                        Err(e) => {
                            return Err(e);
                        },
                    }
                },
            }
        }
        proof {
            assert(ms.take(0) =~= Seq::<SSTableMetaView>::empty());
            let rv = readers@.map_values(|t: SSTableReader| reader_view(t));
            assert(rv + Seq::<TableView>::empty() =~= rv);
            if forall|j: int| 0 <= j < files@.len() ==> #[trigger] files@[j] is Some {
                assert forall|j: int| 0 <= j < fs.len() implies #[trigger] fs[j] is Some by {
                    assert(files@[j] is Some);
                }
                lemma_manifest_tables_all(ms, fs);
                assert forall|j: int| 0 <= j < readers@.len() implies reader_key(#[trigger] readers@[j]) == meta_key(
                    ms[ms.len() - 1 - j],
                ) by {
                    assert(rv[j] == reader_view(readers@[j]));
                    let t = manifest_tables(ms, fs)->Value_0[j];
                }
            }
        }
        let memtable = MemTable::replay(wal_entries);
        let next_sst_id = derive_next_sst_id(sst_ids, now_millis);
        Ok(KvStore { config, memtable, sstables: readers, manifest, next_sst_id })
    }

    /// The memtable.
    pub fn memtable(&self) -> (r: &MemTable)
        ensures
            r.map() == self.mem_map(),
            r@.entries == self.mem_entries(),
            r@.size == self.mem_size(),
            self.wf() ==> r.wf(),
    {
        &self.memtable
    }

    /// The table readers, newest first.
    pub fn sstables(&self) -> (r: &Vec<SSTableReader>)
        ensures
            r@ == self.tables(),
    {
        &self.sstables
    }

    /// The manifest.
    pub fn manifest(&self) -> (r: &Manifest)
        ensures
            r.metas() == self.metas(),
    {
        &self.manifest
    }

    /// The configuration.
    pub fn config(&self) -> (r: &KvStoreConfig)
        ensures
            r.memtable_threshold == self.memtable_threshold(),
            r.compaction_threshold == self.compaction_threshold(),
            r.sync_writes == self.sync_writes(),
            r.db_path@ == self.db_path(),
    {
        &self.config
    }

    /// Inserts or updates a key-value pair in the memtable (the caller has
    /// logged it first), and says whether the memtable has reached the
    /// flush threshold.
    pub fn put(&mut self, key: Vec<u8>, value: Vec<u8>) -> (flush_due: bool)
        requires
            old(self).wf(),
            size_after_put(old(self).mem_map(), old(self).mem_size() as int, key@, value@) <= usize::MAX,
        ensures
            final(self).wf(),
            final(self).mem_map() == old(self).mem_map().insert(key@, Some(value@)),
            final(self).mem_size() == size_after_put(old(self).mem_map(), old(self).mem_size() as int, key@, value@),
            final(self).tables() == old(self).tables(),
            final(self).metas() == old(self).metas(),
            final(self).same_settings(*old(self)),
            flush_due == (final(self).mem_size() >= final(self).memtable_threshold()),
    {
        self.memtable.put(key, value);
        self.memtable.approximate_size() >= self.config.memtable_threshold
    }

    /// Deletes a key by writing a tombstone into the memtable (the caller
    /// has logged it first), and says whether the memtable has reached the
    /// flush threshold.
    pub fn delete(&mut self, key: Vec<u8>) -> (flush_due: bool)
        requires
            old(self).wf(),
            size_after_delete(old(self).mem_map(), old(self).mem_size() as int, key@) <= usize::MAX,
        ensures
            final(self).wf(),
            final(self).mem_map() == old(self).mem_map().insert(key@, None),
            final(self).mem_size() == size_after_delete(old(self).mem_map(), old(self).mem_size() as int, key@),
            final(self).tables() == old(self).tables(),
            final(self).metas() == old(self).metas(),
            final(self).same_settings(*old(self)),
            flush_due == (final(self).mem_size() >= final(self).memtable_threshold()),
    {
        self.memtable.delete(key);
        self.memtable.approximate_size() >= self.config.memtable_threshold
    }

    /// The configuration and the id counter are those of `other`.
    pub open spec fn same_settings(&self, other: Self) -> bool {
        &&& self.memtable_threshold() == other.memtable_threshold()
        &&& self.compaction_threshold() == other.compaction_threshold()
        &&& self.sync_writes() == other.sync_writes()
        &&& self.db_path() == other.db_path()
        &&& self.next_id() == other.next_id()
    }

    /// Lists all live key-value pairs, sorted by key. `files` holds the
    /// bytes of the table files, in the readers' order; the tables are read
    /// oldest first, so that newer entries take the place of older ones, and
    /// the memtable's entries take the place of all.
    pub fn list(&self, files: &Vec<Vec<u8>>) -> (r: Result<Vec<(Vec<u8>, Vec<u8>)>, KvError>)
        requires
            self.wf(),
            files@.len() == self.tables().len(),
        ensures
            match scan_tables(table_inputs(self.indexes(), files_view(files@))) {
                Decoded::Value(all) => r matches Ok(v) && crate::entries::live_listing(
                    pairs_view(v@),
                    map_of(all + self.mem_entries()),
                ),
                d => r matches Err(e) && error_for(e, d),
            },
    {
        let ghost ts = table_inputs(self.indexes(), files_view(files@));
        let mut merged: Vec<Entry> = Vec::new();
        let ghost mut collected: Seq<EntryView> = Seq::empty();
        let mut i: usize = self.sstables.len();
        proof {
            assert(ts.skip(ts.len() as int).len() == 0);
            assert(entries_view(merged@) =~= Seq::<EntryView>::empty());
        }
        while i > 0
            invariant
                ts == table_inputs(self.indexes(), files_view(files@)),
                ts.len() == self.sstables@.len(),
                files@.len() == self.sstables@.len(),
                i <= self.sstables@.len(),
                scan_tables(ts.skip(i as int)) == Decoded::<Seq<EntryView>>::Value(collected),
                sorted(entries_view(merged@)),
                map_of(entries_view(merged@)) == map_of(collected),
            decreases i,
        {
            i = i - 1;
            proof {
                let rest = ts.skip(i as int);
                assert(rest.drop_first() =~= ts.skip(i as int + 1));
                assert(rest[0] == ts[i as int]);
                assert(ts[i as int].0 == self.sstables@[i as int].index_spec());
                assert(ts[i as int].1 == files@[i as int]@);
            }
            let entries = match self.sstables[i].scan_all(files[i].as_slice()) {
                Ok(es) => es,
                Err(e) => {
                    proof {
                        let rest = ts.skip(i as int);
                        assert(!(scan_tables(rest) is Value));
                        lemma_scan_tables_failure(ts, i as int);
                    }
                    return Err(e);
                },
            };
            let ghost es = entries_view(entries@);
            let ghost base = collected;
            for e in it: entries
                invariant
                    es == entries_view(it.seq()),
                    sorted(entries_view(merged@)),
                    map_of(entries_view(merged@)) == map_of(base + es.take(it.index() as int)),
            {
                let ghost k = it.index() as int;
                proof {
                    assert((base + es.take(k + 1)).drop_last() =~= base + es.take(k));
                    assert((base + es.take(k + 1)).last() == crate::entries::entry_view(e));
                }
                insert_entry(&mut merged, e);
            }
            proof {
                assert(es.take(es.len() as int) =~= es);
                collected = base + es;
            }
        }
        proof {
            assert(ts.skip(0) =~= ts);
        }
        let mem = self.memtable.entries();
        let ghost me = self.mem_entries();
        let ghost base = collected;
        let mut j: usize = 0;
        proof {
            assert(base + me.take(0) =~= base);
        }
        while j < mem.len()
            invariant
                entries_view(mem@) == me,
                me == self.mem_entries(),
                j <= mem@.len(),
                sorted(entries_view(merged@)),
                map_of(entries_view(merged@)) == map_of(base + me.take(j as int)),
            decreases mem@.len() - j,
        {
            let e = copy_entry(&mem[j]);
            proof {
                assert((base + me.take(j as int + 1)).drop_last() =~= base + me.take(j as int));
                assert((base + me.take(j as int + 1)).last() == me[j as int]);
                assert(me[j as int] == crate::entries::entry_view(mem@[j as int]));
            }
            insert_entry(&mut merged, e);
            j = j + 1;
        }
        proof {
            assert(me.take(me.len() as int) =~= me);
            crate::entries::lemma_live_pairs(entries_view(merged@));
        }
        Ok(collect_live(merged))
    }

    /// Drains the memtable into the bytes of a new level-0 table file for
    /// `path`; `Ok(None)` where the memtable is empty.
    pub fn flush_memtable(&mut self, path: &String) -> (r: Result<Option<(Vec<u8>, SSTableMeta)>, KvError>)
        requires
            old(self).wf(),
        ensures
            final(self).wf(),
            final(self).tables() == old(self).tables(),
            final(self).metas() == old(self).metas(),
            final(self).same_settings(*old(self)),
            old(self).mem_entries().len() == 0 ==> {
                &&& r matches Ok(None)
                &&& final(self).mem_entries() == old(self).mem_entries()
                &&& final(self).mem_size() == old(self).mem_size()
            },
            old(self).mem_entries().len() > 0 ==> {
                &&& final(self).mem_entries().len() == 0
                &&& final(self).mem_size() == 0
                &&& r matches Ok(Some((bytes, meta)))
                &&& bytes@ == crate::sstable::table_file(old(self).mem_entries())
                &&& meta@ == crate::sstable::meta_for(
                    path@,
                    old(self).mem_entries().map_values(|e: EntryView| e.0),
                    0,
                )
            },
    {
        if self.memtable.is_empty() {
            return Ok(None);
        }
        let entries = self.memtable.drain();
        match SSTableWriter::write(path, entries.as_slice(), 0) {
            Ok(written) => Ok(Some(written)),
            Err(e) => Err(e),
        }
    }

    /// Adds a table written to `path` as the newest table: opens it from the
    /// bytes `file` that were written, puts its reader first and its
    /// metadata last in the manifest.
    pub fn install_table(&mut self, path: &String, file: &[u8], meta: SSTableMeta) -> (r: Result<(), KvError>)
        requires
            old(self).wf(),
        ensures
            final(self).wf(),
            final(self).mem_entries() == old(self).mem_entries(),
            final(self).mem_map() == old(self).mem_map(),
            final(self).mem_size() == old(self).mem_size(),
            final(self).same_settings(*old(self)),
            match crate::sstable::open_index(file@) {
                Decoded::Value(idx) => {
                    &&& r is Ok
                    &&& final(self).tables().len() == old(self).tables().len() + 1
                    &&& final(self).tables()[0].index_spec() == idx
                    &&& final(self).tables()[0].path_spec() == path@
                    &&& final(self).tables()[0].meta_spec().level == meta@.level
                    &&& final(self).tables().drop_first() == old(self).tables()
                    &&& final(self).metas() == old(self).metas().push(meta@)
                },
                d => {
                    &&& r matches Err(e) && error_for(e, d)
                    &&& final(self).tables() == old(self).tables()
                    &&& final(self).metas() == old(self).metas()
                },
            },
            old(self).in_step() && meta@.path == path@ ==> final(self).in_step(),
    {
        let reader = match SSTableReader::open(path, file, meta.level) {
            Ok(r) => r,
            Err(e) => {
                return Err(e);
            },
        };
        self.sstables.insert(0, reader);
        let ghost before = self.manifest.sstables@;
        self.manifest.sstables.push(meta);
        proof {
            assert(self.sstables@.drop_first() =~= old(self).sstables@);
            assert(self.manifest.metas() =~= old(self).manifest.metas().push(meta@));
            if old(self).in_step() && meta@.path == path@ {
                let ts = self.sstables@;
                let ms = self.manifest.metas();
                assert forall|i: int| 0 <= i < ts.len() implies reader_key(#[trigger] ts[i]) == meta_key(ms[ms.len() - 1 - i]) by {
                    if i > 0 {
                        assert(ts[i] == old(self).sstables@[i - 1]);
                        assert(reader_key(old(self).sstables@[i - 1]) == meta_key(
                            old(self).manifest.metas()[old(self).manifest.metas().len() - 1 - (i - 1)],
                        ));
                    }
                }
            }
        }
        Ok(())
    }

    /// The id that the next table file gets.
    pub fn next_sst_id(&self) -> (r: u64)
        ensures
            r == self.next_id(),
    {
        self.next_sst_id
    }

    /// Takes the id for the next table file.
    pub fn alloc_sst_id(&mut self) -> (id: u64)
        requires
            old(self).next_id() < u64::MAX,
        ensures
            id == old(self).next_id(),
            final(self).next_id() == old(self).next_id() + 1,
            final(self).wf() == old(self).wf(),
            final(self).mem_entries() == old(self).mem_entries(),
            final(self).mem_map() == old(self).mem_map(),
            final(self).mem_size() == old(self).mem_size(),
            final(self).tables() == old(self).tables(),
            final(self).metas() == old(self).metas(),
            final(self).memtable_threshold() == old(self).memtable_threshold(),
            final(self).compaction_threshold() == old(self).compaction_threshold(),
            final(self).sync_writes() == old(self).sync_writes(),
            final(self).db_path() == old(self).db_path(),
    {
        let id = self.next_sst_id;
        self.next_sst_id = self.next_sst_id + 1;
        id
    }

    /// Takes the id for the next table file and returns that file's name,
    /// `L{level}_{id:06}.sst`.
    pub fn next_sst_file_name(&mut self, level: usize) -> (name: Vec<u8>)
        requires
            old(self).next_id() < u64::MAX,
        ensures
            name@ == crate::names::sst_file_name_spec(level as nat, old(self).next_id() as nat),
            final(self).next_id() == old(self).next_id() + 1,
            final(self).wf() == old(self).wf(),
            final(self).mem_entries() == old(self).mem_entries(),
            final(self).mem_map() == old(self).mem_map(),
            final(self).mem_size() == old(self).mem_size(),
            final(self).tables() == old(self).tables(),
            final(self).metas() == old(self).metas(),
            final(self).memtable_threshold() == old(self).memtable_threshold(),
            final(self).compaction_threshold() == old(self).compaction_threshold(),
            final(self).sync_writes() == old(self).sync_writes(),
            final(self).db_path() == old(self).db_path(),
    {
        let id = self.alloc_sst_id();
        crate::names::sst_file_name(level, id)
    }

    /// Removes the tables whose paths are listed from the readers and from
    /// the manifest.
    pub fn remove_sstables(&mut self, paths: &Vec<String>)
        requires
            old(self).wf(),
        ensures
            final(self).wf(),
            final(self).tables() == keep_tables(old(self).tables(), paths_view(paths@)),
            final(self).metas() == keep_metas(old(self).metas(), paths_view(paths@)),
            old(self).in_step() ==> final(self).in_step(),
            final(self).mem_entries() == old(self).mem_entries(),
            final(self).mem_map() == old(self).mem_map(),
            final(self).mem_size() == old(self).mem_size(),
            final(self).same_settings(*old(self)),
    {
        let ghost pv = paths_view(paths@);
        let mut readers: Vec<SSTableReader> = Vec::new();
        std::mem::swap(&mut readers, &mut self.sstables);
        let ghost rs = readers@;
        let mut kept: Vec<SSTableReader> = Vec::new();
        proof {
            assert(rs.take(0) =~= Seq::<SSTableReader>::empty());
        }
        for r in it: readers
            invariant
                rs == it.seq(),
                pv == paths_view(paths@),
                kept@ == keep_tables(rs.take(it.index() as int), pv),
        {
            let ghost k = it.index() as int;
            proof {
                assert(rs.take(k + 1).drop_last() =~= rs.take(k));
                assert(rs.take(k + 1).last() == r);
            }
            if !contains_path(paths, r.path()) {
                kept.push(r);
            }
        }
        proof {
            assert(rs.take(rs.len() as int) =~= rs);
        }
        self.sstables = kept;
        let mut metas: Vec<SSTableMeta> = Vec::new();
        std::mem::swap(&mut metas, &mut self.manifest.sstables);
        let ghost ms = metas@;
        let ghost mv = ms.map_values(|m: SSTableMeta| m@);
        let mut kept_metas: Vec<SSTableMeta> = Vec::new();
        proof {
            assert(mv.take(0) =~= Seq::<SSTableMetaView>::empty());
            assert(kept_metas@.map_values(|m: SSTableMeta| m@) =~= Seq::<SSTableMetaView>::empty());
        }
        for m in it: metas
            invariant
                ms == it.seq(),
                mv == ms.map_values(|m: SSTableMeta| m@),
                pv == paths_view(paths@),
                kept_metas@.map_values(|m: SSTableMeta| m@) == keep_metas(mv.take(it.index() as int), pv),
        {
            let ghost k = it.index() as int;
            let ghost before = kept_metas@.map_values(|m: SSTableMeta| m@);
            proof {
                assert(mv.take(k + 1).drop_last() =~= mv.take(k));
                assert(mv.take(k + 1).last() == m@);
            }
            if !contains_path(paths, &m.path) {
                let ghost mm = m@;
                kept_metas.push(m);
                assert(kept_metas@.map_values(|m: SSTableMeta| m@) =~= before.push(mm));
            }
        }
        proof {
            assert(mv.take(mv.len() as int) =~= mv);
            if old(self).in_step() {
                lemma_keep_mirrored(old(self).sstables@, old(self).manifest.metas(), pv);
            }
        }
        self.manifest.sstables = kept_metas;
    }

    /// The deepest level in the manifest; zero where it is empty.
    pub fn max_level(&self) -> (r: usize)
        ensures
            r == max_level_of(self.metas()),
    {
        let ghost ms = self.metas();
        let mut m: usize = 0;
        let mut i: usize = 0;
        while i < self.manifest.sstables.len()
            invariant
                ms == self.metas(),
                ms.len() == self.manifest.sstables@.len(),
                i <= ms.len(),
                m == max_level_of(ms.take(i as int)),
            decreases ms.len() - i,
        {
            proof {
                assert(ms.take(i as int + 1).drop_last() =~= ms.take(i as int));
                assert(ms[i as int] == self.manifest.sstables@[i as int]@);
            }
            if self.manifest.sstables[i].level > m {
                m = self.manifest.sstables[i].level;
            }
            i = i + 1;
        }
        proof {
            assert(ms.take(i as int) =~= ms);
        }
        m
    }

    /// How many tables the manifest holds at a level.
    pub fn level_count(&self, level: usize) -> (r: usize)
        ensures
            r == count_at_level(self.metas(), level as nat),
    {
        let ghost ms = self.metas();
        let mut c: usize = 0;
        let mut i: usize = 0;
        while i < self.manifest.sstables.len()
            invariant
                ms == self.metas(),
                ms.len() == self.manifest.sstables@.len(),
                i <= ms.len(),
                c == count_at_level(ms.take(i as int), level as nat),
                c <= i,
            decreases ms.len() - i,
        {
            proof {
                assert(ms.take(i as int + 1).drop_last() =~= ms.take(i as int));
                assert(ms[i as int] == self.manifest.sstables@[i as int]@);
            }
            if self.manifest.sstables[i].level == level {
                c = c + 1;
            }
            i = i + 1;
        }
        proof {
            assert(ms.take(i as int) =~= ms);
        }
        c
    }

    /// The first level from `from` up to `max_level` that holds at least
    /// the compaction threshold's number of tables, if any.
    pub fn next_compaction(&self, from: usize, max_level: usize) -> (r: Option<usize>)
        ensures
            match r {
                Some(l) => from <= l <= max_level && count_at_level(self.metas(), l as nat)
                    >= self.compaction_threshold() && forall|k: nat|
                    from <= k < l ==> #[trigger] count_at_level(self.metas(), k) < self.compaction_threshold(),
                None => forall|k: nat|
                    from <= k <= max_level ==> #[trigger] count_at_level(self.metas(), k) < self.compaction_threshold(),
            },
    {
        if from > max_level {
            return None;
        }
        let mut l = from;
        loop
            invariant
                from <= l <= max_level,
                forall|k: nat| from <= k < l ==> #[trigger] count_at_level(self.metas(), k) < self.compaction_threshold(),
            decreases max_level - l,
        {
            if self.level_count(l) >= self.config.compaction_threshold {
                return Some(l);
            }
            if l == max_level {
                return None;
            }
            l = l + 1;
        }
    }

    /// The paths of the tables at a level, in manifest order (oldest first).
    pub fn compaction_paths(&self, level: usize) -> (r: Vec<String>)
        ensures
            paths_view(r@) == paths_at_level(self.metas(), level as nat),
    {
        let ghost ms = self.metas();
        let mut out: Vec<String> = Vec::new();
        let mut i: usize = 0;
        proof {
            assert(paths_view(out@) =~= Seq::<Seq<char>>::empty());
        }
        while i < self.manifest.sstables.len()
            invariant
                ms == self.metas(),
                ms.len() == self.manifest.sstables@.len(),
                i <= ms.len(),
                paths_view(out@) == paths_at_level(ms.take(i as int), level as nat),
            decreases ms.len() - i,
        {
            proof {
                assert(ms.take(i as int + 1).drop_last() =~= ms.take(i as int));
                assert(ms[i as int] == self.manifest.sstables@[i as int]@);
            }
            if self.manifest.sstables[i].level == level {
                let ghost before = paths_view(out@);
                let p = self.manifest.sstables[i].path.clone();
                out.push(p);
                assert(paths_view(out@) =~= before.push(ms[i as int].path));
            }
            i = i + 1;
        }
        proof {
            assert(ms.take(i as int) =~= ms);
        }
        out
    }

    /// The tables that compacting a level merges: the paths of the tables at
    /// that level, oldest first; `None` where there are fewer than two, as
    /// there is then nothing to merge.
    pub fn compaction_inputs(&self, level: usize) -> (r: Option<Vec<String>>)
        ensures
            match r {
                Some(paths) => paths_view(paths@) == paths_at_level(self.metas(), level as nat)
                    && paths@.len() >= 2,
                None => paths_at_level(self.metas(), level as nat).len() < 2,
            },
    {
        let paths = self.compaction_paths(level);
        if paths.len() < 2 {
            None
        } else {
            Some(paths)
        }
    }

    /// Whether a table outside `level` is older than a table at `level`.
    pub fn older_tables_remain(&self, level: usize) -> (r: bool)
        ensures
            r == older_tables_remain(self.metas(), level as nat),
    {
        let ghost ms = self.metas();
        let mut seen_other = false;
        let mut i: usize = 0;
        while i < self.manifest.sstables.len()
            invariant
                ms == self.metas(),
                ms.len() == self.manifest.sstables@.len(),
                i <= ms.len(),
                seen_other == exists|a: int| 0 <= a < i && #[trigger] ms[a].level != level,
                !older_tables_remain(ms.take(i as int), level as nat),
            decreases ms.len() - i,
        {
            assert(ms[i as int] == self.manifest.sstables@[i as int]@);
            let ghost t = ms.take(i as int + 1);
            if self.manifest.sstables[i].level == level {
                if seen_other {
                    let ghost a = choose|a: int| 0 <= a < i && #[trigger] ms[a].level != level;
                    assert(ms[a].level != level as nat && ms[i as int].level == level as nat);
                    return true;
                }
                assert forall|a: int, b: int| 0 <= a < b < t.len() && #[trigger] t[a].level != level as nat implies !(
                #[trigger] t[b].level == level as nat) by {
                    assert(t[a] == ms[a]);
                    if b < i {
                        assert(t[b] == ms.take(i as int)[b]);
                        assert(ms.take(i as int)[a] == ms[a]);
                    }
                }
            } else {
                assert forall|a: int, b: int| 0 <= a < b < t.len() && #[trigger] t[a].level != level as nat implies !(
                #[trigger] t[b].level == level as nat) by {
                    assert(t[a] == ms[a]);
                    if b < i {
                        assert(t[b] == ms.take(i as int)[b]);
                        assert(ms.take(i as int)[a] == ms[a]);
                    }
                }
                seen_other = true;
                assert(ms[i as int].level != level);
            }
            assert(seen_other == exists|a: int| 0 <= a < i + 1 && #[trigger] ms[a].level != level) by {
                if !seen_other {
                    assert forall|a: int| 0 <= a < i + 1 implies !(#[trigger] ms[a].level != level) by {
                        if a < i {
                            assert(!(ms[a].level != level));
                        }
                    }
                }
            }
            i = i + 1;
        }
        proof {
            assert(ms.take(i as int) =~= ms);
        }
        false
    }

    /// Merges the tables of a level for compaction: reads the given files
    /// (the contents of the tables at `paths`, oldest first; `None` where a
    /// file could not be read) and merges their entries, newer over older.
    /// Tombstones are kept where a table older than those of the level
    /// remains (it may hold a key they delete), and dropped otherwise.
    pub fn merge_compaction(&self, level: usize, paths: &Vec<String>, files: &Vec<Option<Vec<u8>>>) -> (r: Result<Vec<Entry>, KvError>)
        requires
            paths@.len() == files@.len(),
        ensures
            match compaction_scan(opt_files_view(files@)) {
                Decoded::Value(all) => r matches Ok(v) && sorted(entries_view(v@)) && map_of(entries_view(v@)) == if older_tables_remain(
                    self.metas(),
                    level as nat,
                ) {
                    map_of(all)
                } else {
                    crate::entries::live_only(map_of(all))
                },
                d => r matches Err(e) && error_for(e, d),
            },
    {
        let ghost fv = opt_files_view(files@);
        let mut merged: Vec<Entry> = Vec::new();
        let ghost mut collected: Seq<EntryView> = Seq::empty();
        let mut i: usize = 0;
        proof {
            assert(fv.take(0) =~= Seq::<Option<Seq<u8>>>::empty());
            assert(entries_view(merged@) =~= Seq::<EntryView>::empty());
        }
        while i < files.len()
            invariant
                fv == opt_files_view(files@),
                fv.len() == files@.len(),
                paths@.len() == files@.len(),
                i <= files@.len(),
                compaction_scan(fv.take(i as int)) == Decoded::<Seq<EntryView>>::Value(collected),
                sorted(entries_view(merged@)),
                map_of(entries_view(merged@)) == map_of(collected),
            decreases files@.len() - i,
        {
            proof {
                assert(fv.take(i as int + 1).drop_last() =~= fv.take(i as int));
                assert(fv.take(i as int + 1).last() == opt_bytes(files@[i as int]));
            }
            match &files[i] {
                None => {},
                Some(bytes) => {
                    match SSTableReader::open(&paths[i], bytes.as_slice(), level) {
                        Err(_) => {},
                        Ok(reader) => {
                            let entries = match reader.scan_all(bytes.as_slice()) {
                                Ok(es) => es,
                                Err(e) => {
                                    proof {
                                        lemma_compaction_scan_failure(fv, i as int + 1);
                                        assert(fv.take(i as int + 1).take(i as int + 1) =~= fv.take(i as int + 1));
                                    }
                                    return Err(e);
                                },
                            };
                            let ghost es = entries_view(entries@);
                            let ghost base = collected;
                            for e in it: entries
                                invariant
                                    es == entries_view(it.seq()),
                                    sorted(entries_view(merged@)),
                                    map_of(entries_view(merged@)) == map_of(base + es.take(it.index() as int)),
                            {
                                let ghost k = it.index() as int;
                                proof {
                                    assert((base + es.take(k + 1)).drop_last() =~= base + es.take(k));
                                    assert((base + es.take(k + 1)).last() == crate::entries::entry_view(e));
                                }
                                insert_entry(&mut merged, e);
                            }
                            proof {
                                assert(es.take(es.len() as int) =~= es);
                                collected = base + es;
                            }
                        },
                    }
                },
            }
            i = i + 1;
        }
        proof {
            assert(fv.take(i as int) =~= fv);
        }
        if self.older_tables_remain(level) {
            Ok(merged)
        } else {
            proof {
                crate::entries::lemma_without_tombstones(entries_view(merged@));
            }
            Ok(drop_tombstones(merged))
        }
    }

    /// The file name of the table that compaction of `level` writes its
    /// merged entries to, at `level + 1`, taking an id for it; `None` where
    /// no entry is left (every merged entry was a dropped tombstone), as
    /// compaction then only removes the tables it merged.
    pub fn merged_table_name(&mut self, level: usize, merged: &Vec<Entry>) -> (r: Option<Vec<u8>>)
        requires
            merged@.len() > 0 ==> level < usize::MAX && old(self).next_id() < u64::MAX,
        ensures
            merged@.len() == 0 ==> r is None && *final(self) == *old(self),
            merged@.len() > 0 ==> {
                &&& r matches Some(name)
                &&& name@ == crate::names::sst_file_name_spec(level as nat + 1, old(self).next_id() as nat)
                &&& final(self).next_id() == old(self).next_id() + 1
            },
            final(self).wf() == old(self).wf(),
            final(self).mem_entries() == old(self).mem_entries(),
            final(self).mem_map() == old(self).mem_map(),
            final(self).mem_size() == old(self).mem_size(),
            final(self).tables() == old(self).tables(),
            final(self).metas() == old(self).metas(),
            final(self).memtable_threshold() == old(self).memtable_threshold(),
            final(self).compaction_threshold() == old(self).compaction_threshold(),
            final(self).sync_writes() == old(self).sync_writes(),
            final(self).db_path() == old(self).db_path(),
    {
        if merged.len() == 0 {
            None
        } else {
            Some(self.next_sst_file_name(level + 1))
        }
    }

    /// One step of a lookup past the memtable: consults the table at
    /// position `i` (newest first), given the bytes of its file.
    /// `Some(entry)` where that table decides (a value, or `None` for a
    /// tombstone); `None` where the lookup goes on to the next older table.
    pub fn get_from_table(&self, i: usize, key: &[u8], file: &[u8]) -> (r: Result<Option<Option<Vec<u8>>>, KvError>)
        requires
            i < self.tables().len(),
        ensures
            self.indexes_sorted() ==> crate::sstable::lookup_result(r, table_lookup(self.indexes()[i as int], file@, key@)),
    {
        proof {
            assert(self.indexes()[i as int] == self.sstables@[i as int].index_spec());
        }
        self.sstables[i].get(key, file)
    }

    /// Looks up a key, returning `Some(value)` or `None` if not found/deleted.
    /// `files` holds the bytes of the table files, in the readers' order.
    ///
    /// Check order: MemTable → SSTables (newest first).
    pub fn get(&self, key: &[u8], files: &Vec<Vec<u8>>) -> (r: Result<Option<Vec<u8>>, KvError>)
        requires
            self.wf(),
            files@.len() == self.tables().len(),
        ensures
            self.mem_map().contains_key(key@) ==> get_result(r, Decoded::Value(self.mem_map()[key@])),
            self.indexes_sorted() ==> get_result(
                r,
                chain_lookup(self.mem_map(), table_inputs(self.indexes(), files_view(files@)), key@),
            ),
    {
        match self.memtable.get(key) {
            Some(entry) => {
                return match entry {
                    Some(value) => Ok(Some(copy_bytes(value))),
                    None => Ok(None),
                };
            },
            None => {},
        }
        let ghost ts = table_inputs(self.indexes(), files_view(files@));
        let mut i: usize = 0;
        proof {
            assert(ts.skip(0) =~= ts);
        }
        while i < self.sstables.len()
            invariant
                ts == table_inputs(self.indexes(), files_view(files@)),
                ts.len() == self.sstables@.len(),
                files@.len() == self.sstables@.len(),
                i <= self.sstables@.len(),
                self.indexes_sorted() ==> chain_tables(ts, key@) == chain_tables(ts.skip(i as int), key@),
                !self.mem_map().contains_key(key@),
            decreases self.sstables@.len() - i,
        {
            let ghost rest = ts.skip(i as int);
            proof {
                assert(rest[0] == ts[i as int]);
                assert(ts[i as int].0 == self.sstables@[i as int].index_spec());
                assert(ts[i as int].1 == files@[i as int]@);
                assert(rest.drop_first() =~= ts.skip(i as int + 1));
                assert(self.indexes()[i as int] == self.sstables@[i as int].index_spec());
                if self.indexes_sorted() {
                    assert(index_sorted(self.indexes()[i as int]));
                }
            }
            match self.get_from_table(i, key, files[i].as_slice()) {
                Err(e) => {
                    return Err(e);
                },
                Ok(Some(entry)) => {
                    return Ok(entry);
                },
                Ok(None) => {},
            }
            i = i + 1;
        }
        proof {
            assert(ts.skip(i as int).len() == 0);
        }
        Ok(None)
    }
}

/// The id of the next table file: one more than the larger of the largest
/// id found in the table file names (zero where there is none) and the
/// clock's reading (one more than that largest id where the clock cannot
/// be read).
pub open spec fn next_sst_id_spec(ids: Seq<u64>, now_millis: Option<u64>) -> u64 {
    let m = max_of(ids);
    let ts = match now_millis {
        Some(t) => t,
        None => (m + 1) as u64,
    };
    (if m >= ts { m } else { ts } + 1) as u64
}

/// The largest of some ids; zero where there is none.
pub open spec fn max_of(ids: Seq<u64>) -> u64
    decreases ids.len(),
{
    if ids.len() == 0 {
        0
    } else {
        let m = max_of(ids.drop_last());
        if ids.last() > m {
            ids.last()
        } else {
            m
        }
    }
}

/// The largest id is one of the ids, or zero, and no id is larger.
proof fn lemma_max_of(ids: Seq<u64>)
    ensures
        max_of(ids) == 0 || exists|i: int| 0 <= i < ids.len() && ids[i] == max_of(ids),
        forall|i: int| 0 <= i < ids.len() ==> #[trigger] ids[i] <= max_of(ids),
    decreases ids.len(),
{
    if ids.len() > 0 {
        lemma_max_of(ids.drop_last());
        assert forall|i: int| 0 <= i < ids.len() implies #[trigger] ids[i] <= max_of(ids) by {
            if i < ids.len() - 1 {
                assert(ids[i] == ids.drop_last()[i]);
            }
        }
        if max_of(ids) != 0 && max_of(ids) != ids.last() {
            let i = choose|i: int| 0 <= i < ids.drop_last().len() && ids.drop_last()[i] == max_of(ids.drop_last());
            assert(ids[i] == max_of(ids));
        }
    }
}

/// A new table's id is larger than every id already in the table file
/// names and than the clock's reading, so the new file's name is fresh.
pub proof fn lemma_next_id_fresh(ids: Seq<u64>, now_millis: Option<u64>)
    requires
        forall|i: int| 0 <= i < ids.len() ==> #[trigger] ids[i] < u64::MAX,
        now_millis matches Some(t) ==> t < u64::MAX,
        now_millis is None ==> forall|i: int| 0 <= i < ids.len() ==> #[trigger] ids[i] < u64::MAX - 1,
    ensures
        forall|i: int| 0 <= i < ids.len() ==> #[trigger] ids[i] < next_sst_id_spec(ids, now_millis),
        now_millis matches Some(t) ==> t < next_sst_id_spec(ids, now_millis),
{
    lemma_max_of(ids);
}

/// Derives the id of the next table file from the ids in the existing
/// table file names and the clock's reading.
pub fn derive_next_sst_id(ids: &Vec<u64>, now_millis: Option<u64>) -> (r: u64)
    requires
        forall|i: int| 0 <= i < ids@.len() ==> #[trigger] ids@[i] < u64::MAX,
        now_millis matches Some(t) ==> t < u64::MAX,
        now_millis is None ==> forall|i: int| 0 <= i < ids@.len() ==> #[trigger] ids@[i] < u64::MAX - 1,
    ensures
        r == next_sst_id_spec(ids@, now_millis),
        forall|i: int| 0 <= i < ids@.len() ==> #[trigger] ids@[i] < r,
        now_millis matches Some(t) ==> t < r,
{
    let mut max_id: u64 = 0;
    let mut i: usize = 0;
    while i < ids.len()
        invariant
            i <= ids@.len(),
            max_id == max_of(ids@.take(i as int)),
        decreases ids@.len() - i,
    {
        proof {
            assert(ids@.take(i as int + 1).drop_last() =~= ids@.take(i as int));
        }
        if ids[i] > max_id {
            max_id = ids[i];
        }
        i = i + 1;
    }
    proof {
        assert(ids@.take(i as int) =~= ids@);
        lemma_max_of(ids@);
    }
    let ts = match now_millis {
        Some(t) => t,
        None => max_id + 1,
    };
    let m = if max_id >= ts {
        max_id
    } else {
        ts
    };
    m + 1
}

} // verus!
