//! What holds of the store across its operations: a read gives back the
//! last write, flushing and compaction keep what the store holds, listing
//! gives the live entries, tables read back as they were written, and a
//! reopened store reads its tables newest first, as before.
use crate::engine::{
    chain_lookup, compaction_scan, chain_tables, distinct_paths, keep_tables, lemma_compacted_level, manifest_tables,
    older_tables_remain, paths_at_level, reader_view, scan_tables, store_map, table_inputs, tables_map, visible, KvMap,
    KvStore, TableView,
};
use crate::sstable::SSTableReader;
use crate::entries::{lemma_map_of_concat, live_only, map_of, sorted, EntryView};
use crate::sstable::{lemma_table_roundtrip, meta_for, table_fits, table_file, table_index, Decoded, SSTableMetaView};
use vstd::prelude::*;

verus! {

/// The maps of several runs.
pub open spec fn maps_of(es: Seq<Seq<EntryView>>) -> Seq<KvMap> {
    es.map_values(|e: Seq<EntryView>| map_of(e))
}

/// The runs of several tables (given newest first) one after another,
/// oldest first.
pub open spec fn oldest_first(es: Seq<Seq<EntryView>>) -> Seq<EntryView>
    decreases es.len(),
{
    if es.len() == 0 {
        Seq::empty()
    } else {
        oldest_first(es.drop_first()) + es[0]
    }
}

/// Tables (newest first) that this library wrote: each file holds the
/// table file of a sorted run that fits the format, and each index is that
/// run's index.
pub open spec fn written_tables(
    es: Seq<Seq<EntryView>>,
    idxs: Seq<Seq<(Seq<u8>, u64)>>,
    files: Seq<Seq<u8>>,
) -> bool {
    &&& idxs.len() == es.len()
    &&& files.len() == es.len()
    &&& forall|i: int| 0 <= i < es.len() ==> {
        &&& sorted(#[trigger] es[i])
        &&& table_fits(es[i])
        &&& idxs[i] == table_index(es[i])
        &&& files[i] == table_file(es[i])
    }
}

proof fn lemma_written_drop_first(es: Seq<Seq<EntryView>>, idxs: Seq<Seq<(Seq<u8>, u64)>>, files: Seq<Seq<u8>>)
    requires
        written_tables(es, idxs, files),
        es.len() > 0,
    ensures
        written_tables(es.drop_first(), idxs.drop_first(), files.drop_first()),
        table_inputs(idxs, files).drop_first() == table_inputs(idxs.drop_first(), files.drop_first()),
        maps_of(es).drop_first() == maps_of(es.drop_first()),
{
    assert forall|i: int| 0 <= i < es.len() - 1 implies {
        &&& sorted(#[trigger] es.drop_first()[i])
        &&& table_fits(es.drop_first()[i])
        &&& idxs.drop_first()[i] == table_index(es.drop_first()[i])
        &&& files.drop_first()[i] == table_file(es.drop_first()[i])
    } by {
        assert(es.drop_first()[i] == es[i + 1]);
        assert(sorted(es[i + 1]));
    }
    assert(table_inputs(idxs, files).drop_first() =~= table_inputs(idxs.drop_first(), files.drop_first()));
    assert(maps_of(es).drop_first() =~= maps_of(es.drop_first()));
}

/// A lookup in tables that this library wrote finds what their maps hold,
/// newer tables over older.
pub proof fn lemma_chain_tables_written(es: Seq<Seq<EntryView>>, idxs: Seq<Seq<(Seq<u8>, u64)>>, files: Seq<Seq<u8>>, key: Seq<u8>)
    requires
        written_tables(es, idxs, files),
    ensures
        chain_tables(table_inputs(idxs, files), key) == Decoded::Value(visible(tables_map(maps_of(es)), key)),
    decreases es.len(),
{
    let ts = table_inputs(idxs, files);
    if es.len() > 0 {
        assert(sorted(es[0]));
        lemma_table_roundtrip(es[0]);
        lemma_written_drop_first(es, idxs, files);
        lemma_chain_tables_written(es.drop_first(), idxs.drop_first(), files.drop_first(), key);
        assert(ts[0] == (table_index(es[0]), table_file(es[0])));
        assert(maps_of(es)[0] == map_of(es[0]));
        let t = crate::sstable::table_lookup(ts[0].0, ts[0].1, key);
        assert(t == crate::sstable::table_lookup(table_index(es[0]), table_file(es[0]), key));
    } else {
        assert(tables_map(maps_of(es)) =~= Map::<Seq<u8>, Option<Seq<u8>>>::empty());
    }
}

/// A read gives back what the store holds: a lookup, over a memtable and
/// tables that this library wrote, finds the live value that the store's
/// map holds for the key (none where the key is absent or deleted).
pub proof fn lemma_lookup_written(
    mem: KvMap,
    es: Seq<Seq<EntryView>>,
    idxs: Seq<Seq<(Seq<u8>, u64)>>,
    files: Seq<Seq<u8>>,
    key: Seq<u8>,
)
    requires
        written_tables(es, idxs, files),
    ensures
        chain_lookup(mem, table_inputs(idxs, files), key) == Decoded::Value(visible(store_map(mem, maps_of(es)), key)),
{
    lemma_chain_tables_written(es, idxs, files, key);
}

/// A read after a put gives back the value put; keys other than the one
/// put read as before.
pub proof fn lemma_read_after_put(mem: KvMap, ts: Seq<KvMap>, key: Seq<u8>, value: Seq<u8>, other: Seq<u8>)
    ensures
        visible(store_map(mem.insert(key, Some(value)), ts), key) == Some(value),
        other != key ==> visible(store_map(mem.insert(key, Some(value)), ts), other) == visible(store_map(mem, ts), other),
{
}

/// A read after a delete finds nothing; keys other than the one deleted
/// read as before.
pub proof fn lemma_read_after_delete(mem: KvMap, ts: Seq<KvMap>, key: Seq<u8>, other: Seq<u8>)
    ensures
        visible(store_map(mem.insert(key, None), ts), key) is None,
        other != key ==> visible(store_map(mem.insert(key, None), ts), other) == visible(store_map(mem, ts), other),
{
}

/// Flushing keeps what the store holds: the memtable's entries, moved into
/// a new newest table, stand for the same map.
pub proof fn lemma_flush_preserves(mem_entries: Seq<EntryView>, ts: Seq<KvMap>)
    ensures
        store_map(Map::empty(), seq![map_of(mem_entries)] + ts) == store_map(map_of(mem_entries), ts),
{
    let all = seq![map_of(mem_entries)] + ts;
    assert(all.drop_first() =~= ts);
    assert(store_map(Map::empty(), all) =~= store_map(map_of(mem_entries), ts));
}

/// The tables seen as the newest `m` over the rest.
proof fn lemma_tables_map_split(ts: Seq<KvMap>, m: int)
    requires
        0 <= m <= ts.len(),
    ensures
        tables_map(ts) == tables_map(ts.skip(m)).union_prefer_right(tables_map(ts.take(m))),
    decreases m,
{
    if m == 0 {
        assert(ts.skip(0) =~= ts);
        assert(tables_map(ts.take(0)) =~= Map::<Seq<u8>, Option<Seq<u8>>>::empty());
        assert(tables_map(ts).union_prefer_right(Map::empty()) =~= tables_map(ts));
    } else {
        let t = ts.drop_first();
        lemma_tables_map_split(t, m - 1);
        assert(t.skip(m - 1) =~= ts.skip(m));
        assert(ts.take(m).drop_first() =~= t.take(m - 1));
        assert(ts.take(m)[0] == ts[0]);
        assert(tables_map(ts) =~= tables_map(ts.skip(m)).union_prefer_right(tables_map(ts.take(m))));
    }
}

/// Compaction keeps what the store holds: merging the newest `m` tables
/// into one table that holds their merged map (newer over older) changes
/// nothing; dropping the merged tombstones changes no read where no
/// remaining table holds a key that they delete, and none at all where no
/// older table remains.
pub proof fn lemma_compaction_preserves(mem: KvMap, ts: Seq<KvMap>, m: int, key: Seq<u8>)
    requires
        0 <= m <= ts.len(),
    ensures
        store_map(mem, seq![tables_map(ts.take(m))] + ts.skip(m)) == store_map(mem, ts),
        ({
            let merged = tables_map(ts.take(m));
            (merged.contains_key(key) && merged[key] is None ==> !tables_map(ts.skip(m)).contains_key(key))
                ==> visible(store_map(mem, seq![live_only(merged)] + ts.skip(m)), key) == visible(
                store_map(mem, ts),
                key,
            )
        }),
        m == ts.len() ==> visible(store_map(mem, seq![live_only(tables_map(ts.take(m)))] + ts.skip(m)), key)
            == visible(store_map(mem, ts), key),
{
    lemma_tables_map_split(ts, m);
    let merged = tables_map(ts.take(m));
    let rest = ts.skip(m);
    let a = seq![merged] + rest;
    assert(a.drop_first() =~= rest);
    let b = seq![live_only(merged)] + rest;
    assert(b.drop_first() =~= rest);
    assert(store_map(mem, a) =~= store_map(mem, ts));
    if m == ts.len() {
        assert(rest.len() == 0);
        assert(!tables_map(rest).contains_key(key));
    }
}

/// The entries of tables that this library wrote, scanned oldest first,
/// are their runs one after another; with the memtable's entries after
/// them they stand for the store's map. So a listing over such tables lists
/// the store's live entries.
pub proof fn lemma_list_written(
    mem_entries: Seq<EntryView>,
    es: Seq<Seq<EntryView>>,
    idxs: Seq<Seq<(Seq<u8>, u64)>>,
    files: Seq<Seq<u8>>,
)
    requires
        written_tables(es, idxs, files),
    ensures
        scan_tables(table_inputs(idxs, files)) == Decoded::Value(oldest_first(es)),
        map_of(oldest_first(es) + mem_entries) == store_map(map_of(mem_entries), maps_of(es)),
    decreases es.len(),
{
    lemma_map_of_concat(oldest_first(es), mem_entries);
    lemma_oldest_first_map(es);
    if es.len() > 0 {
        assert(sorted(es[0]));
        lemma_table_roundtrip(es[0]);
        lemma_written_drop_first(es, idxs, files);
        lemma_list_written(mem_entries, es.drop_first(), idxs.drop_first(), files.drop_first());
        let ts = table_inputs(idxs, files);
        assert(ts[0] == (table_index(es[0]), table_file(es[0])));
    } else {
        assert(table_inputs(idxs, files).len() == 0);
    }
}

/// The runs of several tables one after another, oldest first, stand for
/// the tables' map.
pub proof fn lemma_oldest_first_map(es: Seq<Seq<EntryView>>)
    ensures
        map_of(oldest_first(es)) == tables_map(maps_of(es)),
    decreases es.len(),
{
    if es.len() > 0 {
        lemma_oldest_first_map(es.drop_first());
        lemma_map_of_concat(oldest_first(es.drop_first()), es[0]);
        assert(maps_of(es).drop_first() =~= maps_of(es.drop_first()));
    } else {
        assert(map_of(oldest_first(es)) =~= tables_map(maps_of(es)));
    }
}

/// The files of tables (given newest first) in manifest order, oldest
/// first, all present.
pub open spec fn manifest_files(es: Seq<Seq<EntryView>>) -> Seq<Option<Seq<u8>>> {
    Seq::new(es.len(), |i: int| Some(table_file(es[es.len() - 1 - i])))
}

/// Compaction reads from the files of tables that this library wrote
/// their runs one after another, oldest first; so the merged entries stand
/// for the merged tables' map (see `lemma_oldest_first_map`).
pub proof fn lemma_compaction_scan_written(es: Seq<Seq<EntryView>>)
    requires
        forall|i: int| 0 <= i < es.len() ==> sorted(#[trigger] es[i]) && table_fits(es[i]),
    ensures
        compaction_scan(manifest_files(es)) == Decoded::Value(oldest_first(es)),
    decreases es.len(),
{
    let fs = manifest_files(es);
    if es.len() > 0 {
        let t = es.drop_first();
        assert forall|i: int| 0 <= i < t.len() implies sorted(#[trigger] t[i]) && table_fits(t[i]) by {
            assert(t[i] == es[i + 1]);
            assert(sorted(es[i + 1]));
        }
        lemma_compaction_scan_written(t);
        assert(fs.drop_last() =~= manifest_files(t));
        assert(fs.last() == Some(table_file(es[0])));
        assert(sorted(es[0]));
        lemma_table_roundtrip(es[0]);
    } else {
        assert(fs.len() == 0);
    }
}

/// A table written for `path` and opened again, at any level, has the
/// metadata it was written with but for the level: the same path, entry
/// count and first and last keys.
pub proof fn lemma_reopen_meta(es: Seq<EntryView>, path: Seq<char>, level: nat, other_level: nat)
    requires
        sorted(es),
        table_fits(es),
    ensures
        crate::sstable::open_index(table_file(es)) == Decoded::Value(table_index(es)),
        meta_for(path, table_index(es).map_values(|e: (Seq<u8>, u64)| e.0), other_level) == (SSTableMetaView {
            level: other_level,
            ..meta_for(path, es.map_values(|e: EntryView| e.0), level)
        }),
        es.len() > 0 ==> meta_for(path, table_index(es).map_values(|e: (Seq<u8>, u64)| e.0), other_level).max_key
            == es[es.len() - 1].0,
        es.len() > 0 ==> meta_for(path, table_index(es).map_values(|e: (Seq<u8>, u64)| e.0), other_level).min_key
            == es[0].0,
{
    lemma_table_roundtrip(es);
    crate::sstable::lemma_meta_for(path, table_index(es).map_values(|e: (Seq<u8>, u64)| e.0), other_level);
    assert(table_index(es).map_values(|e: (Seq<u8>, u64)| e.0) =~= es.map_values(|e: EntryView| e.0));
}

/// The files of a manifest's entries as this library writes them: the
/// table file of each entry's run (runs given in manifest order).
pub open spec fn written_files(es: Seq<Seq<EntryView>>) -> Seq<Option<Seq<u8>>> {
    es.map_values(|e: Seq<EntryView>| Some(table_file(e)))
}

/// The tables of a manifest whose runs (in manifest order) were written,
/// newest first.
pub open spec fn reopened(ms: Seq<SSTableMetaView>, es: Seq<Seq<EntryView>>) -> Seq<TableView> {
    Seq::new(ms.len(), |i: int| (ms[ms.len() - 1 - i].path, table_index(es[ms.len() - 1 - i]), ms[ms.len() - 1 - i].level))
}

/// Opening a store whose table files this library wrote gives back their
/// tables newest first, in reverse manifest order, each with the index of
/// its run; so reads after reopening take newer tables over older, as
/// before.
pub proof fn lemma_reopen_written(ms: Seq<SSTableMetaView>, es: Seq<Seq<EntryView>>)
    requires
        es.len() == ms.len(),
        forall|i: int| 0 <= i < es.len() ==> sorted(#[trigger] es[i]) && table_fits(es[i]),
    ensures
        manifest_tables(ms, written_files(es)) == Decoded::Value(reopened(ms, es)),
    decreases ms.len(),
{
    let fs = written_files(es);
    if ms.len() > 0 {
        let n = ms.len() - 1;
        let es2 = es.drop_last();
        assert forall|i: int| 0 <= i < es2.len() implies sorted(#[trigger] es2[i]) && table_fits(es2[i]) by {
            assert(es2[i] == es[i]);
            assert(sorted(es[i]));
        }
        lemma_reopen_written(ms.drop_last(), es2);
        assert(fs.drop_last() =~= written_files(es2));
        assert(sorted(es[n]));
        lemma_table_roundtrip(es[n]);
        assert(fs.last() == Some(table_file(es[n])));
        assert(reopened(ms, es) =~= seq![(ms.last().path, table_index(es[n]), ms.last().level)] + reopened(ms.drop_last(), es2));
    } else {
        assert(reopened(ms, es) =~= Seq::<TableView>::empty());
    }
}

/// After reopening a store whose table files this library wrote (runs
/// given in manifest order), a read over its memtable and the reopened
/// tables, with their files newest first, finds what the store's map holds:
/// the memtable over the newest table over the older ones, as before.
pub proof fn lemma_reopen_reads(mem: KvMap, ms: Seq<SSTableMetaView>, es: Seq<Seq<EntryView>>, key: Seq<u8>)
    requires
        es.len() == ms.len(),
        forall|i: int| 0 <= i < es.len() ==> sorted(#[trigger] es[i]) && table_fits(es[i]),
    ensures
        manifest_tables(ms, written_files(es)) == Decoded::Value(reopened(ms, es)),
        chain_lookup(
            mem,
            table_inputs(
                reopened(ms, es).map_values(|t: TableView| t.1),
                es.reverse().map_values(|e: Seq<EntryView>| table_file(e)),
            ),
            key,
        ) == Decoded::Value(visible(store_map(mem, maps_of(es.reverse())), key)),
{
    lemma_reopen_written(ms, es);
    let rs = es.reverse();
    let idxs = reopened(ms, es).map_values(|t: TableView| t.1);
    let files = rs.map_values(|e: Seq<EntryView>| table_file(e));
    assert forall|i: int| 0 <= i < rs.len() implies {
        &&& sorted(#[trigger] rs[i])
        &&& table_fits(rs[i])
        &&& idxs[i] == table_index(rs[i])
        &&& files[i] == table_file(rs[i])
    } by {
        assert(rs[i] == es[es.len() - 1 - i]);
        assert(sorted(es[es.len() - 1 - i]));
    }
    assert(written_tables(rs, idxs, files));
    lemma_lookup_written(mem, rs, idxs, files, key);
}

/// The tables of a store are tables that this library wrote: the `i`-th
/// reader (newest first) reads the table file of the sorted run `es[i]`.
pub open spec fn reads_written(s: KvStore, es: Seq<Seq<EntryView>>) -> bool {
    &&& es.len() == s.tables().len()
    &&& forall|i: int| 0 <= i < es.len() ==> {
        &&& sorted(#[trigger] es[i])
        &&& table_fits(es[i])
        &&& s.indexes()[i] == table_index(es[i])
    }
}

/// The table files of runs, in the order given.
pub open spec fn files_of(es: Seq<Seq<EntryView>>) -> Seq<Seq<u8>> {
    es.map_values(|e: Seq<EntryView>| table_file(e))
}

/// Persistence of the tables: for a store in step with its manifest whose
/// tables this library wrote, opening again from the manifest and those
/// files (in manifest order) gives back the same readers, newest first;
/// and a read over them finds what the store's map holds, newer tables
/// over older, before and after.
pub proof fn lemma_reopen_same_tables(s: KvStore, es: Seq<Seq<EntryView>>, mem: KvMap, key: Seq<u8>)
    requires
        s.in_step(),
        reads_written(s, es),
    ensures
        manifest_tables(s.metas(), written_files(es.reverse())) == Decoded::Value(
            s.tables().map_values(|t: SSTableReader| reader_view(t)),
        ),
        chain_lookup(mem, table_inputs(s.indexes(), files_of(es)), key) == Decoded::Value(
            visible(store_map(mem, maps_of(es)), key),
        ),
{
    let ms = s.metas();
    let ts = s.tables();
    let rs = es.reverse();
    assert forall|i: int| 0 <= i < rs.len() implies sorted(#[trigger] rs[i]) && table_fits(rs[i]) by {
        assert(rs[i] == es[es.len() - 1 - i]);
        assert(sorted(es[es.len() - 1 - i]));
    }
    lemma_reopen_written(ms, rs);
    let rv = ts.map_values(|t: SSTableReader| reader_view(t));
    assert forall|i: int| 0 <= i < ts.len() implies #[trigger] reopened(ms, rs)[i] == rv[i] by {
        assert(crate::engine::reader_key(ts[i]) == crate::engine::meta_key(ms[ms.len() - 1 - i]));
        assert(rs[ms.len() - 1 - i] == es[i]);
        assert(s.indexes()[i] == ts[i].index_spec());
    }
    assert(reopened(ms, rs) =~= rv);
    assert forall|i: int| 0 <= i < es.len() implies {
        &&& sorted(#[trigger] es[i])
        &&& table_fits(es[i])
        &&& s.indexes()[i] == table_index(es[i])
        &&& files_of(es)[i] == table_file(es[i])
    } by {
        assert(sorted(es[i]));
    }
    assert(written_tables(es, s.indexes(), files_of(es)));
    lemma_lookup_written(mem, es, s.indexes(), files_of(es), key);
}

/// Compaction keeps every read: for a store in step with a manifest of
/// distinct paths, whose tables this library wrote and whose tables at
/// `level` are the newest `m` (at least two): compaction reads their
/// runs oldest first; removing the level's tables leaves the older ones;
/// and the merged run (newer over older, tombstones dropped only where no
/// older table remains), as the newest table over those older ones, reads
/// for every key as the tables did before.
pub proof fn lemma_compaction_keeps_reads(
    s: KvStore,
    level: nat,
    m: int,
    es: Seq<Seq<EntryView>>,
    merged: Seq<EntryView>,
    mem: KvMap,
    key: Seq<u8>,
)
    requires
        s.in_step(),
        distinct_paths(s.metas()),
        reads_written(s, es),
        2 <= m <= es.len(),
        forall|i: int| 0 <= i < m ==> (#[trigger] s.tables()[i]).meta_spec().level == level,
        forall|i: int| m <= i < es.len() ==> (#[trigger] s.tables()[i]).meta_spec().level != level,
        sorted(merged),
        table_fits(merged),
        map_of(merged) == if older_tables_remain(s.metas(), level) {
            map_of(oldest_first(es.take(m)))
        } else {
            live_only(map_of(oldest_first(es.take(m))))
        },
    ensures
        compaction_scan(manifest_files(es.take(m))) == Decoded::Value(oldest_first(es.take(m))),
        keep_tables(s.tables(), paths_at_level(s.metas(), level)) == s.tables().skip(m),
        crate::sstable::open_index(table_file(merged)) == Decoded::Value(table_index(merged)),
        chain_lookup(
            mem,
            table_inputs(seq![table_index(merged)] + s.indexes().skip(m), seq![table_file(merged)] + files_of(es).skip(m)),
            key,
        ) == chain_lookup(mem, table_inputs(s.indexes(), files_of(es)), key),
{
    let t = es.take(m);
    assert forall|i: int| 0 <= i < t.len() implies sorted(#[trigger] t[i]) && table_fits(t[i]) by {
        assert(t[i] == es[i]);
        assert(sorted(es[i]));
    }
    lemma_compaction_scan_written(t);
    lemma_compacted_level(s.tables(), s.metas(), level, m);
    lemma_table_roundtrip(merged);
    // before: the tables as written
    assert forall|i: int| 0 <= i < es.len() implies {
        &&& sorted(#[trigger] es[i])
        &&& table_fits(es[i])
        &&& s.indexes()[i] == table_index(es[i])
        &&& files_of(es)[i] == table_file(es[i])
    } by {
        assert(sorted(es[i]));
    }
    lemma_lookup_written(mem, es, s.indexes(), files_of(es), key);
    // after: the merged run over the older runs
    let es2 = seq![merged] + es.skip(m);
    let idx2 = seq![table_index(merged)] + s.indexes().skip(m);
    let f2 = seq![table_file(merged)] + files_of(es).skip(m);
    assert forall|i: int| 0 <= i < es2.len() implies {
        &&& sorted(#[trigger] es2[i])
        &&& table_fits(es2[i])
        &&& idx2[i] == table_index(es2[i])
        &&& f2[i] == table_file(es2[i])
    } by {
        if i > 0 {
            assert(es2[i] == es[i - 1 + m]);
            assert(sorted(es[i - 1 + m]));
        }
    }
    assert(written_tables(es2, idx2, f2));
    lemma_lookup_written(mem, es2, idx2, f2, key);
    // the two maps read alike
    let ts = maps_of(es);
    lemma_oldest_first_map(t);
    assert(maps_of(t) =~= ts.take(m));
    assert(maps_of(es2) =~= seq![map_of(merged)] + ts.skip(m));
    lemma_compaction_preserves(mem, ts, m, key);
}

/// The store's map gives the memtable priority, then the newest table,
/// then the older tables; a key that none holds is absent.
pub proof fn lemma_store_precedence(mem: KvMap, ts: Seq<KvMap>, k: Seq<u8>)
    ensures
        mem.contains_key(k) ==> store_map(mem, ts).contains_key(k) && store_map(mem, ts)[k] == mem[k],
        !mem.contains_key(k) && ts.len() > 0 && ts[0].contains_key(k) ==> store_map(mem, ts).contains_key(k)
            && store_map(mem, ts)[k] == ts[0][k],
        !mem.contains_key(k) && ts.len() > 0 && !ts[0].contains_key(k) ==> store_map(mem, ts).contains_key(k)
            == store_map(mem, ts.drop_first()).contains_key(k) && (store_map(mem, ts).contains_key(k) ==> store_map(
            mem,
            ts,
        )[k] == store_map(mem, ts.drop_first())[k]),
        ts.len() == 0 ==> store_map(mem, ts) == mem,
{
    if ts.len() == 0 {
        assert(store_map(mem, ts) =~= mem);
    }
}

/// A key reads as a live value exactly where the map holds that value for
/// it; a tombstone or an absent key reads as nothing.
pub proof fn lemma_visible(m: KvMap, k: Seq<u8>)
    ensures
        forall|v: Seq<u8>| visible(m, k) == Some(v) <==> (m.contains_key(k) && m[k] == Some(v)),
        !m.contains_key(k) ==> visible(m, k) is None,
        m.contains_key(k) && m[k] is None ==> visible(m, k) is None,
{
}

/// Keeping only the live entries of a map keeps exactly the keys with a
/// value, with those values.
pub proof fn lemma_live_only(m: KvMap, k: Seq<u8>)
    ensures
        live_only(m).contains_key(k) <==> (m.contains_key(k) && m[k] is Some),
        live_only(m).contains_key(k) ==> live_only(m)[k] == m[k],
{
}

/// What a store lookup's result means: a value found is returned as its
/// bytes, nothing found as `Ok(None)`, a file cut short as an I/O error and
/// bytes that do not decode as a serialization error.
pub proof fn lemma_get_result(r: Result<Option<Vec<u8>>, crate::error::KvError>, d: Decoded<Option<Seq<u8>>>)
    ensures
        forall|v: Seq<u8>| d == Decoded::Value(Some(v)) && crate::engine::get_result(r, d) ==> (r matches Ok(Some(x)) && x@ == v),
        d == Decoded::<Option<Seq<u8>>>::Value(None) && crate::engine::get_result(r, d) ==> r matches Ok(None),
        d is Truncated && crate::engine::get_result(r, d) ==> r matches Err(crate::error::KvError::Io(_)),
        d is Malformed && crate::engine::get_result(r, d) ==> r matches Err(crate::error::KvError::Serialization(_)),
{
}

} // verus!
