//! The store's scenarios, run against the engine with table files, log and
//! manifest held in memory: the same steps that the program takes with
//! files on disk.
use std::collections::HashMap;

use lsm_kv_store::engine::{KvStore as Engine, KvStoreConfig, Manifest};
use lsm_kv_store::frame::{decode_frames, encode_frame};
use lsm_kv_store::names::sst_id_of_stem;
use lsm_kv_store::sstable::{SSTableMeta, SSTableWriter};
use lsm_kv_store::wal::{recovered_entries, WalEntry};

/// What the store keeps on disk.
#[derive(Default)]
struct Disk {
    files: HashMap<String, Vec<u8>>,
    manifest: Vec<SSTableMeta>,
    wal: Vec<u8>,
}

struct Store {
    engine: Engine,
    disk: Disk,
}

fn encode_wal(e: &WalEntry) -> Vec<u8> {
    let payload = match e {
        WalEntry::Put { key, value } => bincode::serialize(&(0u32, key, value)).unwrap(),
        WalEntry::Delete { key } => bincode::serialize(&(1u32, key)).unwrap(),
    };
    encode_frame(&payload)
}

fn decode_wal(payload: &[u8]) -> Option<WalEntry> {
    match bincode::deserialize::<u32>(payload).ok()? {
        0 => {
            let (_, key, value): (u32, Vec<u8>, Vec<u8>) = bincode::deserialize(payload).ok()?;
            Some(WalEntry::Put { key, value })
        }
        1 => {
            let (_, key): (u32, Vec<u8>) = bincode::deserialize(payload).ok()?;
            Some(WalEntry::Delete { key })
        }
        _ => None,
    }
}

fn stem(path: &str) -> &str {
    let name = path.rsplit('/').next().unwrap();
    name.strip_suffix(".sst").unwrap_or(name)
}

impl Store {
    fn open(disk: Disk, config: KvStoreConfig) -> Store {
        let manifest = Manifest { sstables: disk.manifest.iter().map(|m| m.duplicate()).collect() };
        let files: Vec<Option<Vec<u8>>> = manifest.sstables.iter().map(|m| disk.files.get(&m.path).cloned()).collect();
        let ids: Vec<u64> =
            manifest.sstables.iter().filter_map(|m| sst_id_of_stem(stem(&m.path).as_bytes())).collect();
        let entries = recovered_entries(decode_frames(&disk.wal).iter().map(|p| decode_wal(p)).collect());
        let engine = Engine::open(config, manifest, files, entries, &ids, Some(1000)).ok().unwrap();
        Store { engine, disk }
    }

    fn open_default(disk: Disk) -> Store {
        Store::open(disk, KvStoreConfig::new("db".to_string()))
    }

    fn with_threshold(threshold: usize) -> Store {
        let mut config = KvStoreConfig::new("db".to_string());
        config.memtable_threshold = threshold;
        Store::open(Disk::default(), config)
    }

    fn close(self) -> Disk {
        self.disk
    }

    fn put(&mut self, key: impl Into<Vec<u8>>, value: impl Into<Vec<u8>>) {
        let key = key.into();
        let value = value.into();
        self.disk.wal.extend(encode_wal(&WalEntry::Put { key: key.clone(), value: value.clone() }));
        if self.engine.put(key, value) {
            self.flush();
        }
    }

    fn delete(&mut self, key: impl Into<Vec<u8>>) {
        let key = key.into();
        self.disk.wal.extend(encode_wal(&WalEntry::Delete { key: key.clone() }));
        if self.engine.delete(key) {
            self.flush();
        }
    }

    fn files(&self) -> Vec<Vec<u8>> {
        self.engine.sstables().iter().map(|r| self.disk.files[r.path()].clone()).collect()
    }

    fn get(&self, key: impl AsRef<[u8]>) -> Option<Vec<u8>> {
        self.engine.get(key.as_ref(), &self.files()).ok().unwrap()
    }

    fn list(&self) -> Vec<(Vec<u8>, Vec<u8>)> {
        self.engine.list(&self.files()).ok().unwrap()
    }

    fn next_path(&mut self, level: usize) -> String {
        let name = String::from_utf8(self.engine.next_sst_file_name(level)).unwrap();
        format!("db/{name}")
    }

    fn save_manifest(&mut self) {
        self.disk.manifest = self.engine.manifest().sstables.iter().map(|m| m.duplicate()).collect();
    }

    fn flush(&mut self) {
        if self.engine.memtable().is_empty() {
            return;
        }
        let path = self.next_path(0);
        let (bytes, meta) = self.engine.flush_memtable(&path).ok().unwrap().unwrap();
        self.disk.files.insert(path.clone(), bytes.clone());
        self.engine.install_table(&path, &bytes, meta).ok().unwrap();
        self.save_manifest();
        self.disk.wal.clear();
        let max_level = self.engine.max_level();
        let mut from = 0;
        while let Some(level) = self.engine.next_compaction(from, max_level) {
            self.compact_level(level);
            from = level + 1;
        }
    }

    fn remove(&mut self, paths: &Vec<String>) {
        self.engine.remove_sstables(paths);
        for p in paths {
            self.disk.files.remove(p);
        }
    }

    fn compact_level(&mut self, level: usize) {
        let Some(paths) = self.engine.compaction_inputs(level) else {
            return;
        };
        let files: Vec<Option<Vec<u8>>> = paths.iter().map(|p| self.disk.files.get(p).cloned()).collect();
        let entries = self.engine.merge_compaction(level, &paths, &files).ok().unwrap();
        let Some(name) = self.engine.merged_table_name(level, &entries) else {
            self.remove(&paths);
            return;
        };
        let path = format!("db/{}", String::from_utf8(name).unwrap());
        let (bytes, meta) = SSTableWriter::write(&path, &entries, level + 1).ok().unwrap();
        self.disk.files.insert(path.clone(), bytes.clone());
        self.remove(&paths);
        self.engine.install_table(&path, &bytes, meta).ok().unwrap();
        self.save_manifest();
    }
}

#[test]
fn test_put_get_roundtrip() {
    let mut store = Store::with_threshold(4 * 1024 * 1024);
    store.put("hello", "world");
    store.put("foo", "bar");

    assert_eq!(store.get("hello"), Some(b"world".to_vec()));
    assert_eq!(store.get("foo"), Some(b"bar".to_vec()));
    assert_eq!(store.get("missing"), None);
}

#[test]
fn test_overwrite_semantics() {
    let mut store = Store::with_threshold(4 * 1024 * 1024);
    store.put("key", "v1");
    assert_eq!(store.get("key"), Some(b"v1".to_vec()));

    store.put("key", "v2");
    assert_eq!(store.get("key"), Some(b"v2".to_vec()));
}

#[test]
fn test_delete_tombstone() {
    let mut store = Store::with_threshold(4 * 1024 * 1024);
    store.put("key", "value");
    assert_eq!(store.get("key"), Some(b"value".to_vec()));

    store.delete("key");
    assert_eq!(store.get("key"), None);
}

#[test]
fn test_delete_nonexistent_key() {
    let mut store = Store::with_threshold(4 * 1024 * 1024);
    // Deleting a key that was never put should not error.
    store.delete("phantom");
    assert_eq!(store.get("phantom"), None);
}

#[test]
fn test_persistence_across_reopen() {
    // Session 1: write some data and force flush.
    let disk = {
        let mut store = Store::open_default(Disk::default());
        store.put("persist_key", "persist_value");
        store.flush();
        store.close()
    };

    // Session 2: reopen and verify data is still there.
    let store = Store::open_default(disk);
    assert_eq!(store.get("persist_key"), Some(b"persist_value".to_vec()));
}

#[test]
fn test_wal_recovery_without_flush() {
    // Session 1: write data without flushing — only WAL.
    let disk = {
        let mut store = Store::open_default(Disk::default());
        store.put("wal_key", "wal_value");
        store.close()
    };

    // Session 2: reopen — WAL recovery should restore the entry.
    let store = Store::open_default(disk);
    assert_eq!(store.get("wal_key"), Some(b"wal_value".to_vec()));
}

#[test]
fn test_overwrite_persists_across_reopen() {
    let disk = {
        let mut store = Store::open_default(Disk::default());
        store.put("key", "v1");
        store.put("key", "v2");
        store.flush();
        store.close()
    };

    let store = Store::open_default(disk);
    assert_eq!(store.get("key"), Some(b"v2".to_vec()));
}

#[test]
fn test_tombstone_persists_across_reopen() {
    let disk = {
        let mut store = Store::open_default(Disk::default());
        store.put("doomed", "value");
        store.delete("doomed");
        store.flush();
        store.close()
    };

    let store = Store::open_default(disk);
    assert_eq!(store.get("doomed"), None);
}

#[test]
fn test_list_returns_live_entries_only() {
    let mut store = Store::with_threshold(4 * 1024 * 1024);
    store.put("a", "1");
    store.put("b", "2");
    store.put("c", "3");
    store.delete("b");

    let entries = store.list();
    assert_eq!(entries.len(), 2);
    assert_eq!(entries[0], (b"a".to_vec(), b"1".to_vec()));
    assert_eq!(entries[1], (b"c".to_vec(), b"3".to_vec()));
}

#[test]
fn test_flush_and_read_from_sstable() {
    // Use a tiny threshold to force flush.
    let mut store = Store::with_threshold(10);
    store.put("big_enough_key", "big_enough_value");
    // At this point, memtable should have flushed.
    assert!(store.engine.memtable().is_empty());
    assert_eq!(store.get("big_enough_key"), Some(b"big_enough_value".to_vec()));
}

#[test]
fn test_many_writes_and_reads() {
    let mut store = Store::with_threshold(256);

    for i in 0..100 {
        let key = format!("key_{i:04}");
        let value = format!("value_{i:04}");
        store.put(key.as_bytes(), value.as_bytes());
    }

    for i in 0..100 {
        let key = format!("key_{i:04}");
        let value = format!("value_{i:04}");
        assert_eq!(store.get(key.as_bytes()), Some(value.into_bytes()), "Failed to read key_{i:04}");
    }
}

fn compaction_store() -> Store {
    let mut config = KvStoreConfig::new("db".to_string());
    config.memtable_threshold = 32; // very small → frequent flushes
    config.compaction_threshold = 4;
    Store::open(Disk::default(), config)
}

#[test]
fn test_compaction_triggered_by_many_flushes() {
    let mut store = compaction_store();

    for i in 0..50 {
        let key = format!("ck_{i:03}");
        let value = format!("cv_{i:03}");
        store.put(key.as_bytes(), value.as_bytes());
    }
    // some table has been compacted to level 1
    assert!(store.engine.max_level() >= 1);

    for i in 0..50 {
        let key = format!("ck_{i:03}");
        let value = format!("cv_{i:03}");
        assert_eq!(
            store.get(key.as_bytes()),
            Some(value.into_bytes()),
            "Failed to read ck_{i:03} after compaction"
        );
    }
}

#[test]
fn test_compaction_preserves_overwrites() {
    let mut store = compaction_store();

    for i in 0..20 {
        let key = format!("ow_{i:03}");
        store.put(key.as_bytes(), b"old");
    }
    for i in 0..20 {
        let key = format!("ow_{i:03}");
        store.put(key.as_bytes(), b"new");
    }
    for i in 0..20 {
        let key = format!("ow_{i:03}");
        assert_eq!(store.get(key.as_bytes()), Some(b"new".to_vec()), "Overwrite lost for ow_{i:03}");
    }
}

#[test]
fn test_compaction_handles_tombstones() {
    let mut store = compaction_store();

    for i in 0..20 {
        let key = format!("del_{i:03}");
        store.put(key.as_bytes(), b"val");
    }
    for i in 0..10 {
        let key = format!("del_{i:03}");
        store.delete(key.as_bytes());
    }

    // Force any remaining data into SSTables.
    store.flush();

    for i in 0..10 {
        let key = format!("del_{i:03}");
        assert_eq!(store.get(key.as_bytes()), None, "Tombstone lost for del_{i:03}");
    }
    for i in 10..20 {
        let key = format!("del_{i:03}");
        assert_eq!(store.get(key.as_bytes()), Some(b"val".to_vec()), "Live key lost for del_{i:03}");
    }
}

#[test]
fn test_compaction_data_integrity_after_reopen() {
    let disk = {
        let mut store = compaction_store();
        for i in 0..50 {
            let key = format!("ri_{i:03}");
            let value = format!("rv_{i:03}");
            store.put(key.as_bytes(), value.as_bytes());
        }
        store.flush();
        store.close()
    };

    // Reopen with default config and verify.
    let store = Store::open_default(disk);
    for i in 0..50 {
        let key = format!("ri_{i:03}");
        let value = format!("rv_{i:03}");
        assert_eq!(
            store.get(key.as_bytes()),
            Some(value.into_bytes()),
            "Lost ri_{i:03} after compaction + reopen"
        );
    }
}

#[test]
fn store_list_merges_tables_newest_first() {
    let mut config = KvStoreConfig::new("db".to_string());
    config.memtable_threshold = 1;
    config.compaction_threshold = 100;
    let mut store = Store::open(Disk::default(), config);
    store.put("b", "old");
    store.put("a", "1");
    store.put("b", "new");
    store.delete("a");
    store.put("c", "3");
    assert_eq!(store.engine.sstables().len(), 5);
    assert_eq!(store.list(), vec![(b"b".to_vec(), b"new".to_vec()), (b"c".to_vec(), b"3".to_vec())]);
    assert_eq!(store.get("a"), None);
}

#[test]
fn store_file_names() {
    let mut store = Store::open(Disk::default(), KvStoreConfig::new("db".to_string()));
    let first = store.engine.next_sst_id();
    assert_eq!(first, 1001);
    assert_eq!(store.engine.next_sst_file_name(0), b"L0_001001.sst".to_vec());
    assert_eq!(store.engine.next_sst_file_name(12), b"L12_001002.sst".to_vec());
    assert_eq!(store.engine.alloc_sst_id(), 1003);
    assert_eq!(lsm_kv_store::names::sst_file_name(3, 7), b"L3_000007.sst".to_vec());
    assert_eq!(lsm_kv_store::names::sst_file_name(0, 12345678), b"L0_12345678.sst".to_vec());
    assert_eq!(lsm_kv_store::names::sst_id_of_stem(b"L3_000007"), Some(7));
}

#[test]
fn store_next_id_from_names_and_clock() {
    let mut disk = Disk::default();
    for (i, id) in [5u64, 2000, 17].iter().enumerate() {
        disk.manifest.push(SSTableMeta {
            path: format!("db/L0_{id:06}.sst"),
            entry_count: 0,
            min_key: Vec::new(),
            max_key: Vec::new(),
            level: i,
        });
    }
    // the clock (1000) is behind the largest id (2000)
    let store = Store::open_default(disk);
    assert_eq!(store.engine.next_sst_id(), 2001);
    // level counts and paths come from the manifest
    assert_eq!(store.engine.max_level(), 2);
    assert_eq!(store.engine.level_count(1), 1);
    assert_eq!(store.engine.compaction_paths(2), vec!["db/L0_000017.sst".to_string()]);
    assert!(store.engine.compaction_inputs(2).is_none());
    // a table at another level before one at the level is older than it
    assert!(!store.engine.older_tables_remain(0));
    assert!(store.engine.older_tables_remain(1));
    assert!(store.engine.older_tables_remain(2));
    assert!(!store.engine.older_tables_remain(3));
}

#[test]
fn store_compaction_keeps_tombstones_over_older_tables() {
    // A tombstone merged out of level 0 is kept while an older level-1
    // table holds the key; once both level-1 tables merge, it goes.
    let mut config = KvStoreConfig::new("db".to_string());
    config.memtable_threshold = 1;
    config.compaction_threshold = 2;
    let mut store = Store::open(Disk::default(), config);
    store.put("k", "v");
    store.put("other", "o");
    // two level-0 tables were merged into one level-1 table
    assert_eq!(store.engine.sstables().len(), 1);
    assert_eq!(store.engine.level_count(1), 1);
    store.delete("k");
    assert_eq!(store.get("k"), None);
    store.put("x", "y");
    // level 0 merged into level 1 with the tombstone, then level 1 into level 2
    assert_eq!(store.engine.level_count(2), 1);
    assert_eq!(store.engine.sstables().len(), 1);
    assert_eq!(store.get("k"), None);
    assert_eq!(store.get("x"), Some(b"y".to_vec()));
    assert_eq!(store.get("other"), Some(b"o".to_vec()));
    assert_eq!(store.list(), vec![(b"other".to_vec(), b"o".to_vec()), (b"x".to_vec(), b"y".to_vec())]);
}

#[test]
fn store_deleted_key_stays_deleted_after_compaction() {
    let mut config = KvStoreConfig::new("db".to_string());
    config.compaction_threshold = 100;
    let mut store = Store::open(Disk::default(), config);
    store.put("k", "v");
    store.flush();
    store.put("z", "0");
    store.flush();
    store.compact_level(0);
    store.delete("k");
    store.put("x", "2");
    store.flush();
    store.put("x", "3");
    store.flush();
    // level 1: {k: v, z: 0}; level 0: {k: deleted, x: 2}, {x: 3}
    assert_eq!(store.engine.level_count(1), 1);
    assert_eq!(store.engine.level_count(0), 2);
    store.compact_level(0);
    assert_eq!(store.engine.level_count(0), 0);
    assert_eq!(store.engine.level_count(1), 2);
    assert_eq!(store.get("k"), None);
    assert_eq!(store.get("x"), Some(b"3".to_vec()));
    assert_eq!(store.get("z"), Some(b"0".to_vec()));
    assert_eq!(store.list(), vec![(b"x".to_vec(), b"3".to_vec()), (b"z".to_vec(), b"0".to_vec())]);
    // after reopening, the same
    let store = Store::open_default(store.close());
    assert_eq!(store.get("k"), None);
    assert_eq!(store.list(), vec![(b"x".to_vec(), b"3".to_vec()), (b"z".to_vec(), b"0".to_vec())]);
}

#[test]
fn store_compaction_of_only_tombstones_removes_inputs() {
    let mut config = KvStoreConfig::new("db".to_string());
    config.compaction_threshold = 100;
    let mut store = Store::open(Disk::default(), config);
    store.delete("a");
    store.flush();
    store.delete("b");
    store.flush();
    let before = store.engine.next_sst_id();
    store.compact_level(0);
    // nothing is left to write: the inputs go, no id is taken
    assert_eq!(store.engine.sstables().len(), 0);
    assert_eq!(store.engine.manifest().sstables.len(), 0);
    assert_eq!(store.engine.next_sst_id(), before);
    assert_eq!(store.engine.merged_table_name(0, &Vec::new()), None);
    assert_eq!(store.engine.merged_table_name(3, &vec![(b"a".to_vec(), None)]), Some(format!("L4_{before:06}.sst").into_bytes()));
}

#[test]
fn store_merge_compaction_keeps_tombstones_with_deeper_tables() {
    let mut disk = Disk::default();
    let tables = [
        ("db/L5_000001.sst", 5usize, vec![(b"d".to_vec(), Some(b"deep".to_vec()))]),
        ("db/L0_000002.sst", 0, vec![(b"a".to_vec(), Some(b"1".to_vec())), (b"b".to_vec(), Some(b"2".to_vec()))]),
        ("db/L0_000003.sst", 0, vec![(b"a".to_vec(), None), (b"c".to_vec(), Some(b"3".to_vec()))]),
    ];
    for (path, level, entries) in tables.iter() {
        let (bytes, meta) = SSTableWriter::write(&path.to_string(), entries, *level).ok().unwrap();
        disk.files.insert(path.to_string(), bytes);
        disk.manifest.push(meta);
    }
    let store = Store::open_default(disk);
    let paths = store.engine.compaction_paths(0);
    assert_eq!(paths, vec!["db/L0_000002.sst".to_string(), "db/L0_000003.sst".to_string()]);
    let files: Vec<Option<Vec<u8>>> = paths.iter().map(|p| store.disk.files.get(p).cloned()).collect();
    let merged = store.engine.merge_compaction(0, &paths, &files).ok().unwrap();
    assert_eq!(
        merged,
        vec![
            (b"a".to_vec(), None),
            (b"b".to_vec(), Some(b"2".to_vec())),
            (b"c".to_vec(), Some(b"3".to_vec())),
        ]
    );
    // a missing file is passed over
    let merged = store.engine.merge_compaction(0, &paths, &vec![None, files[1].clone()]).ok().unwrap();
    assert_eq!(merged, vec![(b"a".to_vec(), None), (b"c".to_vec(), Some(b"3".to_vec()))]);
    // at a level that no older table precedes, the tombstone goes
    let merged4 = store.engine.merge_compaction(4, &paths, &files).ok().unwrap();
    assert_eq!(merged4, vec![(b"b".to_vec(), Some(b"2".to_vec())), (b"c".to_vec(), Some(b"3".to_vec()))]);
    assert_eq!(store.get("a"), None);
    assert_eq!(store.get("d"), Some(b"deep".to_vec()));
    assert_eq!(store.engine.next_compaction(0, 5), None);
}

#[test]
fn store_remove_and_install_tables() {
    let mut store = Store::with_threshold(4 * 1024 * 1024);
    let path = "db/L0_000009.sst".to_string();
    let (bytes, meta) = SSTableWriter::write(&path, &[(b"q".to_vec(), Some(b"r".to_vec()))], 0).ok().unwrap();
    store.disk.files.insert(path.clone(), bytes.clone());
    store.engine.install_table(&path, &bytes, meta).ok().unwrap();
    assert_eq!(store.engine.sstables().len(), 1);
    assert_eq!(store.engine.manifest().sstables.len(), 1);
    assert_eq!(store.get("q"), Some(b"r".to_vec()));
    // a file that does not open as a table is refused
    assert!(store.engine.install_table(&"bad".to_string(), &[0, 1], SSTableMeta {
        path: "bad".to_string(),
        entry_count: 0,
        min_key: Vec::new(),
        max_key: Vec::new(),
        level: 0,
    }).is_err());
    assert_eq!(store.engine.sstables().len(), 1);
    store.engine.remove_sstables(&vec![path.clone()]);
    assert_eq!(store.engine.sstables().len(), 0);
    assert_eq!(store.engine.manifest().sstables.len(), 0);
    assert_eq!(store.get("q"), None);
}

#[test]
fn store_log_recovery_stops_at_corrupt_entry() {
    let mut disk = Disk::default();
    disk.wal.extend(encode_wal(&WalEntry::Put { key: b"a".to_vec(), value: b"1".to_vec() }));
    disk.wal.extend(encode_frame(&[9, 9, 9, 9]));
    disk.wal.extend(encode_wal(&WalEntry::Put { key: b"b".to_vec(), value: b"2".to_vec() }));
    let store = Store::open_default(disk);
    assert_eq!(store.get("a"), Some(b"1".to_vec()));
    assert_eq!(store.get("b"), None);
    assert_eq!(
        recovered_entries(vec![Some(WalEntry::Delete { key: b"k".to_vec() }), None, Some(WalEntry::Delete { key: b"j".to_vec() })]),
        vec![WalEntry::Delete { key: b"k".to_vec() }]
    );
}

#[test]
fn store_open_refuses_a_table_file_that_does_not_open() {
    let manifest = Manifest {
        sstables: vec![SSTableMeta {
            path: "db/L0_000001.sst".to_string(),
            entry_count: 0,
            min_key: Vec::new(),
            max_key: Vec::new(),
            level: 0,
        }],
    };
    let r = Engine::open(KvStoreConfig::new("db".to_string()), manifest, vec![Some(vec![0, 1])], Vec::new(), &vec![1], Some(5));
    assert!(r.is_err());
}

#[test]
fn store_open_reads_tables_newest_first() {
    let mut disk = Disk::default();
    let tables = [
        ("db/L1_000001.sst", 1usize, vec![(b"a".to_vec(), Some(b"old".to_vec())), (b"b".to_vec(), Some(b"b".to_vec()))]),
        ("db/L0_000002.sst", 0, vec![(b"a".to_vec(), Some(b"new".to_vec()))]),
        ("db/L0_000003.sst", 0, vec![(b"b".to_vec(), None)]),
    ];
    for (path, level, entries) in tables.iter() {
        let (bytes, meta) = SSTableWriter::write(&path.to_string(), entries, *level).ok().unwrap();
        disk.files.insert(path.to_string(), bytes);
        disk.manifest.push(meta);
    }
    // a manifest entry whose file is missing is passed over
    disk.manifest.push(SSTableMeta {
        path: "db/L0_000004.sst".to_string(),
        entry_count: 1,
        min_key: b"c".to_vec(),
        max_key: b"c".to_vec(),
        level: 0,
    });
    let store = Store::open_default(disk);
    let paths: Vec<&str> = store.engine.sstables().iter().map(|r| r.path().as_str()).collect();
    assert_eq!(paths, vec!["db/L0_000003.sst", "db/L0_000002.sst", "db/L1_000001.sst"]);
    assert_eq!(store.engine.sstables()[2].meta.level, 1);
    assert_eq!(store.engine.sstables()[2].meta.entry_count, 2);
    assert_eq!(store.get("a"), Some(b"new".to_vec()));
    assert_eq!(store.get("b"), None);
    assert_eq!(store.list(), vec![(b"a".to_vec(), b"new".to_vec())]);
    // one table at a time: the newest decides b (deleted), the next a
    let files = store.files();
    assert_eq!(store.engine.get_from_table(0, b"b", &files[0]).ok().unwrap(), Some(None));
    assert_eq!(store.engine.get_from_table(0, b"a", &files[0]).ok().unwrap(), None);
    assert_eq!(store.engine.get_from_table(1, b"a", &files[1]).ok().unwrap(), Some(Some(b"new".to_vec())));
    assert_eq!(store.engine.get_from_table(2, b"a", &files[2]).ok().unwrap(), Some(Some(b"old".to_vec())));
    assert!(store.engine.get_from_table(2, b"a", &files[2][..4]).is_err());
}
