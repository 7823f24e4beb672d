use lsm_kv_store::memtable::MemTable;
use lsm_kv_store::wal::WalEntry;

#[test]
fn memtable_put_then_get() {
    let mut t = MemTable::new();
    t.put(b"k1".to_vec(), b"v1".to_vec());
    assert_eq!(t.get(b"k1"), Some(&Some(b"v1".to_vec())));
    assert_eq!(t.get(b"k2"), None);
    assert_eq!(t.len(), 1);
    assert!(!t.is_empty());
}

#[test]
fn memtable_overwrite_size_accounting() {
    let mut t = MemTable::new();
    t.put(b"key".to_vec(), b"value".to_vec());
    assert_eq!(t.approximate_size(), 8);
    // overwrite: the key stays counted once, the new value replaces the old
    t.put(b"key".to_vec(), b"v".to_vec());
    assert_eq!(t.approximate_size(), 3 + 1);
    assert_eq!(t.get(b"key"), Some(&Some(b"v".to_vec())));
    assert_eq!(t.len(), 1);
}

#[test]
fn memtable_delete_marks_tombstone() {
    let mut t = MemTable::new();
    t.put(b"a".to_vec(), b"123".to_vec());
    t.delete(b"a".to_vec());
    assert_eq!(t.get(b"a"), Some(&None));
    // the deleted value's bytes are gone, the key's remain
    assert_eq!(t.approximate_size(), 1);
    assert_eq!(t.len(), 1);
}

#[test]
fn memtable_delete_absent_key_counts_key() {
    let mut t = MemTable::new();
    t.delete(b"ghost".to_vec());
    assert_eq!(t.get(b"ghost"), Some(&None));
    assert_eq!(t.approximate_size(), 5);
}

#[test]
fn memtable_put_after_delete() {
    let mut t = MemTable::new();
    t.put(b"a".to_vec(), b"1".to_vec());
    t.delete(b"a".to_vec());
    t.put(b"a".to_vec(), b"22".to_vec());
    assert_eq!(t.get(b"a"), Some(&Some(b"22".to_vec())));
    // 2, then 1 (value gone), then the key plus the new value
    assert_eq!(t.approximate_size(), 1 + 2);
    assert_eq!(t.len(), 1);
}

#[test]
fn memtable_entries_sorted() {
    let mut t = MemTable::new();
    t.put(b"delta".to_vec(), b"4".to_vec());
    t.put(b"alpha".to_vec(), b"1".to_vec());
    t.put(b"charlie".to_vec(), b"3".to_vec());
    t.put(b"ab".to_vec(), b"0".to_vec());
    t.put(b"a".to_vec(), b"x".to_vec());
    let keys: Vec<Vec<u8>> = t.entries().iter().map(|(k, _)| k.clone()).collect();
    assert_eq!(
        keys,
        vec![b"a".to_vec(), b"ab".to_vec(), b"alpha".to_vec(), b"charlie".to_vec(), b"delta".to_vec()]
    );
}

#[test]
fn memtable_drain_resets() {
    let mut t = MemTable::new();
    t.put(b"b".to_vec(), b"2".to_vec());
    t.put(b"a".to_vec(), b"1".to_vec());
    t.delete(b"c".to_vec());
    let drained = t.drain();
    assert_eq!(
        drained,
        vec![
            (b"a".to_vec(), Some(b"1".to_vec())),
            (b"b".to_vec(), Some(b"2".to_vec())),
            (b"c".to_vec(), None),
        ]
    );
    assert!(t.is_empty());
    assert_eq!(t.len(), 0);
    assert_eq!(t.approximate_size(), 0);
}

#[test]
fn memtable_default_is_empty() {
    let t = MemTable::default();
    assert!(t.is_empty());
    assert_eq!(t.approximate_size(), 0);
}

#[test]
fn memtable_replay_log() {
    let t = MemTable::replay(vec![
        WalEntry::Put { key: b"a".to_vec(), value: b"1".to_vec() },
        WalEntry::Put { key: b"b".to_vec(), value: b"2".to_vec() },
        WalEntry::Delete { key: b"a".to_vec() },
        WalEntry::Put { key: b"b".to_vec(), value: b"33".to_vec() },
    ]);
    assert_eq!(t.get(b"a"), Some(&None));
    assert_eq!(t.get(b"b"), Some(&Some(b"33".to_vec())));
    // 2, 4, 3 (a's value gone), 3 - 1 + 2 (b's value replaced)
    assert_eq!(t.approximate_size(), 4);
}

#[test]
fn memtable_apply_entry() {
    let mut t = MemTable::new();
    t.apply(WalEntry::Put { key: b"x".to_vec(), value: b"y".to_vec() });
    assert_eq!(t.get(b"x"), Some(&Some(b"y".to_vec())));
    t.apply(WalEntry::Delete { key: b"x".to_vec() });
    assert_eq!(t.get(b"x"), Some(&None));
}

#[test]
fn memtable_overwrite_counts_bytes_held() {
    let mut m = MemTable::new();
    m.put(b"k".to_vec(), b"v1".to_vec());
    assert_eq!(m.approximate_size(), 3);
    m.put(b"k".to_vec(), b"v2".to_vec());
    assert_eq!(m.approximate_size(), 3);
    assert_eq!(m.len(), 1);
    assert_eq!(m.get(b"k"), Some(&Some(b"v2".to_vec())));
}

#[test]
fn memtable_put_over_tombstone_counts_bytes_held() {
    let mut m = MemTable::new();
    m.delete(b"k".to_vec());
    assert_eq!(m.approximate_size(), 1);
    m.put(b"k".to_vec(), b"v".to_vec());
    assert_eq!(m.approximate_size(), 2);
    assert_eq!(m.len(), 1);
    assert_eq!(m.get(b"k"), Some(&Some(b"v".to_vec())));
}

#[test]
fn memtable_size_is_bytes_of_entries() {
    let mut m = MemTable::new();
    m.put(b"alpha".to_vec(), b"1".to_vec());
    m.put(b"beta".to_vec(), b"22".to_vec());
    m.delete(b"alpha".to_vec());
    m.delete(b"gamma".to_vec());
    m.put(b"beta".to_vec(), b"333".to_vec());
    m.put(b"gamma".to_vec(), b"4444".to_vec());
    let held: usize = m
        .entries()
        .iter()
        .map(|(k, v)| k.len() + v.as_ref().map_or(0, |x| x.len()))
        .sum();
    assert_eq!(m.approximate_size(), held);
    assert_eq!(held, 5 + 4 + 3 + 5 + 4);
    // entry counts: a new key adds one, a held key none
    assert_eq!(m.len(), 3);
}
