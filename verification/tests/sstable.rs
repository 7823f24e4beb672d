use lsm_kv_store::error::KvError;
use lsm_kv_store::sstable::{Entry, SSTableReader, SSTableWriter};

fn sample_entries() -> Vec<Entry> {
    vec![
        (b"alpha".to_vec(), Some(b"1".to_vec())),
        (b"bravo".to_vec(), Some(b"2".to_vec())),
        (b"charlie".to_vec(), None), // tombstone
        (b"delta".to_vec(), Some(b"4".to_vec())),
    ]
}

fn write_table(name: &str, entries: &[Entry]) -> (String, Vec<u8>) {
    let path = name.to_string();
    let (bytes, _) = SSTableWriter::write(&path, entries, 0).ok().unwrap();
    (path, bytes)
}

#[test]
fn test_write_and_read_back() {
    let path = "test.sst".to_string();
    let entries = sample_entries();

    let (bytes, meta) = SSTableWriter::write(&path, &entries, 0).ok().unwrap();
    assert_eq!(meta.entry_count, 4);
    assert_eq!(meta.min_key, b"alpha");
    assert_eq!(meta.max_key, b"delta");
    assert_eq!(meta.level, 0);

    let reader = SSTableReader::open(&path, &bytes, 0).ok().unwrap();
    assert_eq!(reader.get(b"alpha", &bytes).ok().unwrap(), Some(Some(b"1".to_vec())));
    assert_eq!(reader.get(b"bravo", &bytes).ok().unwrap(), Some(Some(b"2".to_vec())));
    assert_eq!(reader.get(b"delta", &bytes).ok().unwrap(), Some(Some(b"4".to_vec())));
}

#[test]
fn test_point_lookup_miss() {
    let (path, bytes) = write_table("miss.sst", &sample_entries());
    let reader = SSTableReader::open(&path, &bytes, 0).ok().unwrap();

    assert_eq!(reader.get(b"nonexistent", &bytes).ok().unwrap(), None);
}

#[test]
fn test_tombstone_handling() {
    let (path, bytes) = write_table("tomb.sst", &sample_entries());
    let reader = SSTableReader::open(&path, &bytes, 0).ok().unwrap();

    assert_eq!(reader.get(b"charlie", &bytes).ok().unwrap(), Some(None));
}

#[test]
fn test_scan_all() {
    let entries = sample_entries();
    let (path, bytes) = write_table("scan.sst", &entries);
    let reader = SSTableReader::open(&path, &bytes, 0).ok().unwrap();

    let scanned = reader.scan_all(&bytes).ok().unwrap();
    assert_eq!(scanned, entries);
}

#[test]
fn test_multiple_sstables_newest_wins() {
    let old_entries = vec![(b"alpha".to_vec(), Some(b"old".to_vec()))];
    let (old_path, old_bytes) = write_table("old.sst", &old_entries);
    let old_reader = SSTableReader::open(&old_path, &old_bytes, 0).ok().unwrap();

    let new_entries = vec![(b"alpha".to_vec(), Some(b"new".to_vec()))];
    let (new_path, new_bytes) = write_table("new.sst", &new_entries);
    let new_reader = SSTableReader::open(&new_path, &new_bytes, 0).ok().unwrap();

    // Simulate engine read: check newest first.
    let readers = [(&new_reader, &new_bytes), (&old_reader, &old_bytes)];
    let mut result = None;
    for (reader, bytes) in &readers {
        if let Some(val) = reader.get(b"alpha", bytes).ok().unwrap() {
            result = Some(val);
            break;
        }
    }
    assert_eq!(result, Some(Some(b"new".to_vec())));
}

#[test]
fn sstable_layout_matches_bincode() {
    let entries = sample_entries();
    let (bytes, _) = SSTableWriter::write(&"t.sst".to_string(), &entries, 0).ok().unwrap();
    // data block: one frame per record
    let mut expected = Vec::new();
    let mut index: Vec<(Vec<u8>, u64)> = Vec::new();
    for (k, v) in &entries {
        index.push((k.clone(), expected.len() as u64));
        let rec = bincode::serialize(&(k.as_slice(), v)).unwrap();
        expected.extend((rec.len() as u32).to_le_bytes());
        expected.extend(rec);
    }
    let index_offset = expected.len() as u64;
    let idx = bincode::serialize(&index).unwrap();
    expected.extend((idx.len() as u32).to_le_bytes());
    expected.extend(idx);
    expected.extend(index_offset.to_le_bytes());
    assert_eq!(bytes, expected);
}

#[test]
fn sstable_empty_table() {
    let path = "empty.sst".to_string();
    let (bytes, meta) = SSTableWriter::write(&path, &[], 3).ok().unwrap();
    assert_eq!(meta.entry_count, 0);
    assert_eq!(meta.min_key, Vec::<u8>::new());
    assert_eq!(meta.max_key, Vec::<u8>::new());
    assert_eq!(meta.level, 3);
    let reader = SSTableReader::open(&path, &bytes, 3).ok().unwrap();
    assert_eq!(reader.meta().entry_count, 0);
    assert_eq!(reader.get(b"x", &bytes).ok().unwrap(), None);
    assert_eq!(reader.scan_all(&bytes).ok().unwrap(), Vec::<Entry>::new());
    assert_eq!(reader.path(), "empty.sst");
}

#[test]
fn sstable_open_meta_from_index() {
    let (path, bytes) = write_table("meta.sst", &sample_entries());
    let reader = SSTableReader::open(&path, &bytes, 2).ok().unwrap();
    assert_eq!(reader.meta.entry_count, 4);
    assert_eq!(reader.meta.min_key, b"alpha");
    assert_eq!(reader.meta.max_key, b"delta");
    assert_eq!(reader.meta.level, 2);
    assert_eq!(reader.meta.path, "meta.sst");
}

#[test]
fn sstable_open_short_file_is_io_error() {
    let r = SSTableReader::open(&"short.sst".to_string(), &[1, 2, 3], 0);
    assert!(matches!(r, Err(KvError::Io(_))));
}

#[test]
fn sstable_open_bad_footer_is_io_error() {
    let (path, mut bytes) = write_table("foot.sst", &sample_entries());
    let n = bytes.len();
    bytes[n - 8..].copy_from_slice(&(1_000_000u64).to_le_bytes());
    assert!(matches!(SSTableReader::open(&path, &bytes, 0), Err(KvError::Io(_))));
}

#[test]
fn sstable_open_bad_index_is_serialization_error() {
    // a frame of two bytes where the index should be: too short for its count
    let mut bytes = vec![2, 0, 0, 0, 9, 9];
    bytes.extend(0u64.to_le_bytes());
    assert!(matches!(
        SSTableReader::open(&"bad.sst".to_string(), &bytes, 0),
        Err(KvError::Serialization(_))
    ));
}

#[test]
fn sstable_get_from_truncated_file_is_io_error() {
    let (path, bytes) = write_table("trunc.sst", &sample_entries());
    let reader = SSTableReader::open(&path, &bytes, 0).ok().unwrap();
    assert!(matches!(reader.get(b"delta", &bytes[..10]), Err(KvError::Io(_))));
    assert!(matches!(reader.scan_all(&bytes[..10]), Err(KvError::Io(_))));
}

#[test]
fn sstable_get_malformed_record_is_serialization_error() {
    let (path, mut bytes) = write_table("bad_rec.sst", &sample_entries());
    let reader = SSTableReader::open(&path, &bytes, 0).ok().unwrap();
    // the first record's option tag: 4 (frame length) + 8 + 5 bytes of "alpha"
    bytes[4 + 8 + 5] = 7;
    assert!(matches!(reader.get(b"alpha", &bytes), Err(KvError::Serialization(_))));
    assert!(matches!(reader.scan_all(&bytes), Err(KvError::Serialization(_))));
}

#[test]
fn sstable_meta_duplicate() {
    let (_, meta) = SSTableWriter::write(&"d.sst".to_string(), &sample_entries(), 1).ok().unwrap();
    let copy = meta.duplicate();
    assert_eq!(copy.path, meta.path);
    assert_eq!(copy.min_key, meta.min_key);
    assert_eq!(copy.max_key, meta.max_key);
    assert_eq!(copy.entry_count, meta.entry_count);
    assert_eq!(copy.level, 1);
}

#[test]
fn sstable_reopened_meta_matches_written_but_for_level() {
    let path = "again.sst".to_string();
    let (bytes, written) = SSTableWriter::write(&path, &sample_entries(), 0).ok().unwrap();
    let reader = SSTableReader::open(&path, &bytes, 2).ok().unwrap();
    assert_eq!(reader.meta.path, written.path);
    assert_eq!(reader.meta.entry_count, written.entry_count);
    assert_eq!(reader.meta.min_key, written.min_key);
    assert_eq!(reader.meta.max_key, written.max_key);
    assert_eq!(reader.meta.level, 2);
}
