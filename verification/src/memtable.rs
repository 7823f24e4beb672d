//! The in-memory table: the newest writes, sorted by key, with tombstones
//! for deleted keys and a running count of the bytes it holds.
use crate::entries::{
    entries_view, held_bytes, lemma_held_bytes_insert, lemma_held_bytes_update, lemma_map_of_dom,
    lemma_map_of_insert, lemma_map_of_update, lemma_map_of_value, map_of, opt_bytes, search_entries,
    sorted, value_len, Entry, EntryView,
};
use crate::keys::{bytes_lt, lemma_bytes_lt_irreflexive};
use vstd::prelude::*;

verus! {

/// In-memory sorted key-value store.
///
/// Values are `Option<Vec<u8>>`: `Some(v)` for live entries, `None` for
/// tombstones (deleted keys). The engine flushes the table to a table
/// file when its approximate byte size reaches a configured threshold.
#[derive(Debug)]
pub struct MemTable {
    entries: Vec<Entry>,
    /// Approximate byte size of all keys + values held in the table.
    size: usize,
}

/// What a table holds: its entries in key order and its byte count.
pub struct MemTableView {
    pub entries: Seq<EntryView>,
    pub size: nat,
}

impl View for MemTable {
    type V = MemTableView;

    closed spec fn view(&self) -> MemTableView {
        MemTableView { entries: entries_view(self.entries@), size: self.size as nat }
    }
}

/// The bytes of the live value that a map holds for a key; zero where the
/// key is absent or deleted.
pub open spec fn held_value_len(m: Map<Seq<u8>, Option<Seq<u8>>>, key: Seq<u8>) -> nat {
    if m.contains_key(key) {
        value_len(m[key])
    } else {
        0
    }
}

/// The byte count after putting `value` under `key`: the key's bytes are
/// counted once, so a key already held only trades its old value for the
/// new one.
pub open spec fn size_after_put(m: Map<Seq<u8>, Option<Seq<u8>>>, size: int, key: Seq<u8>, value: Seq<u8>) -> int {
    if m.contains_key(key) {
        size - held_value_len(m, key) + value.len()
    } else {
        size + key.len() + value.len()
    }
}

/// The byte count after deleting `key`: a key already held loses its
/// value's bytes, a new key (a tombstone alone) adds its own.
pub open spec fn size_after_delete(m: Map<Seq<u8>, Option<Seq<u8>>>, size: int, key: Seq<u8>) -> int {
    if m.contains_key(key) {
        size - held_value_len(m, key)
    } else {
        size + key.len()
    }
}

impl MemTable {
    /// The table's entries are in strictly increasing key order, and its
    /// byte count is the bytes of the keys and values it holds.
    pub open spec fn wf(&self) -> bool {
        &&& sorted(self@.entries)
        &&& self@.size == held_bytes(self@.entries)
    }

    /// The map from keys to values (or tombstones) that the table holds.
    pub open spec fn map(&self) -> Map<Seq<u8>, Option<Seq<u8>>> {
        map_of(self@.entries)
    }

    /// Creates a new, empty `MemTable`.
    pub fn new() -> (t: Self)
        ensures
            t.wf(),
            t@.entries == Seq::<EntryView>::empty(),
            t@.size == 0,
    {
        let t = MemTable { entries: Vec::new(), size: 0 };
        assert(t@.entries =~= Seq::<EntryView>::empty());
        t
    }

    /// Inserts or overwrites a key-value pair. The byte count counts the
    /// key once: an overwrite trades the old value's bytes for the new.
    pub fn put(&mut self, key: Vec<u8>, value: Vec<u8>)
        requires
            old(self).wf(),
            size_after_put(old(self).map(), old(self)@.size as int, key@, value@) <= usize::MAX,
        ensures
            final(self).wf(),
            final(self).map() == old(self).map().insert(key@, Some(value@)),
            final(self)@.size == size_after_put(old(self).map(), old(self)@.size as int, key@, value@),
            final(self)@.entries.len() == old(self)@.entries.len() + if old(self).map().contains_key(key@) {
                0int
            } else {
                1int
            },
    {
        let ghost s = self@.entries;
        match search_entries(self.entries.as_slice(), key.as_slice()) {
            Ok(i) => {
                let removed = match &self.entries[i].1 {
                    Some(v) => v.len(),
                    None => 0,
                };
                let ghost e: EntryView = (key@, Some(value@));
                proof {
                    lemma_map_of_value(s, i as int);
                    lemma_held_bytes_update(s, i as int, (s[i as int].0, None));
                    lemma_held_bytes_update(s, i as int, e);
                    lemma_map_of_update(s, i as int, e);
                }
                let value_bytes = value.len();
                self.entries.set(i, (key, Some(value)));
                assert(self@.entries =~= s.update(i as int, e));
                self.size = self.size - removed + value_bytes;
            },
            Err(p) => {
                let ghost e: EntryView = (key@, Some(value@));
                proof {
                    lemma_map_of_dom(s, key@);
                    lemma_held_bytes_insert(s, p as int, e);
                    lemma_map_of_insert(s, p as int, e);
                    if map_of(s).contains_key(key@) {
                        let j = choose|j: int| 0 <= j < s.len() && #[trigger] s[j].0 == key@;
                        lemma_bytes_lt_irreflexive(key@);
                        if j < p {
                            assert(bytes_lt(s[j].0, key@));
                        } else {
                            assert(bytes_lt(key@, s[j].0));
                        }
                    }
                }
                let added = key.len() + value.len();
                self.entries.insert(p, (key, Some(value)));
                assert(self@.entries =~= s.insert(p as int, e));
                self.size = self.size + added;
            },
        }
    }

    /// Looks up a key. Returns:
    /// - `Some(Some(value))` — key exists with a value
    /// - `Some(None)` — key has been deleted (tombstone)
    /// - `None` — key not present in this memtable
    pub fn get(&self, key: &[u8]) -> (r: Option<&Option<Vec<u8>>>)
        requires
            self.wf(),
        ensures
            match r {
                Some(v) => self.map().contains_key(key@) && self.map()[key@] == opt_bytes(*v),
                None => !self.map().contains_key(key@),
            },
    {
        let ghost s = self@.entries;
        match search_entries(self.entries.as_slice(), key) {
            Ok(i) => {
                proof {
                    lemma_map_of_value(s, i as int);
                }
                Some(&self.entries[i].1)
            },
            Err(p) => {
                proof {
                    lemma_map_of_dom(s, key@);
                    if map_of(s).contains_key(key@) {
                        let j = choose|j: int| 0 <= j < s.len() && #[trigger] s[j].0 == key@;
                        lemma_bytes_lt_irreflexive(key@);
                        if j < p {
                            assert(bytes_lt(s[j].0, key@));
                        } else {
                            assert(bytes_lt(key@, s[j].0));
                        }
                    }
                }
                None
            },
        }
    }

    /// Marks a key as deleted by inserting a tombstone (`None` value). The
    /// byte count loses the bytes of the value deleted, or grows by the
    /// key where the key was not held.
    pub fn delete(&mut self, key: Vec<u8>)
        requires
            old(self).wf(),
            size_after_delete(old(self).map(), old(self)@.size as int, key@) <= usize::MAX,
        ensures
            final(self).wf(),
            final(self).map() == old(self).map().insert(key@, None),
            final(self)@.size == size_after_delete(old(self).map(), old(self)@.size as int, key@),
            final(self)@.entries.len() == old(self)@.entries.len() + if old(self).map().contains_key(key@) {
                0int
            } else {
                1int
            },
    {
        let ghost s = self@.entries;
        let key_len = key.len();
        let ghost e: EntryView = (key@, None);
        match search_entries(self.entries.as_slice(), key.as_slice()) {
            Ok(i) => {
                let removed = match &self.entries[i].1 {
                    Some(v) => v.len(),
                    None => 0,
                };
                proof {
                    lemma_map_of_value(s, i as int);
                    lemma_held_bytes_update(s, i as int, e);
                    lemma_map_of_update(s, i as int, e);
                }
                self.entries.set(i, (key, None));
                assert(self@.entries =~= s.update(i as int, e));
                self.size = self.size - removed;
            },
            Err(p) => {
                proof {
                    lemma_map_of_dom(s, key@);
                    lemma_held_bytes_insert(s, p as int, e);
                    lemma_map_of_insert(s, p as int, e);
                    if map_of(s).contains_key(key@) {
                        let j = choose|j: int| 0 <= j < s.len() && #[trigger] s[j].0 == key@;
                        lemma_bytes_lt_irreflexive(key@);
                        if j < p {
                            assert(bytes_lt(s[j].0, key@));
                        } else {
                            assert(bytes_lt(key@, s[j].0));
                        }
                    }
                }
                self.entries.insert(p, (key, None));
                assert(self@.entries =~= s.insert(p as int, e));
                self.size = self.size + key_len;
            },
        }
    }

    /// Returns `true` if the memtable contains no entries.
    pub fn is_empty(&self) -> (r: bool)
        ensures
            r == (self@.entries.len() == 0),
    {
        self.entries.len() == 0
    }

    /// Returns the number of entries (including tombstones).
    pub fn len(&self) -> (r: usize)
        ensures
            r == self@.entries.len(),
    {
        self.entries.len()
    }

    /// Returns the approximate byte size of all data held: the bytes of
    /// the keys and values of its entries.
    pub fn approximate_size(&self) -> (r: usize)
        requires
            self.wf(),
        ensures
            r == self@.size,
            r == held_bytes(self@.entries),
    {
        self.size
    }

    /// Returns all entries in sorted key order.
    pub fn entries(&self) -> (r: &[Entry])
        ensures
            entries_view(r@) == self@.entries,
    {
        self.entries.as_slice()
    }

    /// Drains all entries out of the memtable, resetting it to empty.
    /// Returns entries in sorted key order.
    pub fn drain(&mut self) -> (r: Vec<Entry>)
        requires
            old(self).wf(),
        ensures
            final(self).wf(),
            entries_view(r@) == old(self)@.entries,
            final(self)@.entries == Seq::<EntryView>::empty(),
            final(self)@.size == 0,
    {
        let mut out: Vec<Entry> = Vec::new();
        std::mem::swap(&mut out, &mut self.entries);
        self.size = 0;
        assert(self@.entries =~= Seq::<EntryView>::empty());
        out
    }
}

impl Default for MemTable {
    fn default() -> (t: Self)
        ensures
            t.wf(),
            t@.entries == Seq::<EntryView>::empty(),
            t@.size == 0,
    {
        Self::new()
    }
}

} // verus!
