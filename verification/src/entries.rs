//! Sorted runs of key/value entries, where a value of `None` is a
//! tombstone: the model that the in-memory table, the table files and the
//! merges of the engine share.
use crate::keys::{bytes_lt, compare_keys, lemma_bytes_lt_irreflexive, KeyOrder};
use vstd::prelude::*;

verus! {

/// A key with its value, or with `None` for a deleted key (a tombstone).
pub type Entry = (Vec<u8>, Option<Vec<u8>>);

/// An entry as plain bytes.
pub type EntryView = (Seq<u8>, Option<Seq<u8>>);

/// The bytes of an optional value.
pub open spec fn opt_bytes(v: Option<Vec<u8>>) -> Option<Seq<u8>> {
    match v {
        Some(x) => Some(x@),
        None => None,
    }
}

/// An entry as plain bytes.
pub open spec fn entry_view(e: Entry) -> EntryView {
    (e.0@, opt_bytes(e.1))
}

/// A run of entries as plain bytes.
pub open spec fn entries_view(s: Seq<Entry>) -> Seq<EntryView> {
    s.map_values(|e: Entry| entry_view(e))
}

/// The keys of the run are strictly increasing (so no key occurs twice).
pub open spec fn sorted(s: Seq<EntryView>) -> bool {
    forall|i: int, j: int| 0 <= i < j < s.len() ==> #[trigger] bytes_lt(s[i].0, s[j].0)
}

/// The map that a run stands for: entries later in the run take the
/// place of earlier entries with the same key.
pub open spec fn map_of(s: Seq<EntryView>) -> Map<Seq<u8>, Option<Seq<u8>>>
    decreases s.len(),
{
    if s.len() == 0 {
        Map::empty()
    } else {
        map_of(s.drop_last()).insert(s.last().0, s.last().1)
    }
}

/// The bytes that an entry holds: its key and its value, if it has one.
pub open spec fn entry_bytes(e: EntryView) -> nat {
    e.0.len() + value_len(e.1)
}

/// The bytes held by the keys and values of a run.
pub open spec fn held_bytes(s: Seq<EntryView>) -> nat
    decreases s.len(),
{
    if s.len() == 0 {
        0
    } else {
        held_bytes(s.drop_last()) + entry_bytes(s.last())
    }
}

/// The length of a value; zero for a tombstone.
pub open spec fn value_len(v: Option<Seq<u8>>) -> nat {
    match v {
        Some(x) => x.len(),
        None => 0,
    }
}

/// A key of the map is a key of some entry of the run.
pub proof fn lemma_map_of_dom(s: Seq<EntryView>, k: Seq<u8>)
    ensures
        map_of(s).contains_key(k) <==> exists|i: int| 0 <= i < s.len() && #[trigger] s[i].0 == k,
    decreases s.len(),
{
    if s.len() > 0 {
        lemma_map_of_dom(s.drop_last(), k);
        if map_of(s).contains_key(k) && s.last().0 != k {
            let i = choose|i: int| 0 <= i < s.drop_last().len() && #[trigger] s.drop_last()[i].0 == k;
            assert(s[i].0 == k);
        }
        if exists|i: int| 0 <= i < s.len() && #[trigger] s[i].0 == k {
            let i = choose|i: int| 0 <= i < s.len() && #[trigger] s[i].0 == k;
            if i < s.len() - 1 {
                assert(s.drop_last()[i].0 == k);
            }
        }
    }
}

/// In a sorted run, the map gives each key the value of its entry.
pub proof fn lemma_map_of_value(s: Seq<EntryView>, i: int)
    requires
        sorted(s),
        0 <= i < s.len(),
    ensures
        map_of(s).contains_key(s[i].0),
        map_of(s)[s[i].0] == s[i].1,
    decreases s.len(),
{
    if i < s.len() - 1 {
        let t = s.drop_last();
        assert(sorted(t)) by {
            assert forall|a: int, b: int| 0 <= a < b < t.len() implies #[trigger] bytes_lt(t[a].0, t[b].0) by {
                assert(bytes_lt(s[a].0, s[b].0));
            }
        }
        lemma_map_of_value(t, i);
        assert(bytes_lt(s[i].0, s[s.len() - 1].0));
        lemma_bytes_lt_irreflexive(s[i].0);
        assert(t[i] == s[i]);
    }
}

/// Dropping the last entry of a sorted run leaves a sorted run.
pub proof fn lemma_sorted_drop_last(s: Seq<EntryView>)
    requires
        sorted(s),
        s.len() > 0,
    ensures
        sorted(s.drop_last()),
{
    let t = s.drop_last();
    assert forall|a: int, b: int| 0 <= a < b < t.len() implies #[trigger] bytes_lt(t[a].0, t[b].0) by {
        assert(bytes_lt(s[a].0, s[b].0));
    }
}

/// In a sorted run, the map's entries are exactly the run's entries.
pub proof fn lemma_map_of_sorted(s: Seq<EntryView>, k: Seq<u8>)
    requires
        sorted(s),
    ensures
        map_of(s).contains_key(k) <==> exists|i: int| 0 <= i < s.len() && #[trigger] s[i].0 == k,
        forall|i: int| 0 <= i < s.len() && #[trigger] s[i].0 == k ==> map_of(s)[k] == s[i].1,
{
    lemma_map_of_dom(s, k);
    assert forall|i: int| 0 <= i < s.len() && #[trigger] s[i].0 == k implies map_of(s)[k] == s[i].1 by {
        lemma_map_of_value(s, i);
    }
}

/// Two sorted runs that give every key the same entry stand for the same map.
pub proof fn lemma_map_of_ext(s: Seq<EntryView>, m: Map<Seq<u8>, Option<Seq<u8>>>)
    requires
        sorted(s),
        forall|k: Seq<u8>| #[trigger] m.contains_key(k) <==> exists|i: int| 0 <= i < s.len() && #[trigger] s[i].0 == k,
        forall|i: int| 0 <= i < s.len() ==> m.contains_key(#[trigger] s[i].0) && m[s[i].0] == s[i].1,
    ensures
        map_of(s) == m,
{
    assert forall|k: Seq<u8>| #[trigger] map_of(s).contains_key(k) <==> m.contains_key(k) by {
        lemma_map_of_sorted(s, k);
    }
    assert forall|k: Seq<u8>| #[trigger] map_of(s).contains_key(k) implies map_of(s)[k] == m[k] by {
        lemma_map_of_sorted(s, k);
        let i = choose|i: int| 0 <= i < s.len() && #[trigger] s[i].0 == k;
    }
    assert(map_of(s) =~= m);
}


/// Giving an entry of a sorted run a new value keeps the run sorted and
/// updates its map at that key.
pub proof fn lemma_map_of_update(s: Seq<EntryView>, i: int, e: EntryView)
    requires
        sorted(s),
        0 <= i < s.len(),
        e.0 == s[i].0,
    ensures
        sorted(s.update(i, e)),
        map_of(s.update(i, e)) == map_of(s).insert(e.0, e.1),
{
    let t = s.update(i, e);
    let m = map_of(s).insert(e.0, e.1);
    assert forall|a: int, b: int| 0 <= a < b < t.len() implies #[trigger] bytes_lt(t[a].0, t[b].0) by {
        assert(bytes_lt(s[a].0, s[b].0));
    }
    assert forall|k: Seq<u8>| #[trigger] m.contains_key(k) <==> exists|j: int| 0 <= j < t.len() && #[trigger] t[j].0 == k by {
        lemma_map_of_sorted(s, k);
        if k == e.0 {
            assert(t[i].0 == k);
        } else if m.contains_key(k) {
            let j = choose|j: int| 0 <= j < s.len() && #[trigger] s[j].0 == k;
            assert(t[j].0 == k);
        } else if exists|j: int| 0 <= j < t.len() && #[trigger] t[j].0 == k {
            let j = choose|j: int| 0 <= j < t.len() && #[trigger] t[j].0 == k;
            assert(s[j].0 == k);
        }
    }
    assert forall|j: int| 0 <= j < t.len() implies m.contains_key(#[trigger] t[j].0) && m[t[j].0] == t[j].1 by {
        if j != i {
            lemma_map_of_value(s, j);
            if j < i {
                assert(bytes_lt(s[j].0, s[i].0));
            } else {
                assert(bytes_lt(s[i].0, s[j].0));
            }
            lemma_bytes_lt_irreflexive(s[i].0);
        }
    }
    lemma_map_of_ext(t, m);
}

/// Inserting an entry at the place where its key belongs keeps a run
/// sorted and adds the entry to its map.
pub proof fn lemma_map_of_insert(s: Seq<EntryView>, p: int, e: EntryView)
    requires
        sorted(s),
        0 <= p <= s.len(),
        forall|j: int| 0 <= j < p ==> #[trigger] bytes_lt(s[j].0, e.0),
        forall|j: int| p <= j < s.len() ==> #[trigger] bytes_lt(e.0, s[j].0),
    ensures
        sorted(s.insert(p, e)),
        map_of(s.insert(p, e)) == map_of(s).insert(e.0, e.1),
{
    let t = s.insert(p, e);
    let m = map_of(s).insert(e.0, e.1);
    assert forall|a: int, b: int| 0 <= a < b < t.len() implies #[trigger] bytes_lt(t[a].0, t[b].0) by {
        if a < p && b < p {
            assert(bytes_lt(s[a].0, s[b].0));
        } else if a < p && b == p {
        } else if a < p {
            assert(bytes_lt(s[a].0, s[b - 1].0));
        } else if a == p {
            assert(bytes_lt(e.0, s[b - 1].0));
        } else {
            assert(bytes_lt(s[a - 1].0, s[b - 1].0));
        }
    }
    assert forall|k: Seq<u8>| #[trigger] m.contains_key(k) <==> exists|j: int| 0 <= j < t.len() && #[trigger] t[j].0 == k by {
        lemma_map_of_sorted(s, k);
        if k == e.0 {
            assert(t[p].0 == k);
        } else if m.contains_key(k) {
            let j = choose|j: int| 0 <= j < s.len() && #[trigger] s[j].0 == k;
            if j < p {
                assert(t[j].0 == k);
            } else {
                assert(t[j + 1].0 == k);
            }
        } else if exists|j: int| 0 <= j < t.len() && #[trigger] t[j].0 == k {
            let j = choose|j: int| 0 <= j < t.len() && #[trigger] t[j].0 == k;
            if j < p {
                assert(s[j].0 == k);
            } else {
                assert(s[j - 1].0 == k);
            }
        }
    }
    assert forall|j: int| 0 <= j < t.len() implies m.contains_key(#[trigger] t[j].0) && m[t[j].0] == t[j].1 by {
        if j != p {
            let jj = if j < p { j } else { j - 1 };
            assert(t[j] == s[jj]);
            lemma_map_of_value(s, jj);
            lemma_bytes_lt_irreflexive(e.0);
        }
    }
    lemma_map_of_ext(t, m);
}

/// Replacing an entry changes the bytes held by the difference of the two
/// entries.
pub proof fn lemma_held_bytes_update(s: Seq<EntryView>, i: int, e: EntryView)
    requires
        0 <= i < s.len(),
    ensures
        held_bytes(s.update(i, e)) + entry_bytes(s[i]) == held_bytes(s) + entry_bytes(e),
    decreases s.len(),
{
    if i < s.len() - 1 {
        assert(s.update(i, e).drop_last() =~= s.drop_last().update(i, e));
        lemma_held_bytes_update(s.drop_last(), i, e);
    } else {
        assert(s.update(i, e).drop_last() =~= s.drop_last());
    }
}

/// Inserting an entry adds its bytes to the bytes held.
pub proof fn lemma_held_bytes_insert(s: Seq<EntryView>, p: int, e: EntryView)
    requires
        0 <= p <= s.len(),
    ensures
        held_bytes(s.insert(p, e)) == held_bytes(s) + entry_bytes(e),
    decreases s.len(),
{
    if p < s.len() {
        assert(s.insert(p, e).drop_last() =~= s.drop_last().insert(p, e));
        lemma_held_bytes_insert(s.drop_last(), p, e);
    } else {
        assert(s.insert(p, e).drop_last() =~= s);
    }
}

/// Where a key would sit in a sorted run.
pub open spec fn search_result(s: Seq<EntryView>, key: Seq<u8>, r: Result<usize, usize>) -> bool {
    match r {
        Ok(i) => i < s.len() && s[i as int].0 == key,
        Err(p) => p <= s.len() && (forall|j: int| 0 <= j < p ==> #[trigger] bytes_lt(s[j].0, key))
            && (forall|j: int| p <= j < s.len() ==> #[trigger] bytes_lt(key, s[j].0)),
    }
}

/// Binary search of a sorted run for a key: `Ok` with the entry's position
/// when the key is present, else `Err` with the position where it belongs.
pub fn search_entries(entries: &[Entry], key: &[u8]) -> (r: Result<usize, usize>)
    requires
        sorted(entries_view(entries@)),
    ensures
        search_result(entries_view(entries@), key@, r),
{
    let ghost s = entries_view(entries@);
    let mut lo: usize = 0;
    let mut hi: usize = entries.len();
    while lo < hi
        invariant
            s == entries_view(entries@),
            sorted(s),
            s.len() == entries@.len(),
            lo <= hi <= entries@.len(),
            forall|j: int| 0 <= j < lo ==> #[trigger] bytes_lt(s[j].0, key@),
            forall|j: int| hi <= j < s.len() ==> #[trigger] bytes_lt(key@, s[j].0),
        decreases hi - lo,
    {
        let mid = lo + (hi - lo) / 2;
        let c = compare_keys(entries[mid].0.as_slice(), key);
        assert(s[mid as int].0 == entries@[mid as int].0@);
        match c {
            KeyOrder::Equal => {
                return Ok(mid);
            },
            KeyOrder::Less => {
                proof {
                    assert forall|j: int| 0 <= j < mid + 1 implies #[trigger] bytes_lt(s[j].0, key@) by {
                        if j < mid {
                            crate::keys::lemma_bytes_lt_transitive(s[j].0, s[mid as int].0, key@);
                        }
                    }
                }
                lo = mid + 1;
            },
            KeyOrder::Greater => {
                proof {
                    assert forall|j: int| mid <= j < s.len() implies #[trigger] bytes_lt(key@, s[j].0) by {
                        if j > mid {
                            crate::keys::lemma_bytes_lt_transitive(key@, s[mid as int].0, s[j].0);
                        }
                    }
                }
                hi = mid;
            },
        }
    }
    Err(lo)
}

/// Puts an entry into a sorted run, in place of an entry with the same key.
pub fn insert_entry(run: &mut Vec<Entry>, e: Entry)
    requires
        sorted(entries_view(old(run)@)),
    ensures
        sorted(entries_view(final(run)@)),
        map_of(entries_view(final(run)@)) == map_of(entries_view(old(run)@)).insert(e.0@, opt_bytes(e.1)),
{
    let ghost s = entries_view(run@);
    let ghost ev = entry_view(e);
    match search_entries(run.as_slice(), e.0.as_slice()) {
        Ok(i) => {
            proof {
                lemma_map_of_update(s, i as int, ev);
            }
            run.set(i, e);
            assert(entries_view(run@) =~= s.update(i as int, ev));
        },
        Err(p) => {
            proof {
                lemma_map_of_insert(s, p as int, ev);
            }
            run.insert(p, e);
            assert(entries_view(run@) =~= s.insert(p as int, ev));
        },
    }
}

/// The live entries of a run, as (key, value) pairs, in run order.
pub open spec fn live_pairs(s: Seq<EntryView>) -> Seq<(Seq<u8>, Seq<u8>)>
    decreases s.len(),
{
    if s.len() == 0 {
        Seq::empty()
    } else {
        match s.last().1 {
            Some(v) => live_pairs(s.drop_last()).push((s.last().0, v)),
            None => live_pairs(s.drop_last()),
        }
    }
}

/// The entries of a run that are not tombstones, in run order.
pub open spec fn without_tombstones(s: Seq<EntryView>) -> Seq<EntryView>
    decreases s.len(),
{
    if s.len() == 0 {
        Seq::empty()
    } else {
        match s.last().1 {
            Some(_) => without_tombstones(s.drop_last()).push(s.last()),
            None => without_tombstones(s.drop_last()),
        }
    }
}

/// The live (key, value) pairs of a run, in run order.
pub fn collect_live(run: Vec<Entry>) -> (r: Vec<(Vec<u8>, Vec<u8>)>)
    ensures
        r@.map_values(|p: (Vec<u8>, Vec<u8>)| (p.0@, p.1@)) == live_pairs(entries_view(run@)),
{
    let ghost s = entries_view(run@);
    let mut out: Vec<(Vec<u8>, Vec<u8>)> = Vec::new();
    proof {
        assert(s.take(0) =~= Seq::<EntryView>::empty());
        assert(out@.map_values(|p: (Vec<u8>, Vec<u8>)| (p.0@, p.1@)) =~= Seq::<(Seq<u8>, Seq<u8>)>::empty());
    }
    for e in it: run
        invariant
            s == entries_view(it.seq()),
            out@.map_values(|p: (Vec<u8>, Vec<u8>)| (p.0@, p.1@)) == live_pairs(s.take(it.index() as int)),
    {
        let ghost i = it.index() as int;
        let ghost before = out@.map_values(|p: (Vec<u8>, Vec<u8>)| (p.0@, p.1@));
        proof {
            assert(s.take(i + 1).drop_last() =~= s.take(i));
            assert(s.take(i + 1).last() == entry_view(e));
        }
        let (k, v) = e;
        match v {
            Some(val) => {
                out.push((k, val));
                assert(out@.map_values(|p: (Vec<u8>, Vec<u8>)| (p.0@, p.1@)) =~= before.push((k@, val@)));
            },
            None => {},
        }
    }
    proof {
        assert(s.take(s.len() as int) =~= s);
    }
    out
}

/// The entries of a run that are not tombstones, in run order.
pub fn drop_tombstones(run: Vec<Entry>) -> (r: Vec<Entry>)
    ensures
        entries_view(r@) == without_tombstones(entries_view(run@)),
{
    let ghost s = entries_view(run@);
    let mut out: Vec<Entry> = Vec::new();
    proof {
        assert(s.take(0) =~= Seq::<EntryView>::empty());
        assert(entries_view(out@) =~= Seq::<EntryView>::empty());
    }
    for e in it: run
        invariant
            s == entries_view(it.seq()),
            entries_view(out@) == without_tombstones(s.take(it.index() as int)),
    {
        let ghost i = it.index() as int;
        let ghost before = entries_view(out@);
        proof {
            assert(s.take(i + 1).drop_last() =~= s.take(i));
            assert(s.take(i + 1).last() == entry_view(e));
        }
        if e.1.is_some() {
            let ghost ev = entry_view(e);
            out.push(e);
            assert(entries_view(out@) =~= before.push(ev));
        }
    }
    proof {
        assert(s.take(s.len() as int) =~= s);
    }
    out
}

/// A listing of the live entries of a map: strictly increasing keys, each
/// with the value the map holds, and every live key of the map present.
pub open spec fn live_listing(v: Seq<(Seq<u8>, Seq<u8>)>, m: Map<Seq<u8>, Option<Seq<u8>>>) -> bool {
    &&& forall|i: int, j: int| 0 <= i < j < v.len() ==> #[trigger] bytes_lt(v[i].0, v[j].0)
    &&& forall|i: int| 0 <= i < v.len() ==> m.contains_key(#[trigger] v[i].0) && m[v[i].0] == Some(v[i].1)
    &&& forall|k: Seq<u8>| #[trigger] m.contains_key(k) && m[k] is Some ==> exists|i: int| 0 <= i < v.len() && #[trigger] v[i].0 == k
}

/// The live pairs of a sorted run list its map's live entries.
pub proof fn lemma_live_pairs(s: Seq<EntryView>)
    requires
        sorted(s),
    ensures
        live_listing(live_pairs(s), map_of(s)),
        forall|i: int| 0 <= i < live_pairs(s).len() ==> exists|j: int| 0 <= j < s.len() && #[trigger] s[j].0 == (#[trigger] live_pairs(s)[i]).0,
    decreases s.len(),
{
    if s.len() > 0 {
        let t = s.drop_last();
        lemma_sorted_drop_last(s);
        lemma_live_pairs(t);
        let v = live_pairs(s);
        let vt = live_pairs(t);
        let last = s.last();
        let m = map_of(s);
        // keys of the earlier pairs come before the last key
        assert forall|i: int| 0 <= i < vt.len() implies #[trigger] bytes_lt(vt[i].0, last.0) by {
            let j = choose|j: int| 0 <= j < t.len() && #[trigger] t[j].0 == vt[i].0;
            assert(bytes_lt(s[j].0, s[s.len() - 1].0));
        }
        assert forall|i: int| 0 <= i < vt.len() implies #[trigger] vt[i].0 != last.0 by {
            lemma_bytes_lt_irreflexive(last.0);
            assert(bytes_lt(vt[i].0, last.0));
        }
        match last.1 {
            Some(x) => {
                assert(v == vt.push((last.0, x)));
                assert forall|i: int| 0 <= i < v.len() implies exists|j: int| 0 <= j < s.len() && #[trigger] s[j].0 == (#[trigger] v[i]).0 by {
                    if i < vt.len() {
                        let j = choose|j: int| 0 <= j < t.len() && #[trigger] t[j].0 == vt[i].0;
                        assert(s[j].0 == v[i].0);
                    } else {
                        assert(s[s.len() - 1].0 == v[i].0);
                    }
                }
                assert forall|i: int, j: int| 0 <= i < j < v.len() implies #[trigger] bytes_lt(v[i].0, v[j].0) by {
                    if j < vt.len() {
                        assert(bytes_lt(vt[i].0, vt[j].0));
                    } else {
                        assert(bytes_lt(vt[i].0, last.0));
                    }
                }
                assert forall|i: int| 0 <= i < v.len() implies m.contains_key(#[trigger] v[i].0) && m[v[i].0] == Some(v[i].1) by {
                    if i < vt.len() {
                        assert(vt[i].0 != last.0);
                    }
                }
                assert forall|k: Seq<u8>| #[trigger] m.contains_key(k) && m[k] is Some implies exists|i: int| 0 <= i < v.len() && #[trigger] v[i].0 == k by {
                    if k == last.0 {
                        assert(v[v.len() - 1].0 == k);
                    } else {
                        assert(map_of(t).contains_key(k) && map_of(t)[k] is Some);
                        let i = choose|i: int| 0 <= i < vt.len() && #[trigger] vt[i].0 == k;
                        assert(v[i].0 == k);
                    }
                }
            },
            None => {
                assert(v == vt);
                assert forall|i: int| 0 <= i < v.len() implies exists|j: int| 0 <= j < s.len() && #[trigger] s[j].0 == (#[trigger] v[i]).0 by {
                    let j = choose|j: int| 0 <= j < t.len() && #[trigger] t[j].0 == vt[i].0;
                    assert(s[j].0 == v[i].0);
                }
                assert forall|i: int| 0 <= i < v.len() implies m.contains_key(#[trigger] v[i].0) && m[v[i].0] == Some(v[i].1) by {
                    assert(vt[i].0 != last.0);
                }
                assert forall|k: Seq<u8>| #[trigger] m.contains_key(k) && m[k] is Some implies exists|i: int| 0 <= i < v.len() && #[trigger] v[i].0 == k by {
                    assert(k != last.0);
                    assert(map_of(t).contains_key(k) && map_of(t)[k] is Some);
                }
            },
        }
    }
}

/// The live entries of a map.
pub open spec fn live_only(m: Map<Seq<u8>, Option<Seq<u8>>>) -> Map<Seq<u8>, Option<Seq<u8>>> {
    m.restrict(m.dom().filter(|k: Seq<u8>| m[k] is Some))
}

/// Dropping the tombstones of a sorted run leaves a sorted run of the
/// map's live entries.
pub proof fn lemma_without_tombstones(s: Seq<EntryView>)
    requires
        sorted(s),
    ensures
        sorted(without_tombstones(s)),
        map_of(without_tombstones(s)) == live_only(map_of(s)),
        forall|i: int| 0 <= i < without_tombstones(s).len() ==> exists|j: int| 0 <= j < s.len() && #[trigger] s[j].0 == (#[trigger] without_tombstones(s)[i]).0,
    decreases s.len(),
{
    if s.len() > 0 {
        let t = s.drop_last();
        lemma_sorted_drop_last(s);
        lemma_without_tombstones(t);
        let w = without_tombstones(s);
        let wt = without_tombstones(t);
        let last = s.last();
        assert forall|i: int| 0 <= i < wt.len() implies #[trigger] bytes_lt(wt[i].0, last.0) by {
            let j = choose|j: int| 0 <= j < t.len() && #[trigger] t[j].0 == wt[i].0;
            assert(bytes_lt(s[j].0, s[s.len() - 1].0));
        }
        match last.1 {
            Some(_) => {
                assert(w == wt.push(last));
                assert forall|a: int, b: int| 0 <= a < b < w.len() implies #[trigger] bytes_lt(w[a].0, w[b].0) by {
                    if b < wt.len() {
                        assert(bytes_lt(wt[a].0, wt[b].0));
                    } else {
                        assert(bytes_lt(wt[a].0, last.0));
                    }
                }
                assert forall|i: int| 0 <= i < w.len() implies exists|j: int| 0 <= j < s.len() && #[trigger] s[j].0 == (#[trigger] w[i]).0 by {
                    if i < wt.len() {
                        let j = choose|j: int| 0 <= j < t.len() && #[trigger] t[j].0 == wt[i].0;
                        assert(s[j].0 == w[i].0);
                    } else {
                        assert(s[s.len() - 1].0 == w[i].0);
                    }
                }
            },
            None => {
                assert(w == wt);
                assert forall|i: int| 0 <= i < w.len() implies exists|j: int| 0 <= j < s.len() && #[trigger] s[j].0 == (#[trigger] w[i]).0 by {
                    let j = choose|j: int| 0 <= j < t.len() && #[trigger] t[j].0 == wt[i].0;
                    assert(s[j].0 == w[i].0);
                }
            },
        }
        lemma_map_of_dom(t, last.0);
        if map_of(t).contains_key(last.0) {
            let j = choose|j: int| 0 <= j < t.len() && #[trigger] t[j].0 == last.0;
            assert(bytes_lt(s[j].0, s[s.len() - 1].0));
            lemma_bytes_lt_irreflexive(last.0);
        }
        let lm = live_only(map_of(s));
        let lt = live_only(map_of(t));
        assert(map_of(wt) == lt);
        if last.1 is Some {
            assert(w.drop_last() =~= wt);
            assert(map_of(w) == lt.insert(last.0, last.1));
        } else {
            assert(map_of(w) == lt);
        }
        assert forall|k: Seq<u8>| #[trigger] map_of(w).contains_key(k) <==> lm.contains_key(k) by {
            assert(lm.contains_key(k) <==> (map_of(s).contains_key(k) && map_of(s)[k] is Some));
            assert(lt.contains_key(k) <==> (map_of(t).contains_key(k) && map_of(t)[k] is Some));
        }
        assert forall|k: Seq<u8>| #[trigger] map_of(w).contains_key(k) implies map_of(w)[k] == lm[k] by {
            assert(lm.contains_key(k) <==> (map_of(s).contains_key(k) && map_of(s)[k] is Some));
            assert(lt.contains_key(k) <==> (map_of(t).contains_key(k) && map_of(t)[k] is Some));
        }
        assert(map_of(w) =~= live_only(map_of(s)));
    } else {
        assert(map_of(without_tombstones(s)) =~= live_only(map_of(s)));
    }
}

/// The map of two runs one after the other: the second's entries over the
/// first's.
pub proof fn lemma_map_of_concat(a: Seq<EntryView>, b: Seq<EntryView>)
    ensures
        map_of(a + b) == map_of(a).union_prefer_right(map_of(b)),
    decreases b.len(),
{
    if b.len() == 0 {
        assert(a + b =~= a);
        assert(map_of(a).union_prefer_right(map_of(b)) =~= map_of(a));
    } else {
        lemma_map_of_concat(a, b.drop_last());
        assert((a + b).drop_last() =~= a + b.drop_last());
        assert((a + b).last() == b.last());
        assert(map_of(a + b) =~= map_of(a).union_prefer_right(map_of(b)));
    }
}

} // verus!
