//! The write-ahead log: its entries, and replaying them into a memtable.
//!
//! Each entry is stored as a frame (see `frame`) whose payload is the
//! entry's `bincode` encoding; recovery reads the complete frames and stops
//! at the first that a crash cut short or that does not decode.
use crate::memtable::{size_after_delete, size_after_put, MemTable};
use vstd::prelude::*;

verus! {

/// A single entry in the write-ahead log.
#[derive(Debug, Clone, PartialEq)]
pub enum WalEntry {
    Put { key: Vec<u8>, value: Vec<u8> },
    Delete { key: Vec<u8> },
}

/// A log entry as plain bytes.
pub enum WalOp {
    Put(Seq<u8>, Seq<u8>),
    Delete(Seq<u8>),
}

impl View for WalEntry {
    type V = WalOp;

    open spec fn view(&self) -> WalOp {
        match self {
            WalEntry::Put { key, value } => WalOp::Put(key@, value@),
            WalEntry::Delete { key } => WalOp::Delete(key@),
        }
    }
}

/// The map and byte count of a memtable after one more logged operation,
/// as `MemTable::put` and `MemTable::delete` change them.
pub open spec fn apply_op(m: Map<Seq<u8>, Option<Seq<u8>>>, size: int, op: WalOp) -> (Map<Seq<u8>, Option<Seq<u8>>>, int) {
    match op {
        WalOp::Put(k, v) => (m.insert(k, Some(v)), size_after_put(m, size, k, v)),
        WalOp::Delete(k) => (m.insert(k, None), size_after_delete(m, size, k)),
    }
}

/// The map and byte count after a run of logged operations.
pub open spec fn apply_ops(m: Map<Seq<u8>, Option<Seq<u8>>>, size: int, ops: Seq<WalOp>) -> (Map<Seq<u8>, Option<Seq<u8>>>, int)
    decreases ops.len(),
{
    if ops.len() == 0 {
        (m, size)
    } else {
        let (m1, s1) = apply_ops(m, size, ops.drop_last());
        apply_op(m1, s1, ops.last())
    }
}

/// The key and value bytes that a run of operations carries: a bound on
/// what replaying it adds to a byte count.
pub open spec fn ops_bytes(ops: Seq<WalOp>) -> nat
    decreases ops.len(),
{
    if ops.len() == 0 {
        0
    } else {
        ops_bytes(ops.drop_last()) + match ops.last() {
            WalOp::Put(k, v) => k.len() + v.len(),
            WalOp::Delete(k) => k.len(),
        }
    }
}

/// The operations of a run of log entries.
pub open spec fn wal_ops(entries: Seq<WalEntry>) -> Seq<WalOp> {
    entries.map_values(|e: WalEntry| e@)
}

/// Replaying operations grows a byte count by at most the bytes they carry.
proof fn lemma_apply_ops_bound(m: Map<Seq<u8>, Option<Seq<u8>>>, size: int, ops: Seq<WalOp>)
    requires
        size >= 0,
    ensures
        apply_ops(m, size, ops).1 <= size + ops_bytes(ops),
    decreases ops.len(),
{
    if ops.len() > 0 {
        lemma_apply_ops_bound(m, size, ops.drop_last());
    }
}

/// The entries before the first log entry that did not decode (`None`).
pub open spec fn decoded_prefix(decoded: Seq<Option<WalEntry>>) -> Seq<WalEntry>
    decreases decoded.len(),
{
    if decoded.len() == 0 {
        Seq::empty()
    } else {
        match decoded[0] {
            Some(e) => seq![e] + decoded_prefix(decoded.drop_first()),
            None => Seq::empty(),
        }
    }
}

/// Recovery keeps the decoded entries in log order up to the first payload
/// that did not decode: the `i`-th entry kept is the `i`-th payload's, and
/// the payload right after the kept ones, if any, did not decode.
pub proof fn lemma_decoded_prefix(decoded: Seq<Option<WalEntry>>)
    ensures
        decoded_prefix(decoded).len() <= decoded.len(),
        forall|i: int| 0 <= i < decoded_prefix(decoded).len() ==> decoded[i] == Some(#[trigger] decoded_prefix(decoded)[i]),
        decoded_prefix(decoded).len() < decoded.len() ==> decoded[decoded_prefix(decoded).len() as int] is None,
    decreases decoded.len(),
{
    if decoded.len() > 0 {
        let t = decoded.drop_first();
        lemma_decoded_prefix(t);
        match decoded[0] {
            Some(e) => {
                let p = decoded_prefix(decoded);
                assert(p == seq![e] + decoded_prefix(t));
                assert forall|i: int| 0 <= i < p.len() implies decoded[i] == Some(#[trigger] p[i]) by {
                    if i > 0 {
                        assert(p[i] == decoded_prefix(t)[i - 1]);
                        assert(decoded[i] == t[i - 1]);
                    }
                }
                if p.len() < decoded.len() {
                    assert(decoded[p.len() as int] == t[decoded_prefix(t).len() as int]);
                }
            },
            None => {},
        }
    }
}

/// The entries that recovery keeps from the decoded payloads of the log's
/// complete frames: those before the first payload that did not decode
/// (a corrupted entry ends recovery).
pub fn recovered_entries(decoded: Vec<Option<WalEntry>>) -> (r: Vec<WalEntry>)
    ensures
        r@ == decoded_prefix(decoded@),
        r@.len() <= decoded@.len(),
        forall|i: int| 0 <= i < r@.len() ==> decoded@[i] == Some(#[trigger] r@[i]),
        r@.len() < decoded@.len() ==> decoded@[r@.len() as int] is None,
{
    proof {
        lemma_decoded_prefix(decoded@);
    }
    let ghost all = decoded@;
    let mut out: Vec<WalEntry> = Vec::new();
    proof {
        assert(all.skip(0) =~= all);
    }
    for d in it: decoded
        invariant
            all == it.seq(),
            all == decoded@,
            out@ + decoded_prefix(all.skip(it.index() as int)) == decoded_prefix(all),
    {
        let ghost i = it.index() as int;
        proof {
            assert(all.skip(i).drop_first() =~= all.skip(i + 1));
            assert(all.skip(i)[0] == d);
        }
        match d {
            Some(e) => {
                let ghost before = out@;
                out.push(e);
                assert(before + (seq![e] + decoded_prefix(all.skip(i + 1))) =~= out@ + decoded_prefix(all.skip(i + 1)));
            },
            None => {
                assert(out@ + Seq::<WalEntry>::empty() =~= out@);
                proof {
                    lemma_decoded_prefix(all);
                }
                return out;
            },
        }
    }
    proof {
        assert(decoded_prefix(all.skip(all.len() as int)) == Seq::<WalEntry>::empty());
        assert(out@ + Seq::<WalEntry>::empty() =~= out@);
    }
    out
}

impl MemTable {
    /// Applies one log entry: a put or a delete.
    pub fn apply(&mut self, entry: WalEntry)
        requires
            old(self).wf(),
            apply_op(old(self).map(), old(self)@.size as int, entry@).1 <= usize::MAX,
        ensures
            final(self).wf(),
            (final(self).map(), final(self)@.size as int) == apply_op(old(self).map(), old(self)@.size as int, entry@),
            match entry@ {
                WalOp::Put(k, v) => final(self).map() == old(self).map().insert(k, Some(v)),
                WalOp::Delete(k) => final(self).map() == old(self).map().insert(k, None),
            },
    {
        match entry {
            WalEntry::Put { key, value } => self.put(key, value),
            WalEntry::Delete { key } => self.delete(key),
        }
    }

    /// Rebuilds a memtable from the entries recovered from the log, in log
    /// order.
    pub fn replay(entries: Vec<WalEntry>) -> (t: MemTable)
        requires
            ops_bytes(wal_ops(entries@)) <= usize::MAX,
        ensures
            t.wf(),
            (t.map(), t@.size as int) == apply_ops(Map::empty(), 0, wal_ops(entries@)),
    {
        let mut t = MemTable::new();
        let ghost ops = wal_ops(entries@);
        proof {
            assert(t.map() =~= Map::<Seq<u8>, Option<Seq<u8>>>::empty());
            assert(ops.take(0) =~= Seq::<WalOp>::empty());
        }
        for entry in it: entries
            invariant
                ops == wal_ops(it.seq()),
                ops_bytes(ops) <= usize::MAX,
                t.wf(),
                (t.map(), t@.size as int) == apply_ops(Map::empty(), 0, ops.take(it.index() as int)),
        {
            let ghost i = it.index() as int;
            proof {
                assert(ops.take(i + 1).drop_last() =~= ops.take(i));
                assert(ops.take(i + 1).last() == entry@);
                lemma_ops_bytes_prefix(ops, i + 1);
                lemma_apply_ops_bound(Map::empty(), 0, ops.take(i + 1));
            }
            t.apply(entry);
        }
        proof {
            assert(ops.take(ops.len() as int) =~= ops);
        }
        t
    }
}

/// A prefix of a run of operations carries no more bytes than the run.
proof fn lemma_ops_bytes_prefix(ops: Seq<WalOp>, k: int)
    requires
        0 <= k <= ops.len(),
    ensures
        ops_bytes(ops.take(k)) <= ops_bytes(ops),
    decreases ops.len(),
{
    if k < ops.len() {
        assert(ops.drop_last().take(k) =~= ops.take(k));
        lemma_ops_bytes_prefix(ops.drop_last(), k);
    } else {
        assert(ops.take(k) =~= ops);
    }
}

/// Replaying a put always leaves its value under its key, whatever the map
/// held there before (nothing, a value or a tombstone), and leaves the
/// other keys alone.
pub proof fn lemma_apply_put(m: Map<Seq<u8>, Option<Seq<u8>>>, size: int, k: Seq<u8>, v: Seq<u8>)
    ensures
        apply_op(m, size, WalOp::Put(k, v)).0 == m.insert(k, Some(v)),
        apply_op(m, size, WalOp::Put(k, v)).0[k] == Some(v),
        forall|k2: Seq<u8>| k2 != k ==> #[trigger] apply_op(m, size, WalOp::Put(k, v)).0.contains_key(k2) == m.contains_key(k2),
{
}

/// Replaying a delete always leaves a tombstone under its key, whether or
/// not the map held the key, and leaves the other keys alone.
pub proof fn lemma_apply_delete(m: Map<Seq<u8>, Option<Seq<u8>>>, size: int, k: Seq<u8>)
    ensures
        apply_op(m, size, WalOp::Delete(k)).0 == m.insert(k, None),
        apply_op(m, size, WalOp::Delete(k)).0.contains_key(k),
        apply_op(m, size, WalOp::Delete(k)).0[k] is None,
{
}

/// Replaying a log in order, the last write to a key decides it: one more
/// put leaves its value, one more delete a tombstone, over whatever the
/// earlier operations left.
pub proof fn lemma_replay_last_write(m: Map<Seq<u8>, Option<Seq<u8>>>, size: int, ops: Seq<WalOp>, k: Seq<u8>, v: Seq<u8>)
    ensures
        apply_ops(m, size, ops.push(WalOp::Put(k, v))).0 == apply_ops(m, size, ops).0.insert(k, Some(v)),
        apply_ops(m, size, ops.push(WalOp::Delete(k))).0 == apply_ops(m, size, ops).0.insert(k, None),
        apply_ops(m, size, seq![WalOp::Put(k, v)] + ops).0.contains_key(k),
{
    assert(ops.push(WalOp::Put(k, v)).drop_last() =~= ops);
    assert(ops.push(WalOp::Delete(k)).drop_last() =~= ops);
    lemma_replay_keeps_key(m, size, seq![WalOp::Put(k, v)] + ops, k);
}

/// Once a put of `k` is replayed, later operations keep `k` in the map.
proof fn lemma_replay_keeps_key(m: Map<Seq<u8>, Option<Seq<u8>>>, size: int, ops: Seq<WalOp>, k: Seq<u8>)
    requires
        ops.len() > 0,
        ops[0] matches WalOp::Put(k0, _) && k0 == k,
    ensures
        apply_ops(m, size, ops).0.contains_key(k),
    decreases ops.len(),
{
    if ops.len() > 1 {
        assert(ops.drop_last()[0] == ops[0]);
        lemma_replay_keeps_key(m, size, ops.drop_last(), k);
    } else {
        assert(ops.drop_last().len() == 0);
    }
}

} // verus!
