//! The `bincode` encodings of what the table files hold: a record (a key
//! with an optional value) and an index (keys with the offsets of their
//! records). `bincode` encodes a byte string as its length (a 64-bit
//! little-endian integer) followed by its bytes, an absent value as the
//! byte 0 and a present one as the byte 1 followed by the value, and a list
//! as its length followed by its items.
use crate::entries::{opt_bytes, EntryView};
use vstd::bytes::{lemma_auto_spec_u64_to_from_le_bytes, spec_u64_from_le_bytes, spec_u64_to_le_bytes};
use vstd::prelude::*;

verus! {

/// A 64-bit integer in little-endian order.
pub open spec fn le64(x: u64) -> Seq<u8> {
    spec_u64_to_le_bytes(x)
}

/// A byte string: its length, then its bytes.
pub open spec fn enc_bytes(b: Seq<u8>) -> Seq<u8> {
    le64(b.len() as u64) + b
}

/// An optional byte string: 0 for none, else 1 and the string.
pub open spec fn enc_option(v: Option<Seq<u8>>) -> Seq<u8> {
    match v {
        None => seq![0u8],
        Some(x) => seq![1u8] + enc_bytes(x),
    }
}

/// The encoding of a record `(key, value)`.
pub open spec fn record_encoding(e: EntryView) -> Seq<u8> {
    enc_bytes(e.0) + enc_option(e.1)
}

/// The items of an index, one after another.
pub open spec fn index_items(idx: Seq<(Seq<u8>, u64)>) -> Seq<u8>
    decreases idx.len(),
{
    if idx.len() == 0 {
        Seq::empty()
    } else {
        enc_bytes(idx[0].0) + le64(idx[0].1) + index_items(idx.drop_first())
    }
}

/// The encoding of an index: its length, then its items.
pub open spec fn index_encoding(idx: Seq<(Seq<u8>, u64)>) -> Seq<u8> {
    le64(idx.len() as u64) + index_items(idx)
}

/// The 64-bit integer at `pos`, if eight bytes are there.
pub open spec fn read_u64(b: Seq<u8>, pos: int) -> Option<u64> {
    if 0 <= pos && pos + 8 <= b.len() {
        Some(spec_u64_from_le_bytes(b.subrange(pos, pos + 8)))
    } else {
        None
    }
}

/// The byte string at `pos` and the position after it, if its length fits
/// a `usize` and its bytes are all there.
pub open spec fn read_bytes(b: Seq<u8>, pos: int) -> Option<(Seq<u8>, int)> {
    match read_u64(b, pos) {
        None => None,
        Some(n) => if n > usize::MAX || pos + 8 + n > b.len() {
            None
        } else {
            Some((b.subrange(pos + 8, pos + 8 + n), pos + 8 + n))
        },
    }
}

/// The record at the start of `b` (bytes after it are allowed), or `None`
/// where `b` holds no record.
pub open spec fn parse_record(b: Seq<u8>) -> Option<EntryView> {
    match read_bytes(b, 0) {
        None => None,
        Some((k, p)) => if p >= b.len() {
            None
        } else if b[p] == 0 {
            Some((k, None))
        } else if b[p] == 1 {
            match read_bytes(b, p + 1) {
                None => None,
                Some((v, _)) => Some((k, Some(v))),
            }
        } else {
            None
        },
    }
}

/// `n` index items from `pos` on.
pub open spec fn parse_index_items(b: Seq<u8>, pos: int, n: nat) -> Option<Seq<(Seq<u8>, u64)>>
    decreases n,
{
    if n == 0 {
        Some(Seq::empty())
    } else {
        match read_bytes(b, pos) {
            None => None,
            Some((k, p)) => match read_u64(b, p) {
                None => None,
                Some(off) => match parse_index_items(b, p + 8, (n - 1) as nat) {
                    None => None,
                    Some(rest) => Some(seq![(k, off)] + rest),
                },
            },
        }
    }
}

/// The index at the start of `b` (bytes after it are allowed), or `None`
/// where `b` holds no index.
pub open spec fn parse_index(b: Seq<u8>) -> Option<Seq<(Seq<u8>, u64)>> {
    match read_u64(b, 0) {
        None => None,
        Some(n) => if n > usize::MAX {
            None
        } else {
            parse_index_items(b, 8, n as nat)
        },
    }
}

/// The index as plain bytes.
pub open spec fn index_view(idx: Seq<(Vec<u8>, u64)>) -> Seq<(Seq<u8>, u64)> {
    idx.map_values(|e: (Vec<u8>, u64)| (e.0@, e.1))
}

/// `bincode::serialize` of a record `(key, value)`. Claimed: it succeeds
/// (with the default options there is no size limit, and the lengths of a
/// byte slice and of an option are known up front), and what it returns
/// is the record's encoding as `record_encoding` spells it.
#[verifier::external_body]
pub(crate) fn serialize_record(key: &[u8], value: &Option<Vec<u8>>) -> (r: Result<Vec<u8>, bincode::Error>)
    ensures
        r is Ok,
        r matches Ok(b) ==> b@ == record_encoding((key@, opt_bytes(*value))),
{
    bincode::serialize(&(key, value))
}

/// `bincode::deserialize` of a record `(key, value)`. Claimed: it
/// succeeds exactly where `parse_record` finds a record, and returns that
/// record.
#[verifier::external_body]
pub(crate) fn deserialize_record(b: &[u8]) -> (r: Result<(Vec<u8>, Option<Vec<u8>>), bincode::Error>)
    ensures
        match r {
            Ok(e) => parse_record(b@) == Some((e.0@, opt_bytes(e.1))),
            Err(_) => parse_record(b@) is None,
        },
{
    bincode::deserialize::<(Vec<u8>, Option<Vec<u8>>)>(b)
}

/// `bincode::serialize` of an index. Claimed: it succeeds (no size limit
/// under the default options, and a vector's length is known up front),
/// and what it returns is the index's encoding as `index_encoding` spells
/// it.
#[verifier::external_body]
pub(crate) fn serialize_index(idx: &Vec<(Vec<u8>, u64)>) -> (r: Result<Vec<u8>, bincode::Error>)
    ensures
        r is Ok,
        r matches Ok(b) ==> b@ == index_encoding(index_view(idx@)),
{
    bincode::serialize(idx)
}

/// `bincode::deserialize` of an index. Claimed: it succeeds exactly where
/// `parse_index` finds an index, and returns that index.
#[verifier::external_body]
pub(crate) fn deserialize_index(b: &[u8]) -> (r: Result<Vec<(Vec<u8>, u64)>, bincode::Error>)
    ensures
        match r {
            Ok(idx) => parse_index(b@) == Some(index_view(idx@)),
            Err(_) => parse_index(b@) is None,
        },
{
    bincode::deserialize::<Vec<(Vec<u8>, u64)>>(b)
}

/// A 64-bit integer reads back.
pub proof fn lemma_read_u64(pre: Seq<u8>, x: u64, post: Seq<u8>)
    ensures
        read_u64(pre + le64(x) + post, pre.len() as int) == Some(x),
        le64(x).len() == 8,
{
    lemma_auto_spec_u64_to_from_le_bytes();
    let b = pre + le64(x) + post;
    assert(b.subrange(pre.len() as int, pre.len() + 8int) =~= le64(x));
}

/// A byte string reads back.
pub proof fn lemma_read_bytes(pre: Seq<u8>, x: Seq<u8>, post: Seq<u8>)
    requires
        x.len() <= usize::MAX,
    ensures
        read_bytes(pre + enc_bytes(x) + post, pre.len() as int) == Some((x, (pre.len() + 8 + x.len()) as int)),
        enc_bytes(x).len() == 8 + x.len(),
{
    lemma_read_u64(pre, x.len() as u64, x + post);
    let b = pre + enc_bytes(x) + post;
    assert(b =~= pre + le64(x.len() as u64) + (x + post));
    let p = pre.len() + 8int;
    assert(b.subrange(p, p + x.len()) =~= x);
}

/// A record reads back from its encoding, whatever follows it.
pub proof fn lemma_record_roundtrip(e: EntryView, post: Seq<u8>)
    requires
        e.0.len() <= usize::MAX,
        e.1 matches Some(v) ==> v.len() <= usize::MAX,
    ensures
        parse_record(record_encoding(e) + post) == Some(e),
{
    let b = record_encoding(e) + post;
    let pre = Seq::<u8>::empty();
    lemma_read_bytes(pre, e.0, enc_option(e.1) + post);
    assert(b =~= pre + enc_bytes(e.0) + (enc_option(e.1) + post));
    let p = 8 + e.0.len() as int;
    match e.1 {
        None => {
            assert(b[p] == 0u8);
        },
        Some(v) => {
            assert(b[p] == 1u8);
            lemma_read_bytes(enc_bytes(e.0) + seq![1u8], v, post);
            assert(b =~= (enc_bytes(e.0) + seq![1u8]) + enc_bytes(v) + post);
        },
    }
}

/// Index items read back, whatever precedes and follows them.
pub proof fn lemma_index_items_roundtrip(pre: Seq<u8>, idx: Seq<(Seq<u8>, u64)>, post: Seq<u8>)
    requires
        forall|i: int| 0 <= i < idx.len() ==> (#[trigger] idx[i]).0.len() <= usize::MAX,
    ensures
        parse_index_items(pre + index_items(idx) + post, pre.len() as int, idx.len()) == Some(idx),
    decreases idx.len(),
{
    if idx.len() == 0 {
        assert(idx =~= Seq::<(Seq<u8>, u64)>::empty());
    } else {
        let b = pre + index_items(idx) + post;
        let rest = idx.drop_first();
        assert(idx[0].0.len() <= usize::MAX);
        lemma_read_bytes(pre, idx[0].0, le64(idx[0].1) + index_items(rest) + post);
        assert(b =~= pre + enc_bytes(idx[0].0) + (le64(idx[0].1) + index_items(rest) + post));
        lemma_read_u64(pre + enc_bytes(idx[0].0), idx[0].1, index_items(rest) + post);
        assert(b =~= (pre + enc_bytes(idx[0].0)) + le64(idx[0].1) + (index_items(rest) + post));
        let pre2 = pre + enc_bytes(idx[0].0) + le64(idx[0].1);
        assert(b =~= pre2 + index_items(rest) + post);
        assert forall|i: int| 0 <= i < rest.len() implies (#[trigger] rest[i]).0.len() <= usize::MAX by {
            assert(rest[i] == idx[i + 1]);
        }
        lemma_index_items_roundtrip(pre2, rest, post);
        assert(seq![idx[0]] + rest =~= idx);
    }
}

/// An index reads back from its encoding, whatever follows it.
pub proof fn lemma_index_roundtrip(idx: Seq<(Seq<u8>, u64)>, post: Seq<u8>)
    requires
        idx.len() <= usize::MAX,
        forall|i: int| 0 <= i < idx.len() ==> (#[trigger] idx[i]).0.len() <= usize::MAX,
    ensures
        parse_index(index_encoding(idx) + post) == Some(idx),
{
    let b = index_encoding(idx) + post;
    lemma_read_u64(Seq::empty(), idx.len() as u64, index_items(idx) + post);
    assert(b =~= Seq::<u8>::empty() + le64(idx.len() as u64) + (index_items(idx) + post));
    lemma_index_items_roundtrip(le64(idx.len() as u64), idx, post);
    assert(b =~= le64(idx.len() as u64) + index_items(idx) + post);
}

} // verus!
