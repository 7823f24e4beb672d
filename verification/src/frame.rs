//! Length-prefixed frames: a payload preceded by its length as a 32-bit
//! little-endian integer. The write-ahead log is a run of frames, and so is
//! the data block of a table file.
use vstd::bytes::{
    lemma_auto_spec_u32_to_from_le_bytes, spec_u32_from_le_bytes, spec_u32_to_le_bytes,
    u32_from_le_bytes, u32_to_le_bytes,
};
use vstd::prelude::*;
use vstd::slice::{slice_subrange, slice_to_vec};

verus! {

/// The frame of a payload: its length, cut to 32 bits as the writer casts
/// it, in little-endian order, then the payload.
pub open spec fn frame(payload: Seq<u8>) -> Seq<u8> {
    spec_u32_to_le_bytes(payload.len() as u32) + payload
}

/// The frames of several payloads, one after another.
pub open spec fn frames(ps: Seq<Seq<u8>>) -> Seq<u8>
    decreases ps.len(),
{
    if ps.len() == 0 {
        Seq::empty()
    } else {
        frames(ps.drop_last()) + frame(ps.last())
    }
}

/// The frame that starts at `pos`: its payload and the position after it;
/// `None` where the bytes end before the length or before the payload.
pub open spec fn frame_at(bytes: Seq<u8>, pos: int) -> Option<(Seq<u8>, int)> {
    if pos < 0 || pos + 4 > bytes.len() {
        None
    } else {
        let n = spec_u32_from_le_bytes(bytes.subrange(pos, pos + 4)) as int;
        if pos + 4 + n > bytes.len() {
            None
        } else {
            Some((bytes.subrange(pos + 4, pos + 4 + n), pos + 4 + n))
        }
    }
}

/// The payloads of the complete frames from `pos` on, up to the first
/// frame that the bytes cut short.
pub open spec fn frames_from(bytes: Seq<u8>, pos: int) -> Seq<Seq<u8>>
    decreases bytes.len() - pos,
{
    match frame_at(bytes, pos) {
        None => Seq::empty(),
        Some((payload, next)) => if next <= pos {
            Seq::empty()
        } else {
            seq![payload] + frames_from(bytes, next)
        },
    }
}

/// Frames a payload.
pub fn encode_frame(payload: &[u8]) -> (r: Vec<u8>)
    ensures
        r@ == frame(payload@),
{
    let len = payload.len() as u32;
    let mut out = u32_to_le_bytes(len);
    let mut body = slice_to_vec(payload);
    out.append(&mut body);
    out
}

/// Reads the frame that starts at `pos`, as `frame_at` says.
pub fn read_frame(bytes: &[u8], pos: usize) -> (r: Option<(Vec<u8>, usize)>)
    ensures
        match r {
            Some((p, next)) => frame_at(bytes@, pos as int) == Some((p@, next as int)),
            None => frame_at(bytes@, pos as int) is None,
        },
{
    if pos > bytes.len() || bytes.len() - pos < 4 {
        return None;
    }
    let n = u32_from_le_bytes(slice_subrange(bytes, pos, pos + 4)) as usize;
    if bytes.len() - pos - 4 < n {
        return None;
    }
    let payload = slice_to_vec(slice_subrange(bytes, pos + 4, pos + 4 + n));
    Some((payload, pos + 4 + n))
}

/// Reads the payloads of all complete frames, stopping at the first frame
/// that the bytes cut short (a write that a crash interrupted).
pub fn decode_frames(bytes: &[u8]) -> (r: Vec<Vec<u8>>)
    ensures
        r@.map_values(|p: Vec<u8>| p@) == frames_from(bytes@, 0),
{
    let mut out: Vec<Vec<u8>> = Vec::new();
    let mut pos: usize = 0;
    while pos <= bytes.len()
        invariant
            pos <= bytes@.len(),
            out@.map_values(|p: Vec<u8>| p@) + frames_from(bytes@, pos as int) == frames_from(bytes@, 0),
        decreases bytes@.len() - pos,
    {
        match read_frame(bytes, pos) {
            None => {
                assert(frames_from(bytes@, pos as int) == Seq::<Seq<u8>>::empty());
                assert(out@.map_values(|p: Vec<u8>| p@) =~= out@.map_values(|p: Vec<u8>| p@) + Seq::<Seq<u8>>::empty());
                return out;
            },
            Some((payload, next)) => {
                let ghost before = out@.map_values(|p: Vec<u8>| p@);
                proof {
                    assert(frames_from(bytes@, pos as int) == seq![payload@] + frames_from(bytes@, next as int));
                }
                out.push(payload);
                assert(out@.map_values(|p: Vec<u8>| p@) =~= before.push(payload@));
                assert(before + (seq![payload@] + frames_from(bytes@, next as int)) =~= before.push(payload@) + frames_from(bytes@, next as int));
                pos = next;
            },
        }
    }
    out
}

/// A frame whose payload fits the 32-bit length reads back as that payload.
pub proof fn lemma_frame_at(pre: Seq<u8>, payload: Seq<u8>, post: Seq<u8>)
    requires
        payload.len() <= u32::MAX,
    ensures
        frame_at(pre + frame(payload) + post, pre.len() as int) == Some((payload, (pre.len() + 4 + payload.len()) as int)),
{
    lemma_auto_spec_u32_to_from_le_bytes();
    let b = pre + frame(payload) + post;
    let pos = pre.len() as int;
    assert(b.subrange(pos, pos + 4) =~= spec_u32_to_le_bytes(payload.len() as u32));
    assert(b.subrange(pos + 4, pos + 4 + payload.len()) =~= payload);
}

/// The frames of several payloads, seen from the front: the first frame,
/// then the frames of the rest.
pub proof fn lemma_frames_front(ps: Seq<Seq<u8>>)
    requires
        ps.len() > 0,
    ensures
        frames(ps) == frame(ps[0]) + frames(ps.drop_first()),
    decreases ps.len(),
{
    if ps.len() > 1 {
        lemma_frames_front(ps.drop_last());
        assert(ps.drop_last().drop_first() =~= ps.drop_first().drop_last());
        assert(ps.drop_first().last() == ps.last());
        assert(frames(ps) =~= frame(ps[0]) + frames(ps.drop_first()));
    } else {
        assert(frames(ps.drop_last()) == Seq::<u8>::empty());
        assert(frames(ps.drop_first()) == Seq::<u8>::empty());
        assert(frames(ps) =~= frame(ps[0]) + frames(ps.drop_first()));
    }
}

/// Bytes that end inside a frame hold no complete frame.
pub open spec fn cut_frame(tail: Seq<u8>) -> bool {
    exists|q: Seq<u8>| q.len() <= u32::MAX && tail.len() < (#[trigger] frame(q)).len() && tail == frame(q).take(tail.len() as int)
}

proof fn lemma_frames_from_cut(pre: Seq<u8>, tail: Seq<u8>)
    requires
        cut_frame(tail),
    ensures
        frames_from(pre + tail, pre.len() as int) == Seq::<Seq<u8>>::empty(),
{
    lemma_auto_spec_u32_to_from_le_bytes();
    let q = choose|q: Seq<u8>| q.len() <= u32::MAX && tail.len() < (#[trigger] frame(q)).len() && tail == frame(q).take(tail.len() as int);
    let b = pre + tail;
    let pos = pre.len() as int;
    if pos + 4 <= b.len() {
        assert(b.subrange(pos, pos + 4) =~= spec_u32_to_le_bytes(q.len() as u32));
    }
}

proof fn lemma_frames_from_frames(pre: Seq<u8>, ps: Seq<Seq<u8>>, tail: Seq<u8>)
    requires
        forall|i: int| 0 <= i < ps.len() ==> (#[trigger] ps[i]).len() <= u32::MAX,
        tail.len() == 0 || cut_frame(tail),
    ensures
        frames_from(pre + frames(ps) + tail, pre.len() as int) == ps,
    decreases ps.len(),
{
    if ps.len() == 0 {
        assert(pre + frames(ps) + tail =~= pre + tail);
        if tail.len() == 0 {
            assert(frame_at(pre + tail, pre.len() as int) is None);
        } else {
            lemma_frames_from_cut(pre, tail);
        }
        assert(ps =~= Seq::<Seq<u8>>::empty());
    } else {
        lemma_auto_spec_u32_to_from_le_bytes();
        lemma_frames_front(ps);
        let rest = ps.drop_first();
        let b = pre + frames(ps) + tail;
        assert(b =~= pre + frame(ps[0]) + (frames(rest) + tail));
        lemma_frame_at(pre, ps[0], frames(rest) + tail);
        let pre2 = pre + frame(ps[0]);
        assert(b =~= pre2 + frames(rest) + tail);
        assert forall|i: int| 0 <= i < rest.len() implies (#[trigger] rest[i]).len() <= u32::MAX by {
            assert(rest[i] == ps[i + 1]);
        }
        lemma_frames_from_frames(pre2, rest, tail);
        assert(seq![ps[0]] + rest =~= ps);
    }
}

/// Recovering a log gives back every payload that was framed into it, in
/// order, where the log ends with complete frames or inside a frame that
/// a crash cut short.
pub proof fn lemma_log_recovery(ps: Seq<Seq<u8>>, tail: Seq<u8>)
    requires
        forall|i: int| 0 <= i < ps.len() ==> (#[trigger] ps[i]).len() <= u32::MAX,
        tail.len() == 0 || cut_frame(tail),
    ensures
        frames_from(frames(ps) + tail, 0) == ps,
{
    lemma_frames_from_frames(Seq::empty(), ps, tail);
    assert(Seq::<u8>::empty() + frames(ps) + tail =~= frames(ps) + tail);
}

} // verus!
