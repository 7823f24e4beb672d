use lsm_kv_store::frame::{decode_frames, encode_frame, read_frame};

#[test]
fn frame_layout() {
    assert_eq!(encode_frame(b"abc"), vec![3, 0, 0, 0, b'a', b'b', b'c']);
    assert_eq!(encode_frame(b""), vec![0, 0, 0, 0]);
}

#[test]
fn frames_round_trip() {
    let mut log = Vec::new();
    for p in [&b"one"[..], &b""[..], &b"three"[..]] {
        log.extend(encode_frame(p));
    }
    assert_eq!(decode_frames(&log), vec![b"one".to_vec(), Vec::new(), b"three".to_vec()]);
}

#[test]
fn frames_ignore_cut_tail() {
    let mut log = encode_frame(b"kept");
    let cut = encode_frame(b"lost in a crash");
    // every cut inside the last frame leaves the complete frames
    for n in 0..cut.len() {
        let mut bytes = log.clone();
        bytes.extend_from_slice(&cut[..n]);
        assert_eq!(decode_frames(&bytes), vec![b"kept".to_vec()]);
    }
    log.extend(cut);
    assert_eq!(decode_frames(&log), vec![b"kept".to_vec(), b"lost in a crash".to_vec()]);
}

#[test]
fn read_frame_positions() {
    let mut bytes = encode_frame(b"ab");
    bytes.extend(encode_frame(b"c"));
    assert_eq!(read_frame(&bytes, 0), Some((b"ab".to_vec(), 6)));
    assert_eq!(read_frame(&bytes, 6), Some((b"c".to_vec(), 11)));
    assert_eq!(read_frame(&bytes, 11), None);
    assert_eq!(read_frame(&bytes, 100), None);
}
