use lsm_kv_store::names::{parse_u64, sst_id_of_stem};

#[test]
fn stem_ids() {
    assert_eq!(sst_id_of_stem(b"L0_000042"), Some(42));
    assert_eq!(sst_id_of_stem(b"L12_1710000000000"), Some(1710000000000));
    assert_eq!(sst_id_of_stem(b"L0_7_extra"), Some(7));
    assert_eq!(sst_id_of_stem(b"L0"), None);
    assert_eq!(sst_id_of_stem(b"L0_"), None);
    assert_eq!(sst_id_of_stem(b"L0_x1"), None);
}

#[test]
fn parse_u64_as_std_does() {
    for s in ["0", "42", "+7", "007", "18446744073709551615", "18446744073709551616", "", "+", "-1", "1a", " 1"] {
        assert_eq!(parse_u64(s.as_bytes()), s.parse::<u64>().ok(), "input {s:?}");
    }
}
