use videofuser::muxer::ebml::{
    encode_vint, find_flag_default_value_offset, find_track_number, read_vint, write_vint_with_len,
    UNKNOWN_SIZE_8B,
};

#[test]
fn vint_roundtrip_small() {
    for v in [0u64, 1, 126, 127, 128, 16382, 16383, 16384, 0xFFFF, 1_000_000] {
        let buf = encode_vint(v);
        let (decoded, n) = read_vint(&buf, 0).unwrap();
        assert_eq!(decoded, v, "value {v}");
        assert_eq!(n, buf.len());
    }
}

#[test]
fn unknown_size_pattern_is_canonical_ebml() {
    // For n=8, the marker bit consumes the first byte entirely (no data
    // bits there); the remaining 7 bytes carry 56 data bits all set to 1.
    // Therefore the canonical 8-byte "unknown size" VINT is:
    //   0x01 0xFF 0xFF 0xFF 0xFF 0xFF 0xFF 0xFF
    let mut buf = Vec::new();
    write_vint_with_len(&mut buf, UNKNOWN_SIZE_8B, 8);
    let mut expected = vec![0x01u8];
    expected.extend(std::iter::repeat(0xFFu8).take(7));
    assert_eq!(buf, expected);
}

#[test]
fn find_flag_default_in_track_entry_body() {
    // Body with: TrackNumber=0xD7 (1 byte size, value 7), FlagDefault=0x88 (size 1, value 1)
    let body: Vec<u8> = vec![
        0xD7, 0x81, 0x07, // TrackNumber = 7
        0x88, 0x81, 0x01, // FlagDefault = 1
    ];
    let off = find_flag_default_value_offset(&body).unwrap().unwrap();
    assert_eq!(off, 5);
    assert_eq!(body[off], 1);

    let tn = find_track_number(&body).unwrap().unwrap();
    assert_eq!(tn, 7);
}
