use videofuser::vfr::{
    read_vint, read_vint_from_slice, vint_byte_len, write_vint, FrameRecord, VfrError, VfrFile,
};

fn round_trip(vfr: &VfrFile) -> VfrFile {
    let mut buf = Vec::new();
    vfr.write_to(&mut buf).unwrap();
    VfrFile::read_from(buf.as_slice()).unwrap()
}

#[test]
fn round_trip_video_with_nal_lengths() {
    let frames = vec![
        FrameRecord { frame_size: 4096, flags: 0x03, nal_count: 2, duration_delta: 0 },
        FrameRecord { frame_size: 1024, flags: 0x02, nal_count: 1, duration_delta: -5 },
        FrameRecord { frame_size: 2048, flags: 0x03, nal_count: 3, duration_delta: 10 },
    ];
    // 2 + 1 + 3 = 6 NAL lengths
    let nal_lengths = vec![200u64, 3896, 1024, 100u64, 924, 1024];
    let vfr = VfrFile { version: 1, flags: 0x01, frames, nal_lengths };

    let got = round_trip(&vfr);
    assert_eq!(got.version, 1);
    assert_eq!(got.flags, 0x01);
    assert_eq!(got.frames, vfr.frames);
    assert_eq!(got.nal_lengths, vfr.nal_lengths);
}

#[test]
fn round_trip_audio_no_nal_lengths() {
    let frames = vec![
        FrameRecord { frame_size: 768, flags: 0x00, nal_count: 0, duration_delta: 0 },
        FrameRecord { frame_size: 768, flags: 0x00, nal_count: 0, duration_delta: 0 },
        FrameRecord { frame_size: 800, flags: 0x00, nal_count: 0, duration_delta: 3 },
    ];
    let vfr = VfrFile { version: 1, flags: 0x00, frames, nal_lengths: vec![] };

    let got = round_trip(&vfr);
    assert_eq!(got.frames, vfr.frames);
    assert!(got.nal_lengths.is_empty());
}

#[test]
fn nal_lengths_offset_points_to_correct_byte() {
    let frames = vec![
        FrameRecord { frame_size: 100, flags: 0x03, nal_count: 2, duration_delta: 0 },
    ];
    let nal_lengths = vec![50u64, 50];
    let vfr = VfrFile { version: 1, flags: 0x01, frames, nal_lengths };

    let mut buf = Vec::new();
    vfr.write_to(&mut buf).unwrap();

    // NalLengthsOffset is at bytes 16..24 (u64 LE)
    let offset = u64::from_le_bytes(buf[16..24].try_into().unwrap());
    // HEADER_SIZE=24, 1 frame × 8 bytes = 8 → offset should be 32
    assert_eq!(offset, 32);
    // And the bytes at that offset are valid VINTs
    let (v0, rest) = read_vint_from_slice(&buf[32..]).unwrap();
    let (v1, _) = read_vint_from_slice(rest).unwrap();
    assert_eq!(v0, 50);
    assert_eq!(v1, 50);
}

#[test]
fn lib_invalid_magic_is_rejected() {
    let mut bad = b"NOPE\x01\x00\x00\x00".to_vec();
    bad.extend_from_slice(&0u64.to_le_bytes()); // frame_count
    bad.extend_from_slice(&0u64.to_le_bytes()); // nal_offset
    let err = VfrFile::read_from(bad.as_slice()).unwrap_err();
    assert!(matches!(err, VfrError::InvalidMagic(_)));
}

#[test]
fn lib_bad_version_is_rejected() {
    let mut buf = Vec::new();
    buf.extend_from_slice(b"VFRF");
    buf.push(99); // bad version
    buf.push(0);  // flags
    buf.extend_from_slice(&0u16.to_le_bytes()); // reserved
    buf.extend_from_slice(&0u64.to_le_bytes()); // frame_count
    buf.extend_from_slice(&0u64.to_le_bytes()); // nal_offset
    let err = VfrFile::read_from(buf.as_slice()).unwrap_err();
    assert!(matches!(err, VfrError::UnsupportedVersion(99)));
}

#[test]
fn a_changed_start_is_refused_with_what_stands_there() {
    let frames = vec![FrameRecord { frame_size: 9, flags: 1, nal_count: 1, duration_delta: 0 }];
    let vfr = VfrFile { version: 1, flags: 0x01, frames, nal_lengths: vec![5] };
    let mut buf = Vec::new();
    vfr.write_to(&mut buf).unwrap();
    assert!(VfrFile::read_from(buf.as_slice()).is_ok());
    let mut other = buf.clone();
    other[2] = 0x00;
    assert!(matches!(
        VfrFile::read_from(other.as_slice()),
        Err(VfrError::InvalidMagic([0x56, 0x46, 0x00, 0x46]))
    ));
    buf[4] = 7;
    assert!(matches!(
        VfrFile::read_from(buf.as_slice()),
        Err(VfrError::UnsupportedVersion(7))
    ));
}

#[test]
fn vint_round_trips() {
    // Max encodable in 8-byte EBML VINT: 2^56 - 2
    for &v in &[0u64, 1, 63, 126, 127, 200, 16382, 16383, 100_000, 72_057_594_037_927_934] {
        let mut buf = Vec::new();
        write_vint(&mut buf, v);
        let (decoded, rest) = read_vint_from_slice(&buf).unwrap();
        assert_eq!(decoded, v, "vint round-trip failed for {v}");
        assert!(rest.is_empty());
    }
}

#[test]
fn early_ends_are_told() {
    let frames = vec![FrameRecord { frame_size: 9, flags: 0x03, nal_count: 1, duration_delta: -1 }];
    let vfr = VfrFile { version: 1, flags: 0x01, frames, nal_lengths: vec![5] };
    let mut buf = Vec::new();
    vfr.write_to(&mut buf).unwrap();
    assert_eq!(VfrFile::read_from(&buf).unwrap(), vfr);
    assert!(vfr.has_nal_lengths_table());
    assert!(vfr.frames[0].is_keyframe());
    assert!(vfr.frames[0].has_nal_lengths());
    assert_eq!(VfrFile::read_from(&buf[..3]).unwrap_err(), VfrError::Io("failed to fill whole buffer"));
    assert_eq!(VfrFile::read_from(&buf[..30]).unwrap_err(), VfrError::Io("failed to fill whole buffer"));
    assert!(matches!(VfrFile::read_from(&buf[..32]), Err(VfrError::Io(_))));
}

#[test]
fn the_bytes_of_a_file_are_exactly_these() {
    let frames = vec![FrameRecord { frame_size: 0x01020304, flags: 0x03, nal_count: 2, duration_delta: -2 }];
    let vfr = VfrFile { version: 1, flags: 0x01, frames, nal_lengths: vec![1, 200] };
    let mut buf = Vec::new();
    vfr.write_to(&mut buf).unwrap();
    let mut expected = b"VFRF\x01\x01\x00\x00".to_vec();
    expected.extend_from_slice(&1u64.to_le_bytes());
    expected.extend_from_slice(&32u64.to_le_bytes());
    expected.extend_from_slice(&[0x04, 0x03, 0x02, 0x01, 0x03, 0x02, 0xFE, 0xFF]);
    expected.extend_from_slice(&[0x81, 0x40, 0xC8]);
    assert_eq!(buf, expected);
}

#[test]
fn numbers_take_as_many_bytes_as_told() {
    for (v, n) in [(0u64, 1usize), (126, 1), (127, 2), (16382, 2), (16383, 3), (1 << 50, 8)] {
        assert_eq!(vint_byte_len(v), n);
        let mut buf = Vec::new();
        write_vint(&mut buf, v);
        assert_eq!(buf.len(), n);
        let mut rest = buf.as_slice();
        assert_eq!(read_vint(&mut rest).unwrap(), v);
    }
    assert_eq!(read_vint_from_slice(&[]).unwrap_err(), "unexpected end of VINT data");
    assert_eq!(read_vint_from_slice(&[0]).unwrap_err(), "invalid VINT encoding");
    let mut bad = &[0u8][..];
    assert_eq!(read_vint(&mut bad).unwrap_err(), "invalid VINT");
}
