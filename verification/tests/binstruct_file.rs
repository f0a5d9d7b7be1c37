use videofuser::binstruct::codec::{read_signed_vint, signed_vint_byte_len, write_signed_vint};
use videofuser::binstruct::{
    BinstructError, BinstructFile, ClusterTimestamps, CodecType, Header, MkvSkeleton, Source, ToolEntry,
    TrackEntryRecord, TrackPolicy,
};

fn make_sample() -> BinstructFile {
    BinstructFile {
        header: Header { version: 1, config_flags: 0 },
        source: Source {
            original_mkv_hash: [0xAB; 32],
            publisher_info: "TestPublisher v1.0".to_string(),
            creation_timestamp: 1_746_576_000_000,
            original_language: "spa".to_string(),
            original_default_track_id: 2,
            build_tools: vec![
                ToolEntry { name: "ffmpeg".to_string(), version: "ffmpeg version 6.1".to_string() },
                ToolEntry { name: "mkvmerge".to_string(), version: "mkvmerge v80.0".to_string() },
                ToolEntry { name: "mkvextract".to_string(), version: "mkvextract v80.0".to_string() },
            ],
        },
        mkv_skeleton: MkvSkeleton {
            pre_tracks_blob: (0u8..=127).collect(),
            track_entries: vec![
                TrackEntryRecord { track_id: 1, bytes: vec![0x01, 0x02, 0x03, 0xAA, 0xBB] },
                TrackEntryRecord { track_id: 2, bytes: vec![0x04, 0x05, 0xCC, 0xDD, 0xEE, 0xFF] },
                TrackEntryRecord { track_id: 3, bytes: vec![0x10; 20] },
            ],
            post_tracks_blob: vec![0xDE, 0xAD, 0xBE, 0xEF],
        },
        cluster_timestamps: ClusterTimestamps {
            cluster_count: 5,
            deltas: vec![0, 1000, 1000, 999, 1001],
        },
        track_policies: vec![
            TrackPolicy {
                track_id: 1,
                codec_type: CodecType::Video,
                language_code: "und".to_string(),
                frame_count: 172_800,
                is_vbr: true,
                frame_duration: 512,
                cbr_frame_size: None,
                raw_file_hash: [0x11; 32],
                vfr_file_hash: Some([0x22; 32]),
            },
            TrackPolicy {
                track_id: 2,
                codec_type: CodecType::Audio,
                language_code: "spa".to_string(),
                frame_count: 340_000,
                is_vbr: true,
                frame_duration: 960,
                cbr_frame_size: None,
                raw_file_hash: [0x33; 32],
                vfr_file_hash: Some([0x44; 32]),
            },
            TrackPolicy {
                track_id: 3,
                codec_type: CodecType::Audio,
                language_code: "eng".to_string(),
                frame_count: 340_000,
                is_vbr: false,
                frame_duration: 960,
                cbr_frame_size: Some(768),
                raw_file_hash: [0x55; 32],
                vfr_file_hash: None,
            },
        ],
    }
}

#[test]
fn round_trip_uncompressed() {
    let original = make_sample();
    let bytes = original.serialize().unwrap();
    let decoded = BinstructFile::deserialize(&bytes).unwrap();
    assert_eq!(decoded.header.version, original.header.version);
    assert_eq!(decoded.header.config_flags, original.header.config_flags);
    assert_eq!(decoded.source.original_mkv_hash, original.source.original_mkv_hash);
    assert_eq!(decoded.source.publisher_info, original.source.publisher_info);
    assert_eq!(decoded.source.creation_timestamp, original.source.creation_timestamp);
    assert_eq!(decoded.source.original_language, original.source.original_language);
    assert_eq!(decoded.source.original_default_track_id, original.source.original_default_track_id);
    assert_eq!(decoded.source.build_tools.len(), 3);
    assert_eq!(decoded.source.build_tools[0].name, "ffmpeg");
    assert_eq!(decoded.source.build_tools[1].name, "mkvmerge");
    assert_eq!(decoded.source.build_tools[2].name, "mkvextract");
    assert_eq!(decoded.mkv_skeleton.pre_tracks_blob, original.mkv_skeleton.pre_tracks_blob);
    assert_eq!(decoded.mkv_skeleton.track_entries.len(), 3);
    assert_eq!(decoded.mkv_skeleton.track_entries[0].track_id, 1);
    assert_eq!(decoded.mkv_skeleton.track_entries[1].bytes, original.mkv_skeleton.track_entries[1].bytes);
    assert_eq!(decoded.mkv_skeleton.post_tracks_blob, original.mkv_skeleton.post_tracks_blob);
    assert_eq!(decoded.cluster_timestamps.cluster_count, 5);
    assert_eq!(decoded.cluster_timestamps.deltas, vec![0, 1000, 1000, 999, 1001]);
    assert_eq!(decoded.track_policies.len(), 3);
    assert!(matches!(decoded.track_policies[0].codec_type, CodecType::Video));
    assert_eq!(decoded.track_policies[0].vfr_file_hash, Some([0x22; 32]));
    assert!(matches!(decoded.track_policies[2].codec_type, CodecType::Audio));
    assert_eq!(decoded.track_policies[2].cbr_frame_size, Some(768));
    assert_eq!(decoded.track_policies[2].vfr_file_hash, None);
}

#[test]
fn round_trip_zstd_compressed() {
    let mut original = make_sample();
    original.header.config_flags = 0x01; // enable zstd
    let bytes = original.serialize().unwrap();
    // Should start with zstd magic
    assert_eq!(&bytes[..4], &[0x28, 0xB5, 0x2F, 0xFD]);
    let decoded = BinstructFile::deserialize(&bytes).unwrap();
    assert_eq!(decoded.header.config_flags, 0x01);
    assert_eq!(decoded.source.publisher_info, original.source.publisher_info);
    assert_eq!(decoded.cluster_timestamps.deltas, original.cluster_timestamps.deltas);
    assert_eq!(decoded.track_policies.len(), 3);
}

#[test]
fn invalid_magic_is_rejected() {
    let mut original = make_sample();
    original.header.config_flags = 0;
    let mut bytes = original.serialize().unwrap();
    // Corrupt the magic bytes inside the EBML structure.
    // BinstructFile master: [0x80, <size vint>] then Header master: [0x81, <size>]
    // then Magic element: [0x82, <size=4>] then 4 magic bytes.
    // Find magic bytes and overwrite them.
    let pos = bytes.windows(4).position(|w| w == b"VFUS").unwrap();
    bytes[pos..pos + 4].copy_from_slice(b"XXXX");
    let err = BinstructFile::deserialize(&bytes).unwrap_err();
    assert!(matches!(err, BinstructError::InvalidMagic(_)));
}

#[test]
fn bad_version_is_rejected() {
    let mut original = make_sample();
    original.header.version = 99;
    // We have to manually build bytes since serialize checks version implicitly;
    // bypass by encoding directly.
    let bytes = original.encode_ebml().unwrap();
    let err = BinstructFile::deserialize(&bytes).unwrap_err();
    assert!(matches!(err, BinstructError::UnsupportedVersion(99)));
}

#[test]
fn signed_vint_round_trips() {
    let values: &[i64] = &[0, 1, -1, 63, -63, 64, -64, 1000, -1000, 100_000, -100_000];
    for &v in values {
        let mut buf = Vec::new();
        write_signed_vint(&mut buf, v);
        let mut cur = buf.as_slice();
        let decoded = read_signed_vint(&mut cur).unwrap();
        assert_eq!(decoded, v, "signed vint round-trip failed for {v}");
    }
}

#[test]
fn what_was_written_reads_back_whole() {
    let mut original = make_sample();
    original.cluster_timestamps.deltas = vec![0, -5, 70_000, -9_000_000, 0];
    for flags in [0x00, 0x01, 0x80] {
        original.header.config_flags = flags;
        let bytes = original.serialize().unwrap();
        assert_eq!(BinstructFile::deserialize(&bytes).unwrap(), original);
        assert_eq!(bytes.starts_with(&[0x28, 0xB5, 0x2F, 0xFD]), flags & 1 != 0);
    }
}

#[test]
fn broken_files_are_told_apart() {
    assert_eq!(
        BinstructFile::deserialize(&[0x81, 0x80]).unwrap_err(),
        BinstructError::Ebml("expected BinstructFile element")
    );
    assert_eq!(
        BinstructFile::deserialize(&[0x80, 0x80]).unwrap_err(),
        BinstructError::MissingElement("Header")
    );
    assert_eq!(
        BinstructFile::deserialize(&[]).unwrap_err(),
        BinstructError::Io("failed to fill whole buffer")
    );
    let bytes = make_sample().serialize().unwrap();
    assert_eq!(
        BinstructFile::deserialize(&bytes[..bytes.len() - 1]).unwrap_err(),
        BinstructError::Io("failed to fill whole buffer")
    );
    assert!(matches!(
        BinstructFile::deserialize(&[0x28, 0xB5, 0x2F, 0xFD, 0x00]).unwrap_err(),
        BinstructError::Zstd(_)
    ));
}

#[test]
fn codec_types_have_numbers() {
    assert_eq!(CodecType::Video.as_u8(), 0);
    assert_eq!(CodecType::Audio.as_u8(), 1);
}

#[test]
fn signed_numbers_take_as_many_bytes_as_told() {
    for v in [0i64, 63, -63, 64, 8191, -8191, 8192, 1_048_575, -1_048_576, 1 << 40, -(1 << 54)] {
        let mut buf = Vec::new();
        write_signed_vint(&mut buf, v);
        assert_eq!(buf.len(), signed_vint_byte_len(v), "length of {v}");
        let mut rest = buf.as_slice();
        assert_eq!(read_signed_vint(&mut rest).unwrap(), v);
        assert!(rest.is_empty());
    }
    assert_eq!(signed_vint_byte_len(63), 1);
    assert_eq!(signed_vint_byte_len(64), 2);
}
