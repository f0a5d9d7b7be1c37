use std::collections::HashMap;
use videofuser::binstruct::{
    BinstructFile, ClusterTimestamps, CodecType, Header, MkvSkeleton, Source, TrackEntryRecord,
};
use videofuser::muxer::layout::{build_cluster_header_bytes, build_tracks_element_bytes, TrackMeta};
use videofuser::muxer::plan::plan_layout;

fn mk_binstruct() -> BinstructFile {
    BinstructFile {
        header: Header { version: 1, config_flags: 0 },
        source: Source {
            original_mkv_hash: [0; 32],
            publisher_info: "test".into(),
            creation_timestamp: 0,
            original_language: "spa".into(),
            original_default_track_id: 1,
            build_tools: vec![],
        },
        mkv_skeleton: MkvSkeleton {
            pre_tracks_blob: vec![0u8; 100],
            track_entries: vec![
                TrackEntryRecord {
                    track_id: 1,
                    // TrackNumber=1, FlagDefault=1
                    bytes: vec![0xD7, 0x81, 0x01, 0x88, 0x81, 0x01],
                },
                TrackEntryRecord {
                    track_id: 2,
                    bytes: vec![0xD7, 0x81, 0x02, 0x88, 0x81, 0x00],
                },
            ],
            post_tracks_blob: vec![],
        },
        cluster_timestamps: ClusterTimestamps {
            cluster_count: 2,
            deltas: vec![0, 1000],
        },
        track_policies: vec![],
    }
}

#[test]
fn cluster_header_bytes_are_22() {
    let h = build_cluster_header_bytes(0);
    assert_eq!(h.len(), 22);
    assert_eq!(&h[..4], &[0x1F, 0x43, 0xB6, 0x75]);
    // Unknown-size VINT in 8-byte form: 0x01 then seven 0xFF bytes.
    let mut expected_unknown = vec![0x01u8];
    expected_unknown.extend(std::iter::repeat(0xFFu8).take(7));
    assert_eq!(&h[4..12], expected_unknown.as_slice());
    assert_eq!(h[12], 0xE7);
    assert_eq!(h[13], 0x88); // VINT(8) in 1-byte form
    assert_eq!(&h[14..22], &0u64.to_be_bytes());
}

#[test]
fn tracks_element_filter_and_patch() {
    let b = mk_binstruct();
    let bytes = build_tracks_element_bytes(&b, &[1, 2], 2).unwrap();
    // First 4 bytes are Tracks ID
    assert_eq!(&bytes[..4], &[0x16, 0x54, 0xAE, 0x6B]);
    // Find the patched FlagDefault bytes
    // TE1: TrackNumber=1, FlagDefault patched to 0
    // TE2: TrackNumber=2, FlagDefault patched to 1
    let body_start = 4 + 1; // VINT 1-byte size for 12-byte content
    let te1 = &bytes[body_start..body_start + 6];
    let te2 = &bytes[body_start + 6..body_start + 12];
    assert_eq!(te1[5], 0); // FlagDefault patched to 0
    assert_eq!(te2[5], 1); // FlagDefault patched to 1
}

#[test]
fn plan_layout_with_single_cbr_audio_only() {
    // No video; 1 CBR audio track with 4 frames in 2 clusters.
    let b = mk_binstruct();
    let mut tracks_meta = HashMap::new();
    tracks_meta.insert(
        1u32,
        TrackMeta {
            track_id: 1,
            track_number: 1,
            codec_type: CodecType::Audio,
            frame_count: 4,
            frame_duration: 500, // ms-equivalent; cluster 0 covers [0..1000) → 2 frames
            cbr_frame_size: Some(768),
            vfr_index: None,
        },
    );
    let layout = plan_layout(&b, &[1], &tracks_meta, 1).unwrap();
    assert_eq!(layout.cluster_offsets.len(), 2);
    // Total size sanity check
    assert!(layout.total_size > 100);
    // Sections must be ordered and contiguous.
    for w in layout.sections.windows(2) {
        assert_eq!(w[0].virtual_offset + w[0].byte_len, w[1].virtual_offset);
    }
    let last = layout.sections.last().unwrap();
    assert_eq!(last.virtual_offset + last.byte_len, layout.total_size);
}
