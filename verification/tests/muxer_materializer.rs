use std::sync::Arc;
use videofuser::binstruct::{CodecType, TrackPolicy};
use videofuser::muxer::materializer::{materialize_frame, MaterializedFrame};
use videofuser::muxer::types::{FullyAvailable, MemRawFile, ReadPolicy, TrackSource};

#[test]
fn cbr_audio_offsets_are_linear() {
    let policy = TrackPolicy {
        track_id: 7,
        codec_type: CodecType::Audio,
        language_code: "eng".into(),
        frame_count: 4,
        is_vbr: false,
        frame_duration: 960,
        cbr_frame_size: Some(768),
        raw_file_hash: [0; 32],
        vfr_file_hash: None,
    };
    // 4 frames × 768 bytes each
    let data: Vec<u8> = (0u32..768 * 4).map(|v| (v & 0xFF) as u8).collect();
    let src = TrackSource {
        track_id: 7,
        raw_file: Arc::new(MemRawFile::new(data.clone())),
        vfr: None,
        policy,
    };
    let avail = FullyAvailable;
    for i in 0..4u32 {
        let frame = match materialize_frame(&src, i, None, &avail, ReadPolicy::Block).unwrap() {
            MaterializedFrame::Bytes(b) => b,
            _ => panic!("expected bytes"),
        };
        assert_eq!(frame.len(), 768);
        let start = (i as usize) * 768;
        assert_eq!(frame, data[start..start + 768]);
    }
}
