use std::sync::Arc;
use videofuser::muxer::vfr_index::LazyVfrIndex;
use videofuser::vfr::{FrameRecord, VfrFile};

fn mk_vfr(frame_sizes: &[u32], deltas: &[i16]) -> Arc<VfrFile> {
    let frames: Vec<FrameRecord> = frame_sizes
        .iter()
        .zip(deltas.iter())
        .map(|(&size, &d)| FrameRecord {
            frame_size: size,
            flags: 0x01, // keyframe (so cues tests find them)
            nal_count: 0,
            duration_delta: d,
        })
        .collect();
    Arc::new(VfrFile {
        version: 1,
        flags: 0,
        frames,
        nal_lengths: vec![],
    })
}

#[test]
fn frame_offset_and_time_consistent() {
    let vfr = mk_vfr(&[100, 200, 50, 75], &[0, 0, 0, 0]);
    let idx = LazyVfrIndex::new(vfr, 1000);
    assert_eq!(idx.frame_offset(0), 0);
    assert_eq!(idx.frame_offset(1), 100);
    assert_eq!(idx.frame_offset(2), 300);
    assert_eq!(idx.frame_offset(3), 350);
    assert_eq!(idx.frame_time(0), 0);
    assert_eq!(idx.frame_time(1), 1000);
    assert_eq!(idx.frame_time(2), 2000);
    assert_eq!(idx.frame_time(3), 3000);
}

#[test]
fn frame_at_time_locates_correctly() {
    let vfr = mk_vfr(&[10, 10, 10, 10, 10], &[0, 0, 0, 0, 0]);
    let idx = LazyVfrIndex::new(vfr, 100);
    // Frame times: 0, 100, 200, 300, 400.
    assert_eq!(idx.frame_at_time(0), 0);
    assert_eq!(idx.frame_at_time(50), 1);
    assert_eq!(idx.frame_at_time(100), 1);
    assert_eq!(idx.frame_at_time(250), 3);
}
