use videofuser::parsers::ac3::{ac3_frame_size, ac3_sample_rate, index_ac3, index_track, AC3_FRAME_SIZES};
use videofuser::parsers::common::{detect_cbr, ParseResult};

/// Build a minimal AC-3 sync frame: header + zero-padded payload.
fn make_ac3_frame(fscod: u8, frmsizecod: u8) -> Vec<u8> {
    let size = AC3_FRAME_SIZES[fscod as usize][frmsizecod as usize] as usize;
    let mut frame = vec![0u8; size];
    frame[0] = 0x0B;
    frame[1] = 0x77;
    frame[4] = (fscod << 6) | (frmsizecod & 0x3F);
    frame[5] = (8u8 << 3) | 0; // bsid=8, bsmod=0
    frame
}

#[test]
fn single_frame_48khz() {
    // fscod=0 (48kHz), frmsizecod=0 → 256 bytes
    let frame = make_ac3_frame(0, 0);
    assert_eq!(frame.len(), 256);
    let frames = index_ac3(&frame).unwrap();
    assert_eq!(frames.len(), 1);
    assert_eq!(frames[0].frame_size, 256);
    assert!(frames[0].is_keyframe());
}

#[test]
fn main_multiple_frames_parsed() {
    let mut data = Vec::new();
    for _ in 0..3 {
        data.extend(make_ac3_frame(0, 8)); // 512 bytes each
    }
    let frames = index_ac3(&data).unwrap();
    assert_eq!(frames.len(), 3);
    for f in &frames {
        assert_eq!(f.frame_size, 512);
    }
}

#[test]
fn cbr_detected() {
    let mut data = Vec::new();
    for _ in 0..4 {
        data.extend(make_ac3_frame(0, 4)); // 384 bytes each
    }
    let frames = index_ac3(&data).unwrap();
    assert_eq!(detect_cbr(&frames), Some(384));
}

#[test]
fn sample_rate_48khz() {
    let frame = make_ac3_frame(0, 0);
    assert_eq!(ac3_sample_rate(&frame), Some(48000));
}

#[test]
fn sample_rate_44100hz() {
    let frame = make_ac3_frame(1, 0);
    assert_eq!(ac3_sample_rate(&frame), Some(44100));
}

#[test]
fn sample_rate_32khz() {
    let frame = make_ac3_frame(2, 0);
    assert_eq!(ac3_sample_rate(&frame), Some(32000));
}

#[test]
fn main_invalid_syncword_returns_error() {
    let data = vec![0xAA, 0xBB, 0x00, 0x00, 0x00, 0x00, 0x00, 0x00];
    assert!(index_ac3(&data).is_err());
}

#[test]
fn truncated_frame_ignored() {
    let mut combined = Vec::new();
    for _ in 0..2 {
        combined.extend(make_ac3_frame(0, 0)); // 256 bytes each
    }
    // Append a truncated frame (just the header bytes)
    let mut partial = make_ac3_frame(0, 0);
    partial.truncate(10);
    combined.extend(partial);
    let frames = index_ac3(&combined).unwrap();
    assert_eq!(frames.len(), 2);
}

#[test]
fn frame_duration_48khz() {
    let sample_rate = 48000u64;
    let duration = 1_536_000_000_000u64 / sample_rate;
    assert_eq!(duration, 32_000_000); // 32 ms
}

#[test]
fn all_frmsizecod_entries_nonzero() {
    for fscod in 0..3 {
        for frmsizecod in 0..38 {
            assert!(
                AC3_FRAME_SIZES[fscod][frmsizecod] > 0,
                "zero size at fscod={fscod} frmsizecod={frmsizecod}"
            );
        }
    }
}

#[test]
fn tracks_of_sync_frames_are_told_by_size() {
    let mut data = make_ac3_frame(0, 0);
    data.extend(make_ac3_frame(0, 0));
    match index_track(&data, "en".to_string()).unwrap() {
        ParseResult::Cbr(info) => {
            assert_eq!(info.frame_count, 2);
            assert_eq!(info.cbr_frame_size, 256);
            assert_eq!(info.frame_duration_ns, 32_000_000);
        }
        _ => panic!("expected frames of one size"),
    }
    assert_eq!(index_track(&[], String::new()).unwrap_err(), "no AC-3 sync frames found");
    let mut bad = make_ac3_frame(0, 0);
    bad[4] = 0xC0;
    assert_eq!(ac3_frame_size(&bad), None);
    assert_eq!(
        index_track(&bad, String::new()).unwrap_err(),
        "parse error: cannot determine frame size at byte 0"
    );
}

#[test]
fn sync_frames_stand_where_their_sizes_add_up_to() {
    let mut data = Vec::new();
    for code in [0, 8, 4] {
        data.extend(make_ac3_frame(0, code));
    }
    let mut at = 0usize;
    for f in index_ac3(&data).unwrap() {
        assert_eq!(&data[at..at + 2], &[0x0B, 0x77]);
        at += f.frame_size as usize;
    }
    assert_eq!(at, data.len());
}
