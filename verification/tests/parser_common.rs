use videofuser::parsers::common::{detect_cbr, write_vfr, write_vint, CbrInfo, FrameEntry};
use videofuser::vfr::VfrFile;

#[test]
fn cbr_info_json_format() {
    let info = CbrInfo {
        frame_count: 1000,
        cbr_frame_size: 768,
        frame_duration_ns: 32_000_000,
        language: "es".to_string(),
    };
    let mut buf = Vec::new();
    info.write_json(&mut buf);
    let s = String::from_utf8(buf).unwrap();
    assert!(s.contains(r#""is_vbr": false"#));
    assert!(s.contains(r#""frame_count": 1000"#));
    assert!(s.contains(r#""cbr_frame_size": 768"#));
    assert!(s.contains(r#""frame_duration_ns": 32000000"#));
    assert!(s.contains(r#""language": "es""#));
}

#[test]
fn detect_cbr_all_same() {
    let frames: Vec<FrameEntry> = (0..5)
        .map(|_| FrameEntry {
            frame_size: 512,
            flags: 0x01,
            nal_count: 0,
            duration_delta: 0,
            nal_lengths: vec![],
        })
        .collect();
    assert_eq!(detect_cbr(&frames), Some(512));
}

#[test]
fn detect_cbr_variable() {
    let sizes = [512u32, 512, 1024, 512];
    let frames: Vec<FrameEntry> = sizes
        .iter()
        .map(|&s| FrameEntry {
            frame_size: s,
            flags: 0x01,
            nal_count: 0,
            duration_delta: 0,
            nal_lengths: vec![],
        })
        .collect();
    assert_eq!(detect_cbr(&frames), None);
}

#[test]
fn write_vfr_audio_no_nals() {
    let frames = vec![
        FrameEntry {
            frame_size: 768,
            flags: 0x01,
            nal_count: 0,
            duration_delta: 0,
            nal_lengths: vec![],
        };
        3
    ];
    let mut buf = Vec::new();
    write_vfr(&frames, false, &mut buf);
    assert_eq!(&buf[..4], b"VFRF");
    assert_eq!(buf[4], 1);    // version
    assert_eq!(buf[5], 0);    // no nal flag
    let fc = u64::from_le_bytes(buf[8..16].try_into().unwrap());
    assert_eq!(fc, 3);
}

#[test]
fn write_vfr_video_with_nals() {
    let frames = vec![
        FrameEntry {
            frame_size: 1000,
            flags: 0x03,
            nal_count: 2,
            duration_delta: 0,
            nal_lengths: vec![400, 600],
        },
        FrameEntry {
            frame_size: 500,
            flags: 0x02,
            nal_count: 1,
            duration_delta: 0,
            nal_lengths: vec![500],
        },
    ];
    let mut buf = Vec::new();
    write_vfr(&frames, true, &mut buf);
    assert_eq!(&buf[..4], b"VFRF");
    assert_eq!(buf[5], 0x01); // has_nal_lengths flag
    let fc = u64::from_le_bytes(buf[8..16].try_into().unwrap());
    assert_eq!(fc, 2);
    // NalLengthsOffset = 24 + 2*8 = 40
    let offset = u64::from_le_bytes(buf[16..24].try_into().unwrap());
    assert_eq!(offset, 40);
}

#[test]
fn written_indexes_read_back() {
    let frames = vec![
        FrameEntry { frame_size: 1000, flags: 0x03, nal_count: 2, duration_delta: -7, nal_lengths: vec![400, 600] },
        FrameEntry { frame_size: 500, flags: 0x02, nal_count: 1, duration_delta: 3, nal_lengths: vec![500] },
    ];
    let mut buf = Vec::new();
    write_vfr(&frames, true, &mut buf);
    let vfr = VfrFile::read_from(&buf).unwrap();
    assert_eq!(vfr.nal_lengths, vec![400, 600, 500]);
    assert_eq!(vfr.frames.len(), 2);
    assert_eq!(vfr.frames[0].duration_delta, -7);
    assert_eq!(vfr.frames[1].frame_size, 500);
    assert!(frames[0].is_keyframe());
    assert!(!frames[1].is_keyframe());
}

#[test]
fn infos_are_one_line_of_json() {
    let info = CbrInfo { frame_count: 2, cbr_frame_size: 3, frame_duration_ns: 4, language: String::new() };
    let mut buf = b"x".to_vec();
    info.write_json(&mut buf);
    assert_eq!(
        buf,
        b"x{\"is_vbr\": false, \"frame_count\": 2, \"cbr_frame_size\": 3, \"frame_duration_ns\": 4, \"language\": \"\"}\n"
            .to_vec()
    );
    let mut n = Vec::new();
    write_vint(&mut n, 127);
    assert_eq!(n, vec![0x40, 0x7F]);
}
