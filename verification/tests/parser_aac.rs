use videofuser::parsers::aac::{adts_sample_rate, index_adts, index_track};
use videofuser::parsers::common::{detect_cbr, ParseResult};

fn make_adts_frame(frame_length: u16, protection_absent: bool, sample_rate_idx: u8) -> Vec<u8> {
    // A minimal ADTS header and a zero payload.
    let mut h = [0u8; 7];
    h[0] = 0xFF;
    h[1] = 0xF0 | if protection_absent { 0x01 } else { 0x00 };
    // profile=01 (LC), sfi=sample_rate_idx, private=0, channel_config=2 (stereo)
    h[2] = (0b01 << 6) | ((sample_rate_idx & 0x0F) << 2) | 0x00; // channel_config MSB=0
    // channel_config LSB = 010 = 2 (stereo), aac_frame_length top 2 bits
    let fl = frame_length as u32;
    h[3] = (0b010 << 5) | 0x00 | (((fl >> 11) & 0x03) as u8);
    h[4] = ((fl >> 3) & 0xFF) as u8;
    h[5] = (((fl & 0x07) as u8) << 5) | 0x1F; // buffer_fullness (11 bits) = 0x7FF (VBR)
    h[6] = 0xFC; // buffer_fullness low + number_of_raw_data_blocks=0

    let mut frame = h.to_vec();
    frame.resize(frame_length as usize, 0x00); // zero payload
    frame
}

#[test]
fn single_frame_parsed() {
    // Build one valid ADTS frame of 128 bytes at 48kHz (sfi=3)
    let frame = make_adts_frame(128, true, 3);
    let frames = index_adts(&frame).unwrap();
    assert_eq!(frames.len(), 1);
    assert_eq!(frames[0].frame_size, 128);
    assert!(frames[0].is_keyframe());
    assert_eq!(frames[0].nal_count, 0);
}

#[test]
fn multiple_frames_parsed() {
    let mut data = Vec::new();
    for _ in 0..5 {
        data.extend(make_adts_frame(200, true, 3));
    }
    let frames = index_adts(&data).unwrap();
    assert_eq!(frames.len(), 5);
    for f in &frames {
        assert_eq!(f.frame_size, 200);
    }
}

#[test]
fn cbr_detected_for_equal_frames() {
    let mut data = Vec::new();
    for _ in 0..4 {
        data.extend(make_adts_frame(300, true, 3));
    }
    let frames = index_adts(&data).unwrap();
    assert_eq!(detect_cbr(&frames), Some(300));
}

#[test]
fn vbr_detected_for_variable_frames() {
    let mut data = Vec::new();
    data.extend(make_adts_frame(200, true, 3));
    data.extend(make_adts_frame(300, true, 3));
    data.extend(make_adts_frame(200, true, 3));
    let frames = index_adts(&data).unwrap();
    assert!(detect_cbr(&frames).is_none());
}

#[test]
fn sample_rate_extracted() {
    let frame = make_adts_frame(128, true, 3); // sfi=3 → 48000
    assert_eq!(adts_sample_rate(&frame), Some(48000));
}

#[test]
fn invalid_syncword_returns_error() {
    let data = vec![0x00u8; 10];
    assert!(index_adts(&data).is_err());
}

#[test]
fn truncated_data_returns_partial() {
    // Two complete frames + partial third
    let mut data = Vec::new();
    data.extend(make_adts_frame(100, true, 3));
    data.extend(make_adts_frame(100, true, 3));
    data.extend(&[0xFF, 0xF1, 0x50, 0x80, 0x00, 0x00, 0xFC]); // header only, no payload
    let frames = index_adts(&data).unwrap();
    // The last incomplete frame is silently dropped
    assert_eq!(frames.len(), 2);
}

#[test]
fn tracks_of_equal_frames_are_told_by_size() {
    let mut data = make_adts_frame(300, true, 3);
    data.extend(make_adts_frame(300, true, 3));
    match index_track(&data, "es".to_string()).unwrap() {
        ParseResult::Cbr(info) => {
            assert_eq!(info.frame_count, 2);
            assert_eq!(info.cbr_frame_size, 300);
            assert_eq!(info.frame_duration_ns, 21_333_333);
            assert_eq!(info.language, "es");
        }
        _ => panic!("expected frames of one size"),
    }
    data.extend(make_adts_frame(301, true, 3));
    match index_track(&data, String::new()).unwrap() {
        ParseResult::Vbr { frames, has_nal_lengths } => {
            assert_eq!(frames.len(), 3);
            assert!(!has_nal_lengths);
        }
        _ => panic!("expected frames of many sizes"),
    }
    assert_eq!(index_track(&[], String::new()).unwrap_err(), "no ADTS frames found");
    assert_eq!(
        index_track(&[0u8; 9], String::new()).unwrap_err(),
        "parse error: invalid ADTS syncword at byte 0"
    );
}

#[test]
fn frames_stand_where_their_sizes_add_up_to() {
    let mut data = Vec::new();
    for n in [100, 60, 80] {
        data.extend(make_adts_frame(n, true, 4));
    }
    let mut at = 0usize;
    for f in index_adts(&data).unwrap() {
        assert_eq!(&data[at..at + 2], &[0xFF, 0xF1]);
        at += f.frame_size as usize;
    }
    assert_eq!(at, data.len());
}
