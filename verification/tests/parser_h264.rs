use videofuser::muxer::transformer::transform_avcc;
use videofuser::parsers::common::ParseResult;
use videofuser::parsers::h264::{
    find_start_codes, index_h264, index_track, NAL_AUD, NAL_IDR_SLICE, NAL_NON_IDR_SLICE, NAL_PPS, NAL_SEI, NAL_SPS,
};

const SC4: &[u8] = &[0x00, 0x00, 0x00, 0x01];
const SC3: &[u8] = &[0x00, 0x00, 0x01];

fn nal4(nal_type: u8, payload_size: usize) -> Vec<u8> {
    let mut v = SC4.to_vec();
    v.push(nal_type & 0x1F);
    v.extend(vec![0xAA; payload_size]);
    v
}

fn nal3(nal_type: u8, payload_size: usize) -> Vec<u8> {
    let mut v = SC3.to_vec();
    v.push(nal_type & 0x1F);
    v.extend(vec![0xBB; payload_size]);
    v
}

#[test]
fn single_idr_frame() {
    let mut data = Vec::new();
    data.extend(nal4(NAL_SPS, 20));
    data.extend(nal4(NAL_PPS, 5));
    data.extend(nal4(NAL_IDR_SLICE, 100));
    let frames = index_h264(&data).unwrap();
    assert_eq!(frames.len(), 1);
    assert!(frames[0].is_keyframe());
    assert!(frames[0].nal_count >= 1);
}

#[test]
fn idr_followed_by_p_frames() {
    let mut data = Vec::new();
    data.extend(nal4(NAL_IDR_SLICE, 200));
    data.extend(nal4(NAL_NON_IDR_SLICE, 80));
    data.extend(nal4(NAL_NON_IDR_SLICE, 70));
    data.extend(nal4(NAL_NON_IDR_SLICE, 60));
    let frames = index_h264(&data).unwrap();
    assert_eq!(frames.len(), 4);
    assert!(frames[0].is_keyframe());
    assert!(!frames[1].is_keyframe());
    assert!(!frames[2].is_keyframe());
    assert!(!frames[3].is_keyframe());
}

#[test]
fn aud_separates_frames() {
    let mut data = Vec::new();
    data.extend(nal4(NAL_AUD, 1));
    data.extend(nal4(NAL_IDR_SLICE, 100));
    data.extend(nal4(NAL_AUD, 1));
    data.extend(nal4(NAL_NON_IDR_SLICE, 50));
    let frames = index_h264(&data).unwrap();
    assert_eq!(frames.len(), 2);
    assert!(frames[0].is_keyframe());
    assert!(!frames[1].is_keyframe());
}

#[test]
fn nal_lengths_recorded_correctly() {
    let mut data = Vec::new();
    // SPS: 20 bytes payload → nal_len = 21 (1 nal_type byte + 20 payload)
    data.extend(nal4(NAL_SPS, 20));
    // IDR: 100 bytes payload → nal_len = 101
    data.extend(nal4(NAL_IDR_SLICE, 100));
    let frames = index_h264(&data).unwrap();
    assert_eq!(frames.len(), 1);
    // SPS (not AUD, so counted) + IDR = 2 NALs
    assert_eq!(frames[0].nal_count, 2);
    assert_eq!(frames[0].nal_lengths.len(), 2);
    assert_eq!(frames[0].nal_lengths[0], 21); // SPS
    assert_eq!(frames[0].nal_lengths[1], 101); // IDR
}

#[test]
fn three_byte_start_codes_accepted() {
    let mut data = Vec::new();
    data.extend(nal3(NAL_IDR_SLICE, 50));
    data.extend(nal3(NAL_NON_IDR_SLICE, 40));
    let frames = index_h264(&data).unwrap();
    assert_eq!(frames.len(), 2);
}

#[test]
fn sei_included_in_frame() {
    let mut data = Vec::new();
    data.extend(nal4(NAL_SEI, 10));
    data.extend(nal4(NAL_IDR_SLICE, 200));
    let frames = index_h264(&data).unwrap();
    assert_eq!(frames.len(), 1);
    assert!(frames[0].is_keyframe());
    assert_eq!(frames[0].nal_count, 2); // SEI + IDR
}

#[test]
fn frame_size_spans_full_au() {
    let mut data = Vec::new();
    data.extend(nal4(NAL_IDR_SLICE, 100));
    let frames = index_h264(&data).unwrap();
    assert_eq!(frames[0].frame_size as usize, data.len());
}

#[test]
fn empty_input_returns_empty() {
    let frames = index_h264(&[]).unwrap();
    assert!(frames.is_empty());
}

#[test]
fn no_slice_nal_returns_error_or_empty() {
    let mut data = Vec::new();
    data.extend(nal4(NAL_SPS, 20));
    data.extend(nal4(NAL_PPS, 5));
    let result = index_h264(&data);
    assert!(result.is_err() || result.unwrap().is_empty());
}

#[test]
fn find_start_codes_4byte() {
    let data = [0x00u8, 0x00, 0x00, 0x01, 0x67, 0x00, 0x00, 0x00, 0x01, 0x68];
    let scs = find_start_codes(&data);
    assert_eq!(scs.len(), 2);
    assert_eq!(scs[0], (0, 4));
    assert_eq!(scs[1], (5, 9));
}

#[test]
fn find_start_codes_3byte() {
    let data = [0x00u8, 0x00, 0x01, 0x65, 0x00, 0x00, 0x01, 0x41];
    let scs = find_start_codes(&data);
    assert_eq!(scs.len(), 2);
    assert_eq!(scs[0], (0, 3));
    assert_eq!(scs[1], (4, 7));
}

#[test]
fn aud_not_counted_in_nal_lengths() {
    let mut data = Vec::new();
    data.extend(nal4(NAL_AUD, 1));
    data.extend(nal4(NAL_IDR_SLICE, 80));
    let frames = index_h264(&data).unwrap();
    // AUD skipped → only IDR counted
    assert_eq!(frames[0].nal_count, 1);
    assert_eq!(frames[0].nal_lengths.len(), 1);
}

#[test]
fn frames_count_their_units() {
    let mut data = nal4(NAL_AUD, 1);
    data.extend(nal4(NAL_SPS, 4));
    data.extend(nal4(NAL_IDR_SLICE, 6));
    data.extend(nal3(NAL_NON_IDR_SLICE, 3));
    for f in index_h264(&data).unwrap() {
        assert_eq!(f.nal_count as usize, f.nal_lengths.len());
        assert!(f.flags & 0x02 != 0);
    }
    match index_track(&data).unwrap() {
        ParseResult::Vbr { frames, has_nal_lengths } => {
            assert!(has_nal_lengths);
            assert_eq!(frames.len(), 2);
            assert_eq!(frames[0].frame_size, 6 + 9 + 11);
            assert_eq!(frames[1].frame_size, 7);
        }
        _ => panic!("expected frames"),
    }
}

#[test]
fn streams_without_frames_are_refused() {
    assert_eq!(index_h264(&[1, 2, 3, 4]).unwrap_err(), "no Annex B start codes found");
    assert_eq!(index_h264(SC4).unwrap_err(), "no valid NAL units");
    assert_eq!(index_track(&[]).unwrap_err(), "no H.264 frames found");
    assert_eq!(
        index_track(&nal4(NAL_SPS, 2)).unwrap_err(),
        "parse error: no slice NAL units found after header filtering"
    );
}

#[test]
fn access_units_stand_where_their_sizes_add_up_to() {
    let mut data = Vec::new();
    data.extend(nal4(NAL_SPS, 4));
    data.extend(nal4(NAL_IDR_SLICE, 6));
    data.extend(nal3(NAL_NON_IDR_SLICE, 3));
    data.extend(nal4(NAL_AUD, 1));
    data.extend(nal4(NAL_NON_IDR_SLICE, 9));
    let frames = index_h264(&data).unwrap();
    let starts: Vec<usize> = frames
        .iter()
        .scan(0usize, |at, f| {
            let start = *at;
            *at += f.frame_size as usize;
            Some(start)
        })
        .collect();
    assert_eq!(starts, vec![0, 20, 27]);
    assert_eq!(frames.iter().map(|f| f.frame_size as usize).sum::<usize>(), data.len());
}

#[test]
fn indexed_frames_transform_with_their_lengths() {
    let mut data = nal4(NAL_SPS, 4);
    data.extend(nal3(NAL_IDR_SLICE, 6));
    data.extend(nal3(NAL_NON_IDR_SLICE, 3));
    let frames = index_h264(&data).unwrap();
    let mut at = 0usize;
    let mut outs = Vec::new();
    for f in &frames {
        let bytes = &data[at..at + f.frame_size as usize];
        let out = transform_avcc(bytes, &f.nal_lengths).unwrap();
        assert_eq!(out.len() as u64, 4 * f.nal_lengths.len() as u64 + f.nal_lengths.iter().sum::<u64>());
        outs.push(out);
        at += f.frame_size as usize;
    }
    let mut first = vec![0, 0, 0, 5, NAL_SPS];
    first.extend(vec![0xAA; 4]);
    first.extend_from_slice(&[0, 0, 0, 7, NAL_IDR_SLICE]);
    first.extend(vec![0xBB; 6]);
    assert_eq!(outs[0], first);
    assert_eq!(outs[1], vec![0, 0, 0, 4, NAL_NON_IDR_SLICE, 0xBB, 0xBB, 0xBB]);
}
