use videofuser::muxer::transformer::{transform_avcc, transform_raw};
use videofuser::muxer::types::MuxerError;

#[test]
fn raw_identity() {
    let input = vec![1, 2, 3, 4, 5];
    assert_eq!(transform_raw(&input), input);
}

#[test]
fn avcc_4byte_start_code() {
    let mut input = Vec::new();
    input.extend_from_slice(&[0, 0, 0, 1]);
    input.extend((0u8..10u8).collect::<Vec<_>>());
    input.extend_from_slice(&[0, 0, 0, 1]);
    input.extend(vec![0xAA; 5]);
    let nal_lengths = vec![10u64, 5];
    let got = transform_avcc(&input, &nal_lengths).unwrap();
    let mut expected = Vec::new();
    expected.extend_from_slice(&10u32.to_be_bytes());
    expected.extend((0u8..10u8).collect::<Vec<_>>());
    expected.extend_from_slice(&5u32.to_be_bytes());
    expected.extend(vec![0xAA; 5]);
    assert_eq!(got, expected);
}

#[test]
fn avcc_3byte_start_code() {
    let mut input = Vec::new();
    input.extend_from_slice(&[0, 0, 1]);
    input.extend((0u8..10u8).collect::<Vec<_>>());
    input.extend_from_slice(&[0, 0, 1]);
    input.extend(vec![0xAA; 5]);
    let nal_lengths = vec![10u64, 5];
    let got = transform_avcc(&input, &nal_lengths).unwrap();
    let mut expected = Vec::new();
    expected.extend_from_slice(&10u32.to_be_bytes());
    expected.extend((0u8..10u8).collect::<Vec<_>>());
    expected.extend_from_slice(&5u32.to_be_bytes());
    expected.extend(vec![0xAA; 5]);
    assert_eq!(got, expected);
}

#[test]
fn avcc_mixed_start_codes() {
    let mut input = Vec::new();
    // First NAL with 4-byte start code
    input.extend_from_slice(&[0, 0, 0, 1]);
    input.extend(vec![0x11; 4]);
    // Second NAL with 3-byte start code
    input.extend_from_slice(&[0, 0, 1]);
    input.extend(vec![0x22; 3]);
    let got = transform_avcc(&input, &[4u64, 3]).unwrap();
    assert_eq!(&got[..4], &4u32.to_be_bytes());
    assert_eq!(&got[4..8], &[0x11; 4]);
    assert_eq!(&got[8..12], &3u32.to_be_bytes());
    assert_eq!(&got[12..15], &[0x22; 3]);
}

#[test]
fn avcc_missing_start_code_errors() {
    let input = vec![1, 2, 3, 4]; // no start code
    let err = transform_avcc(&input, &[4]).unwrap_err();
    assert!(matches!(err, MuxerError::InvalidBitstream(_)));
}
