use std::collections::HashMap;
use std::sync::Arc;
use std::time::Duration;
use videofuser::binstruct::{
    BinstructFile, ClusterTimestamps, CodecType, Header, MkvSkeleton, Source, TrackEntryRecord, TrackPolicy,
};
use videofuser::muxer::coordinator::{block_payload, Muxer};
use videofuser::muxer::ebml::{
    find_child_payload, find_flag_default_value_offset, read_element_id, read_vint, track_entry_body,
};
use videofuser::muxer::layout::{
    build_simple_block_bytes, build_tracks_element_bytes, find_track_policy, simple_block_byte_len, LayoutSection,
    TrackMeta,
};
use videofuser::muxer::materializer::{frame_after_wait, materialize_frame, MaterializedFrame};
use videofuser::muxer::plan::{plan_layout, try_plan_layout};
use videofuser::muxer::types::{
    DownloadState, FullyAvailable, MemRawFile, MuxerError, ReadPolicy, TrackSource,
};
use videofuser::muxer::vfr_index::{is_indexable, LazyVfrIndex};
use videofuser::vfr::{FrameRecord, VfrFile};

/// Nothing has been downloaded.
struct Nothing;

impl DownloadState for Nothing {
    fn is_available(&self, _track_id: u32, _offset: u64, _len: u32) -> bool {
        false
    }

    fn wait_for(&self, _track_id: u32, _offset: u64, _len: u32, policy: ReadPolicy) -> Result<bool, MuxerError> {
        match policy {
            ReadPolicy::Block => Err(MuxerError::Shutdown),
            _ => Ok(false),
        }
    }
}

fn video_policy() -> TrackPolicy {
    TrackPolicy {
        track_id: 1,
        codec_type: CodecType::Video,
        language_code: "und".into(),
        frame_count: 3,
        is_vbr: true,
        frame_duration: 500,
        cbr_frame_size: None,
        raw_file_hash: [0; 32],
        vfr_file_hash: Some([0; 32]),
    }
}

fn audio_policy() -> TrackPolicy {
    TrackPolicy {
        track_id: 2,
        codec_type: CodecType::Audio,
        language_code: "eng".into(),
        frame_count: 4,
        is_vbr: false,
        frame_duration: 500,
        cbr_frame_size: Some(10),
        raw_file_hash: [0; 32],
        vfr_file_hash: None,
    }
}

fn binstruct(deltas: Vec<i64>) -> BinstructFile {
    BinstructFile {
        header: Header { version: 1, config_flags: 0 },
        source: Source {
            original_mkv_hash: [0; 32],
            publisher_info: String::new(),
            creation_timestamp: 0,
            original_language: "eng".into(),
            original_default_track_id: 2,
            build_tools: vec![],
        },
        mkv_skeleton: MkvSkeleton {
            pre_tracks_blob: b"PRE".to_vec(),
            track_entries: vec![
                TrackEntryRecord { track_id: 1, bytes: vec![0xAE, 0x86, 0xD7, 0x81, 0x01, 0x88, 0x81, 0x01] },
                TrackEntryRecord { track_id: 2, bytes: vec![0xAE, 0x86, 0xD7, 0x81, 0x02, 0x88, 0x81, 0x00] },
            ],
            post_tracks_blob: b"POST".to_vec(),
        },
        cluster_timestamps: ClusterTimestamps { cluster_count: deltas.len() as u64, deltas },
        track_policies: vec![video_policy(), audio_policy()],
    }
}

fn video_vfr() -> VfrFile {
    VfrFile {
        version: 1,
        flags: 0x01,
        frames: vec![
            FrameRecord { frame_size: 6, flags: 0x03, nal_count: 1, duration_delta: 0 },
            FrameRecord { frame_size: 7, flags: 0x02, nal_count: 1, duration_delta: 0 },
            FrameRecord { frame_size: 8, flags: 0x03, nal_count: 1, duration_delta: 0 },
        ],
        nal_lengths: vec![2, 3, 4],
    }
}

fn sources() -> HashMap<u32, TrackSource> {
    let mut raw = Vec::new();
    for n in 2..5u8 {
        raw.extend_from_slice(&[0, 0, 0, 1]);
        raw.extend(vec![0xA0 + n; n as usize]);
    }
    let mut map = HashMap::new();
    map.insert(
        1u32,
        TrackSource {
            track_id: 1,
            raw_file: Arc::new(MemRawFile::new(raw)),
            vfr: Some(Arc::new(video_vfr())),
            policy: video_policy(),
        },
    );
    map.insert(
        2u32,
        TrackSource {
            track_id: 2,
            raw_file: Arc::new(MemRawFile::new((0u8..40).collect())),
            vfr: None,
            policy: audio_policy(),
        },
    );
    map
}

fn muxer(b: BinstructFile, policy: ReadPolicy, download: Arc<dyn DownloadState>) -> Muxer {
    Muxer::try_new(Arc::new(b), sources(), vec![2, 1, 2], 2, policy, download).unwrap().unwrap()
}

fn whole(m: &Muxer) -> Vec<u8> {
    m.read(0, m.total_size() as u32).unwrap()
}

#[test]
fn the_virtual_file_is_exactly_this() {
    let m = muxer(binstruct(vec![0, 1000]), ReadPolicy::Block, Arc::new(FullyAvailable));
    let mut expected = b"PRE".to_vec();
    // Tracks, with FlagDefault moved to track 2.
    expected.extend_from_slice(&[0x16, 0x54, 0xAE, 0x6B, 0x90]);
    expected.extend_from_slice(&[0xAE, 0x86, 0xD7, 0x81, 0x01, 0x88, 0x81, 0x00]);
    expected.extend_from_slice(&[0xAE, 0x86, 0xD7, 0x81, 0x02, 0x88, 0x81, 0x01]);
    expected.extend_from_slice(b"POST");
    let first = expected.len() as u64;
    let cluster = |ts: u16| {
        let mut c = vec![0x1F, 0x43, 0xB6, 0x75, 0x01, 0xFF, 0xFF, 0xFF, 0xFF, 0xFF, 0xFF, 0xFF, 0xE7, 0x88];
        c.extend_from_slice(&(ts as u64).to_be_bytes());
        c
    };
    let video = |n: u8, rel: u16, flags: u8| {
        let mut b = vec![0xA3, 0x80 | (4 + 4 + n), 0x81];
        b.extend_from_slice(&rel.to_be_bytes());
        b.push(flags);
        b.extend_from_slice(&(n as u32).to_be_bytes());
        b.extend(vec![0xA0 + n; n as usize]);
        b
    };
    let audio = |i: u8, rel: u16| {
        let mut b = vec![0xA3, 0x80 | (4 + 10), 0x82];
        b.extend_from_slice(&rel.to_be_bytes());
        b.push(0x80);
        b.extend(10 * i..10 * i + 10);
        b
    };
    expected.extend(cluster(0));
    expected.extend(video(2, 0, 0x80));
    expected.extend(video(3, 500, 0x00));
    expected.extend(audio(0, 0));
    expected.extend(audio(1, 500));
    let second = expected.len() as u64;
    expected.extend(cluster(1000));
    expected.extend(video(4, 0, 0x80));
    expected.extend(audio(2, 0));
    expected.extend(audio(3, 500));
    let cues = expected.len() as u64;
    // A CuePoint for each video keyframe: at 0 in the first cluster, at 1000 in the second.
    expected.extend_from_slice(&[0x1C, 0x53, 0xBB, 0x6B]);
    let point = |time: &[u8], offset: u64| {
        let mut p = vec![0xB3, 0x80 | time.len() as u8];
        p.extend_from_slice(time);
        let place: Vec<u8> = vec![offset as u8];
        p.extend_from_slice(&[0xB7, 0x86, 0xF7, 0x81, 0x01, 0xF1, 0x81]);
        p.extend(place);
        let mut out = vec![0xBB, 0x80 | p.len() as u8];
        out.extend(p);
        out
    };
    let mut points = point(&[0x00], first);
    points.extend(point(&[0x03, 0xE8], second));
    expected.push(0x80 | points.len() as u8);
    expected.extend(points);
    let bytes = whole(&m);
    assert_eq!(bytes[..expected.len()], expected[..]);
    assert_eq!(m.cluster_offsets(), &[first, second]);
    // SeekHead: Info, Tracks, Cues, and what stands after the tracks.
    let seek = &bytes[expected.len()..];
    assert_eq!(&seek[..4], &[0x11, 0x4D, 0x9B, 0x74]);
    assert!(seek.windows(9).any(|w| w == [0x16, 0x54, 0xAE, 0x6B, 0x53, 0xAC, 0x81, 0x03, 0x4D]));
    assert!(seek.windows(8).any(|w| w == [0x1C, 0x53, 0xBB, 0x6B, 0x53, 0xAC, 0x81, cues as u8]));
    assert!(seek.windows(8).any(|w| w == [0x10, 0x43, 0xA7, 0x70, 0x53, 0xAC, 0x81, (first - 4) as u8]));
}

#[test]
fn each_frame_has_one_block() {
    let b = binstruct(vec![0, 300, 700]);
    let metas = metas();
    let layout = plan_layout(&b, &[1, 2], &metas, 2).unwrap();
    let frames = |t: u32| -> Vec<u32> {
        layout
            .sections
            .iter()
            .filter_map(|e| match e.section {
                LayoutSection::SimpleBlock { track_id, frame_index, .. } if track_id == t => Some(frame_index),
                _ => None,
            })
            .collect()
    };
    assert_eq!(frames(1), vec![0, 1, 2]);
    assert_eq!(frames(2), vec![0, 1, 2, 3]);
    assert_eq!(frames(3), Vec::<u32>::new());
    let only = plan_layout(&b, &[2], &metas, 2).unwrap();
    assert!(only.sections.iter().all(|e| !matches!(e.section, LayoutSection::SimpleBlock { track_id: 1, .. })));
    let sum: u64 = layout.sections.iter().map(|e| e.byte_len).sum();
    assert_eq!(sum, layout.total_size);
}

fn metas() -> HashMap<u32, TrackMeta> {
    let mut m = HashMap::new();
    m.insert(
        1u32,
        TrackMeta {
            track_id: 1,
            track_number: 1,
            codec_type: CodecType::Video,
            frame_count: 3,
            frame_duration: 500,
            cbr_frame_size: None,
            vfr_index: Some(Arc::new(LazyVfrIndex::new(Arc::new(video_vfr()), 500))),
        },
    );
    m.insert(
        2u32,
        TrackMeta {
            track_id: 2,
            track_number: 2,
            codec_type: CodecType::Audio,
            frame_count: 4,
            frame_duration: 500,
            cbr_frame_size: Some(10),
            vfr_index: None,
        },
    );
    m
}

#[test]
fn adjacent_reads_give_what_one_read_gives() {
    let m = muxer(binstruct(vec![0, 1000]), ReadPolicy::Block, Arc::new(FullyAvailable));
    let both = m.read(10, 150).unwrap();
    let mut parts = m.read(10, 37).unwrap();
    parts.extend(m.read(47, 113).unwrap());
    assert_eq!(parts, both);
}

#[test]
fn missing_bytes_are_zeros() {
    let full = whole(&muxer(binstruct(vec![0]), ReadPolicy::Block, Arc::new(FullyAvailable)));
    let empty = muxer(binstruct(vec![0]), ReadPolicy::NonBlock, Arc::new(Nothing));
    let bytes = whole(&empty);
    assert_eq!(bytes.len(), full.len());
    // The first block: head as planned, payload zero.
    let start = empty.cluster_offsets()[0] as usize + 22;
    assert_eq!(bytes[start..start + 6], full[start..start + 6]);
    assert_eq!(bytes[start + 6..start + 12], [0u8; 6]);
    assert_ne!(full[start + 6..start + 12], [0u8; 6]);
    let timed = muxer(binstruct(vec![0]), ReadPolicy::Timeout(Duration::from_millis(1)), Arc::new(Nothing));
    assert_eq!(whole(&timed), bytes);
}

/// All but one range has been downloaded.
struct AllBut {
    track_id: u32,
    offset: u64,
}

impl DownloadState for AllBut {
    fn is_available(&self, track_id: u32, offset: u64, _len: u32) -> bool {
        track_id != self.track_id || offset != self.offset
    }

    fn wait_for(&self, track_id: u32, offset: u64, len: u32, policy: ReadPolicy) -> Result<bool, MuxerError> {
        match policy {
            ReadPolicy::Block => Ok(true),
            _ => Ok(self.is_available(track_id, offset, len)),
        }
    }
}

#[test]
fn only_the_missing_frame_is_zeros() {
    let full = whole(&muxer(binstruct(vec![0]), ReadPolicy::Block, Arc::new(FullyAvailable)));
    // Frame 1 of the audio track: ten bytes at offset 10.
    let missing = || Arc::new(AllBut { track_id: 2, offset: 10 });
    let at = full.windows(10).position(|w| w == (10u8..20).collect::<Vec<u8>>().as_slice()).unwrap();
    let mut expected = full.clone();
    expected[at..at + 10].copy_from_slice(&[0u8; 10]);
    for policy in [ReadPolicy::NonBlock, ReadPolicy::Timeout(Duration::from_millis(1))] {
        assert_eq!(whole(&muxer(binstruct(vec![0]), policy, missing())), expected);
    }
    assert_eq!(whole(&muxer(binstruct(vec![0]), ReadPolicy::Block, missing())), full);
}

#[test]
fn errors_that_need_no_bytes_come_before_any_wait() {
    let far = muxer(binstruct(vec![40_000]), ReadPolicy::Block, Arc::new(Nothing));
    assert!(matches!(far.read(0, far.total_size() as u32), Err(MuxerError::InvalidBinstruct(_))));
    let mut s = sources();
    s.remove(&2);
    let gone = Muxer::try_new(
        Arc::new(binstruct(vec![0])),
        s,
        vec![2],
        2,
        ReadPolicy::Block,
        Arc::new(Nothing),
    )
    .unwrap()
    .unwrap();
    assert_eq!(gone.read(0, gone.total_size() as u32).unwrap_err(), MuxerError::MissingTrack(2));
}

#[test]
fn a_wait_that_is_shut_down_fails_the_read() {
    let m = muxer(binstruct(vec![0]), ReadPolicy::Block, Arc::new(Nothing));
    assert_eq!(m.read(0, m.total_size() as u32).unwrap_err(), MuxerError::Shutdown);
    assert_eq!(m.read(0, 3).unwrap(), b"PRE");
}

#[test]
fn a_frame_is_what_its_wait_allows() {
    let s = sources();
    let source = &s[&2];
    match frame_after_wait(source, 1, 10, 10, Ok(true)).unwrap() {
        MaterializedFrame::Bytes(b) => assert_eq!(b, (10u8..20).collect::<Vec<u8>>()),
        _ => panic!("expected bytes"),
    }
    assert!(matches!(
        frame_after_wait(source, 1, 10, 10, Ok(false)),
        Ok(MaterializedFrame::Unavailable { frame_offset: 10, frame_len: 10 })
    ));
    assert!(matches!(
        frame_after_wait(source, 1, 10, 10, Err(MuxerError::Shutdown)),
        Err(MuxerError::Shutdown)
    ));
    match frame_after_wait(source, 9, 35, 10, Ok(true)) {
        Err(MuxerError::Io(s)) => assert_eq!(s, "short read: expected 10 got 5 for track 2 frame 9"),
        _ => panic!("expected an error"),
    }
    assert!(matches!(
        materialize_frame(source, 0, None, &Nothing, ReadPolicy::NonBlock),
        Ok(MaterializedFrame::Unavailable { frame_offset: 0, frame_len: 10 })
    ));
}

#[test]
fn payloads_must_have_the_planned_size() {
    let idx = LazyVfrIndex::new(Arc::new(video_vfr()), 500);
    let frame = || MaterializedFrame::Bytes(vec![0, 0, 1, 7, 8]);
    assert_eq!(
        block_payload(CodecType::Video, Some(&idx), 1, 0, 6, frame()).unwrap(),
        vec![0, 0, 0, 2, 7, 8]
    );
    assert_eq!(block_payload(CodecType::Audio, None, 2, 0, 5, frame()).unwrap(), vec![0, 0, 1, 7, 8]);
    assert_eq!(
        block_payload(CodecType::Audio, None, 2, 0, 6, frame()).unwrap_err(),
        MuxerError::InvalidBitstream(
            "transformed payload size mismatch: expected 6 got 5 for track 2 frame 0".into()
        )
    );
    assert_eq!(
        block_payload(CodecType::Video, None, 1, 0, 6, frame()).unwrap_err(),
        MuxerError::InvalidBinstruct("video track 1 requires VFR for AVCC transform".into())
    );
    let missing = MaterializedFrame::Unavailable { frame_offset: 0, frame_len: 1 };
    assert_eq!(block_payload(CodecType::Video, Some(&idx), 1, 0, 3, missing).unwrap(), vec![0, 0, 0]);
}

fn refusal(b: BinstructFile, filter: Vec<u32>) -> MuxerError {
    match Muxer::new(Arc::new(b), sources(), filter, 2, ReadPolicy::Block, Arc::new(FullyAvailable)) {
        Err(e) => e,
        Ok(_) => panic!("expected an error"),
    }
}

#[test]
fn broken_files_are_refused() {
    assert_eq!(refusal(binstruct(vec![0]), vec![1, 9]), MuxerError::MissingTrack(9));
    assert_eq!(
        refusal(binstruct(vec![5, -6]), vec![1]),
        MuxerError::InvalidBinstruct("negative absolute cluster timestamp".into())
    );
    let mut b = binstruct(vec![0]);
    b.cluster_timestamps.cluster_count = 2;
    assert_eq!(
        refusal(b, vec![1]),
        MuxerError::InvalidBinstruct("cluster deltas length != cluster_count".into())
    );
    let mut b = binstruct(vec![0]);
    b.mkv_skeleton.track_entries[0].bytes = vec![0x88, 0x82, 0x00, 0x01];
    assert_eq!(refusal(b, vec![1]), MuxerError::InvalidBitstream("FlagDefault must be 1 byte".into()));
}

#[test]
fn times_far_from_their_cluster_fail_the_read() {
    let m = muxer(binstruct(vec![40_000]), ReadPolicy::Block, Arc::new(FullyAvailable));
    match m.read(0, m.total_size() as u32) {
        Err(MuxerError::InvalidBinstruct(s)) => {
            assert_eq!(s, "SimpleBlock relative timestamp -40000 overflows i16 for track 1 frame 0")
        }
        _ => panic!("expected an error"),
    }
}

#[test]
fn tracks_without_their_index_are_left_out() {
    let build = |sources: HashMap<u32, TrackSource>, filter: Vec<u32>| {
        Muxer::try_new(
            Arc::new(binstruct(vec![0, 1000])),
            sources,
            filter,
            2,
            ReadPolicy::Block,
            Arc::new(FullyAvailable),
        )
        .unwrap()
        .unwrap()
    };
    let mut s = sources();
    s.get_mut(&1).unwrap().vfr = None;
    let without = build(s, vec![1, 2]);
    let alone = build(sources(), vec![2]);
    assert_eq!(whole(&without), whole(&alone));
    assert_ne!(whole(&build(sources(), vec![1, 2])), whole(&alone));
}

#[test]
fn tracks_without_their_index_cannot_be_planned() {
    let mut m = metas();
    m.get_mut(&1).unwrap().vfr_index = None;
    assert!(try_plan_layout(&binstruct(vec![0, 1000]), &[1], &m, 2).is_none());
    assert!(try_plan_layout(&binstruct(vec![0, 1000]), &[2], &m, 2).is_some());
}

#[test]
fn sums_that_do_not_fit_cannot_be_planned() {
    let mut b = binstruct(vec![0]);
    b.track_policies[1].frame_duration = u64::MAX;
    let made = Muxer::try_new(Arc::new(b), sources(), vec![2], 2, ReadPolicy::Block, Arc::new(FullyAvailable));
    assert!(made.is_none());
}

#[test]
fn raw_lengths_are_those_of_the_sources() {
    let m = muxer(binstruct(vec![0]), ReadPolicy::Block, Arc::new(FullyAvailable));
    assert_eq!(m.raw_frame_len(1, 1).unwrap(), 7);
    assert_eq!(m.raw_frame_len(2, 3).unwrap(), 10);
    assert_eq!(m.raw_frame_len(8, 0).unwrap_err(), MuxerError::MissingTrack(8));
}

#[test]
fn patches_touch_one_byte() {
    let b = binstruct(vec![0]);
    let one = build_tracks_element_bytes(&b, &[1, 2], 1).unwrap();
    let two = build_tracks_element_bytes(&b, &[1, 2], 2).unwrap();
    assert_eq!(one.len(), two.len());
    assert_eq!(one.iter().zip(two.iter()).filter(|(a, b)| a != b).count(), 2);
    let entry = &two[13..21];
    assert_eq!(find_flag_default_value_offset(entry).unwrap(), Some(7));
    assert_eq!(entry[7], 1);
    assert_eq!(find_track_policy(&b, 2).unwrap().language_code, "eng");
    assert!(find_track_policy(&b, 3).is_none());
}

#[test]
fn frames_are_found_by_time() {
    let m = metas();
    assert_eq!(m[&2].frame_at_time(0), 0);
    assert_eq!(m[&2].frame_at_time(501), 2);
    assert_eq!(m[&2].frame_at_time(u64::MAX), 4);
    assert_eq!(m[&2].frame_time(3), 1500);
    assert_eq!(m[&1].frame_at_time(501), 2);
    assert_eq!(m[&1].payload_size(2), 8);
    assert_eq!(m[&2].payload_size(0), 10);
    assert!(m[&2].is_cbr());
    assert!(m[&1].is_keyframe(2));
    assert!(!m[&1].is_keyframe(1));
}

#[test]
fn frame_sizes_are_not_cut_to_32_bits() {
    let sized = |nal_lengths: Vec<u64>| {
        let frames = vec![FrameRecord {
            frame_size: 1,
            flags: 1,
            nal_count: nal_lengths.len() as u8,
            duration_delta: 0,
        }];
        let vfr = VfrFile { version: 1, flags: 1, frames, nal_lengths };
        TrackMeta {
            track_id: 1,
            track_number: 1,
            codec_type: CodecType::Video,
            frame_count: 1,
            frame_duration: 500,
            cbr_frame_size: None,
            vfr_index: Some(Arc::new(LazyVfrIndex::new(Arc::new(vfr), 500))),
        }
        .checked_payload_size(0)
    };
    assert_eq!(sized(vec![10, 5]), Some(23));
    assert_eq!(sized(vec![u32::MAX as u64 - 4]), Some(u32::MAX));
    assert_eq!(sized(vec![u32::MAX as u64 - 3]), None);
    assert_eq!(sized(vec![u32::MAX as u64 + 2]), None);
    assert_eq!(sized(vec![u64::MAX]), None);
    assert_eq!(sized(vec![u64::MAX, 1]), None);
}

#[test]
fn times_that_go_back_are_searched_too() {
    let frames = vec![
        FrameRecord { frame_size: 1, flags: 0, nal_count: 0, duration_delta: 20 },
        FrameRecord { frame_size: 1, flags: 0, nal_count: 0, duration_delta: -25 },
        FrameRecord { frame_size: 1, flags: 0, nal_count: 0, duration_delta: 0 },
    ];
    assert!(is_indexable(&frames));
    let vfr = VfrFile { version: 1, flags: 0, frames, nal_lengths: vec![] };
    let idx = LazyVfrIndex::new(Arc::new(vfr), 10);
    assert_eq!(idx.frame_time(1), 30);
    assert!(idx.frame_time(2) < 30);
    assert_eq!(idx.frame_at_time(20), 1);
}

#[test]
fn blocks_are_as_long_as_planned() {
    for (number, size) in [(1u64, 0usize), (1, 122), (1, 123), (127, 5), (300, 70_000)] {
        let b = build_simple_block_bytes(number, -1, true, &vec![9u8; size]);
        assert_eq!(b.len() as u64, simple_block_byte_len(number, size as u32));
    }
    assert_eq!(build_simple_block_bytes(1, -2, false, &[7]), vec![0xA3, 0x85, 0x81, 0xFF, 0xFE, 0x00, 0x07]);
}

#[test]
fn broken_elements_are_told() {
    let text = |e: MuxerError| match e {
        MuxerError::InvalidBitstream(s) => s,
        _ => panic!("expected a broken stream"),
    };
    assert_eq!(text(read_vint(&[], 0).unwrap_err()), "unexpected EOF reading VINT");
    assert_eq!(text(read_vint(&[0], 0).unwrap_err()), "invalid VINT leading 0");
    assert_eq!(text(read_vint(&[0x40], 0).unwrap_err()), "truncated VINT");
    assert_eq!(text(read_element_id(&[0], 0).unwrap_err()), "invalid element ID");
    assert_eq!(text(track_entry_body(&[]).unwrap_err()), "empty TrackEntry blob");
    assert_eq!(text(track_entry_body(&[0xAE, 0x85, 0x00]).unwrap_err()), "TrackEntry size overflows blob");
    assert_eq!(text(find_child_payload(&[0xD7, 0x85], &[0xD7]).unwrap_err()), "child element overflows blob");
    assert!(find_child_payload(&[0xD7, 0x81, 0x05], &[0x88]).unwrap().is_none());
}
