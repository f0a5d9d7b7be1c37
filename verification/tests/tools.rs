use std::path::PathBuf;
use videofuser::binstruct::codec::are_storable;
use videofuser::binstruct::{
    BinstructFile, ClusterTimestamps, CodecType, Header, MkvSkeleton, Source, ToolEntry, TrackEntryRecord,
    TrackPolicy,
};
use videofuser::hash::sha256_file;
use videofuser::manifest::codec::{parse_ebml, serialize_ebml};
use videofuser::manifest::formats::{parse_md, parse_nfo, parse_xml};
use videofuser::manifest::{Manifest, ManifestTrack, TrackKind, VariantEntry};
use videofuser::muxer::types::{MemRawFile, MuxerError, RawFile};
use videofuser::tools::gen::{
    assemble, cbr_json_name, check_cbr, checked_deltas, default_track, find_file, first_line_of, locate_track,
    make_policies, raw_pattern, read_vfr, timestamps_to_deltas, tool_entry, CbrMeta, GenArgs, Located, Origin,
    TrackFiles, VfrLoadError,
};
use videofuser::tools::inspect::{describe, fmt_iso8601, hex_encode};
use videofuser::tools::mkv::{
    collect_cluster_timestamps, decode_uint, parse_mkv, read_element_header, MkvError, ParsedMkv,
};
use videofuser::tools::verify::{check_track, check_tracks, RawState, TrackState, VfrState};
use videofuser::tools::verify_manifest::{compare, compare_best_effort, cross_check, is_manifest_name};
use videofuser::vfr::{FrameRecord, VfrError, VfrFile};

fn vint_encode(value: u64) -> Vec<u8> {
    let n = match value {
        0..=0x7E => 1,
        0..=0x3FFE => 2,
        0..=0x1FFFFE => 3,
        0..=0x0FFFFFFE => 4,
        _ => 5,
    };
    let marker = 0x80u8 >> (n - 1);
    let be = value.to_be_bytes();
    let mut out = vec![0u8; n];
    out[..n].copy_from_slice(&be[8 - n..]);
    out[0] |= marker;
    out
}

fn encode_uint_be(value: u64) -> Vec<u8> {
    if value == 0 { return vec![0]; }
    let be = value.to_be_bytes();
    let skip = be.iter().position(|&b| b != 0).unwrap_or(7);
    be[skip..].to_vec()
}

/// Write a complete EBML element with multi-byte ID (ID written as raw bytes).
fn elem(id_bytes: &[u8], payload: &[u8]) -> Vec<u8> {
    let mut out = Vec::new();
    out.extend_from_slice(id_bytes);
    out.extend_from_slice(&vint_encode(payload.len() as u64));
    out.extend_from_slice(payload);
    out
}

/// Write an EBML element with 1-byte ID.
fn elem1(id: u8, payload: &[u8]) -> Vec<u8> {
    elem(&[id], payload)
}

/// Master element (same as elem, just named for clarity).
fn master(id_bytes: &[u8], children: &[u8]) -> Vec<u8> {
    elem(id_bytes, children)
}

/// Build a minimal EBML Header.
fn build_ebml_header() -> Vec<u8> {
    let mut body = Vec::new();
    body.extend(elem(&[0x42, 0x82], b"matroska")); // DocType
    body.extend(elem(&[0x42, 0x87], &encode_uint_be(4))); // DocTypeVersion
    body.extend(elem(&[0x42, 0x85], &encode_uint_be(2))); // DocTypeReadVersion
    master(&[0x1A, 0x45, 0xDF, 0xA3], &body)
}

/// Build a minimal Segment Info element.
fn build_info() -> Vec<u8> {
    let mut body = Vec::new();
    body.extend(elem(&[0x2A, 0xD7, 0xB1], &encode_uint_be(1_000_000))); // TimestampScale
    master(&[0x15, 0x49, 0xA9, 0x66], &body)
}

/// Build a TrackEntry for video (type=1).
fn build_video_track(track_id: u64) -> Vec<u8> {
    let mut body = Vec::new();
    body.extend(elem1(0xD7, &encode_uint_be(track_id))); // TrackNumber
    body.extend(elem(&[0x73, 0xC5], &encode_uint_be(track_id))); // TrackUID
    body.extend(elem1(0x83, &[1u8])); // TrackType = video
    body.extend(elem1(0x88, &[0u8])); // FlagDefault = 0
    body.extend(elem1(0x86, b"V_MPEG4/ISO/AVC")); // CodecID
    // Video sub-element
    let mut video = Vec::new();
    video.extend(elem1(0xB0, &encode_uint_be(1920))); // PixelWidth
    video.extend(elem1(0xBA, &encode_uint_be(1080))); // PixelHeight
    body.extend(elem1(0xE0, &video));
    elem1(0xAE, &body) // TrackEntry
}

/// Build a TrackEntry for audio (type=2) with optional FlagDefault.
fn build_audio_track(track_id: u64, flag_default: u8, lang: &str) -> Vec<u8> {
    let mut body = Vec::new();
    body.extend(elem1(0xD7, &encode_uint_be(track_id))); // TrackNumber
    body.extend(elem(&[0x73, 0xC5], &encode_uint_be(track_id))); // TrackUID
    body.extend(elem1(0x83, &[2u8])); // TrackType = audio
    body.extend(elem1(0x88, &[flag_default])); // FlagDefault
    body.extend(elem(&[0x22, 0xB5, 0x9C], lang.as_bytes())); // Language
    body.extend(elem1(0x86, b"A_AC3")); // CodecID
    elem1(0xAE, &body) // TrackEntry
}

/// Build a minimal Cluster with a given timestamp (ms).
fn build_cluster(ts: u64) -> Vec<u8> {
    let mut body = Vec::new();
    body.extend(elem1(0xE7, &encode_uint_be(ts))); // Timestamp
    master(&[0x1F, 0x43, 0xB6, 0x75], &body)
}

/// Build a complete minimal MKV with 1 video + 1 audio track and N clusters.
fn build_synthetic_mkv(
    video_track_id: u64,
    audio_track_id: u64,
    audio_flag_default: u8,
    audio_lang: &str,
    cluster_timestamps: &[u64],
) -> Vec<u8> {
    let mut out = Vec::new();
    out.extend(build_ebml_header());

    let mut seg_body = Vec::new();
    seg_body.extend(build_info());

    // Tracks
    let mut tracks_body = Vec::new();
    tracks_body.extend(build_video_track(video_track_id));
    tracks_body.extend(build_audio_track(audio_track_id, audio_flag_default, audio_lang));
    seg_body.extend(master(&[0x16, 0x54, 0xAE, 0x6B], &tracks_body));

    // Clusters
    for &ts in cluster_timestamps {
        seg_body.extend(build_cluster(ts));
    }

    out.extend(master(&[0x18, 0x53, 0x80, 0x67], &seg_body));
    out
}

fn names(list: &[&str]) -> Vec<String> {
    list.iter().map(|s| s.to_string()).collect()
}

fn video_vfr_bytes() -> Vec<u8> {
    let vfr = VfrFile {
        version: 1,
        flags: 0,
        frames: vec![
            FrameRecord { frame_size: 512, flags: 0x01, nal_count: 0, duration_delta: 0 },
            FrameRecord { frame_size: 256, flags: 0x00, nal_count: 0, duration_delta: 0 },
            FrameRecord { frame_size: 256, flags: 0x01, nal_count: 0, duration_delta: 0 },
        ],
        nal_lengths: vec![],
    };
    let mut bytes = Vec::new();
    vfr.write_to(&mut bytes).unwrap();
    bytes
}

fn gen_args(publisher: &str, compress: bool) -> GenArgs {
    GenArgs {
        mkv: PathBuf::from("test.mkv"),
        torrent_root: PathBuf::from("."),
        publisher: publisher.to_string(),
        compress,
        output: PathBuf::from("out.binstruct.ebml"),
    }
}

fn parsed(mkv: &[u8]) -> ParsedMkv {
    parse_mkv(&MemRawFile::new(mkv.to_vec())).unwrap()
}

#[test]
fn test_gen_from_synthetic_mkv() {
    let mkv_bytes = build_synthetic_mkv(1, 2, 1, "spa", &[0, 1000, 2000]);
    let mkv = parsed(&mkv_bytes);
    let (id, language) = default_track(&mkv.track_entries).unwrap();

    // CBR audio: frame_count=10, cbr_frame_size=128 → file_size=1280
    let video = names(&["base_v01_1080p_00.h264"]);
    let audio = names(&["base_a002_spa_00_00.ac3"]);
    let vfr = names(&["base_v01_00.vfr"]);
    assert_eq!(
        locate_track(&mkv.track_entries[0], &video, &audio, &vfr),
        Located::Found { raw: 0, vfr: Some(0) }
    );
    assert!(matches!(
        locate_track(&mkv.track_entries[1], &video, &audio, &vfr),
        Located::Found { raw: 0, vfr: None }
    ));
    let meta = CbrMeta {
        frame_count: 10,
        cbr_frame_size: 128,
        file_size_bytes: 1280,
        frame_duration_ns: 32_000_000,
    };
    assert!(check_cbr(2, &meta, 1280).is_ok());
    let frames = read_vfr(&video_vfr_bytes()).unwrap().frames.len() as u64;
    let raw_file_hash = sha256_file(&MemRawFile::new(vec![0u8; 1024])).unwrap();
    let vfr_file_hash = sha256_file(&MemRawFile::new(video_vfr_bytes())).unwrap();
    let audio_hash = sha256_file(&MemRawFile::new(vec![0u8; 1280])).unwrap();
    let files = vec![
        (1u64, TrackFiles::Vbr { raw_file_hash, vfr_file_hash, frame_count: frames }),
        (2u64, TrackFiles::Cbr { raw_file_hash: audio_hash, meta }),
    ];
    let policies = make_policies(&mkv.track_entries, &files).unwrap();
    let origin = Origin {
        original_mkv_hash: sha256_file(&MemRawFile::new(mkv_bytes)).unwrap(),
        creation_timestamp: 0,
        build_tools: vec![tool_entry("ffmpeg", None)],
    };
    let file = assemble(mkv, gen_args("TestPub", false), origin, language, id, policies).unwrap();
    assert!(are_storable(&file.cluster_timestamps.deltas));
    let bytes = file.serialize().unwrap();
    let bf = BinstructFile::deserialize(&bytes).expect("deserialize binstruct");

    assert_eq!(bf.source.original_language, "spa");
    assert_eq!(bf.track_policies.len(), 2);
    assert_eq!(bf.cluster_timestamps.cluster_count, 3);
    assert_eq!(bf.source.publisher_info, "TestPub");
    assert_eq!(bf.cluster_timestamps.deltas, vec![0, 1000, 1000]);
    assert_eq!(bf.source.original_default_track_id, 2);
    assert_eq!(bf.source.build_tools[0].version, "not found");
    assert_eq!(bf.track_policies[0].frame_count, 3);
    assert_eq!(bf.track_policies[0].language_code, "und");
    assert!(bf.track_policies[0].is_vbr);
    assert_eq!(bf.track_policies[1].cbr_frame_size, Some(128));
    assert_eq!(bf.track_policies[1].frame_duration, 32_000_000);
    assert!(matches!(bf.track_policies[1].codec_type, CodecType::Audio));
}

#[test]
fn test_gen_fails_no_flagdefault() {
    // audio FlagDefault=0
    let mkv = parsed(&build_synthetic_mkv(1, 2, 0, "spa", &[0, 1000]));
    assert_eq!(
        default_track(&mkv.track_entries).unwrap_err(),
        "no audio track has FlagDefault=1; exactly one required"
    );
}

#[test]
fn test_gen_fails_cbr_inconsistency() {
    // Audio: CBR sidecar says frame_count=100, cbr_frame_size=128 → expected 12800 bytes
    // But actual file is 12801 bytes → inconsistency
    let meta = CbrMeta {
        frame_count: 100,
        cbr_frame_size: 128,
        file_size_bytes: 12800,
        frame_duration_ns: 32_000_000,
    };
    assert_eq!(
        check_cbr(2, &meta, 12801).unwrap_err(),
        "CBR consistency check failed for audio track 2: actual file size 12801 != frame_count(100) × \
         cbr_frame_size(128) = 12800"
    );
    let wrong = CbrMeta { file_size_bytes: 12801, ..meta };
    assert_eq!(
        check_cbr(2, &wrong, 12801).unwrap_err(),
        "CBR consistency check failed for audio track 2: file_size_bytes=12801 != frame_count(100) × \
         cbr_frame_size(128) = 12800"
    );
    assert!(check_cbr(2, &meta, 12800).is_ok());
}

#[test]
fn test_inspect_round_trip() {
    // Build a synthetic BinstructFile, serialize it, then inspect it.
    let bf = BinstructFile {
        header: Header { version: 1, config_flags: 0 },
        source: Source {
            original_mkv_hash: [0x42u8; 32],
            publisher_info: "InspectPub".to_string(),
            creation_timestamp: 1_700_000_000_000,
            original_language: "fra".to_string(),
            original_default_track_id: 7,
            build_tools: vec![
                ToolEntry { name: "ffmpeg".to_string(), version: "ffmpeg version 6.1".to_string() },
            ],
        },
        mkv_skeleton: MkvSkeleton {
            pre_tracks_blob: vec![0x01, 0x02],
            track_entries: vec![
                TrackEntryRecord { track_id: 7, bytes: vec![0xAA, 0xBB] },
            ],
            post_tracks_blob: vec![],
        },
        cluster_timestamps: ClusterTimestamps {
            cluster_count: 2,
            deltas: vec![0, 1000],
        },
        track_policies: vec![
            TrackPolicy {
                track_id: 7,
                codec_type: CodecType::Audio,
                language_code: "fra".to_string(),
                frame_count: 1000,
                is_vbr: false,
                frame_duration: 960,
                cbr_frame_size: Some(512),
                raw_file_hash: [0x11u8; 32],
                vfr_file_hash: None,
            },
        ],
    };


    let read = BinstructFile::deserialize(&bf.serialize().unwrap()).unwrap();
    let stdout = describe(&read);
    assert!(stdout.contains("fra"), "language 'fra' not found in inspect output");
    assert!(stdout.contains("7"), "track_id 7 not found in inspect output");
    assert!(stdout.contains("InspectPub"), "publisher not in inspect output");
    let lines: Vec<&str> = stdout.lines().collect();
    assert_eq!(lines[0], "=== Header ===");
    assert_eq!(lines[1], "  version:      1");
    assert_eq!(lines[2], "  config_flags: 0x00");
    assert_eq!(lines[3], "  compressed:   false");
    assert_eq!(lines[4], "");
    assert_eq!(lines[5], "=== Source ===");
    assert_eq!(lines[8], "  creation_timestamp:      1700000000000 (2023-11-14T22:13:20Z)");
    assert_eq!(lines[12], "    ffmpeg: ffmpeg version 6.1");
    assert_eq!(lines[16], "  track_entries:     1 entries");
    assert_eq!(lines[17], "    track_id=7 (2 bytes)");
    assert_eq!(lines[22], "  first 5 deltas: [0, 1000]");
    assert_eq!(lines[25], format!(
        "  {:<10} {:<8} {:<6} {:<6} {:<12} {:<14} {:<10} {:<10}",
        "track_id", "type", "lang", "vbr", "frame_count", "cbr_frame_sz", "raw_hash", "vfr_hash"
    ));
    assert_eq!(lines[26], format!("  {}", "-".repeat(86)));
    assert_eq!(lines[27], format!(
        "  {:<10} {:<8} {:<6} {:<6} {:<12} {:<14} {:<10} {:<10}",
        7, "audio", "fra", false, 1000, 512, "11111111", "-"
    ));
}

fn xml_of(text: &str) -> Manifest {
    parse_xml(text).unwrap()
}

#[test]
fn test_verify_manifest_detects_mismatch() {
    let m = Manifest {
        title: "Test Movie".to_string(),
        year: 2020,
        original_mkv_filename: "test.mkv".to_string(),
        original_mkv_hash: [0xBBu8; 32],
        original_language: "eng".to_string(),
        system_version: "1.0".to_string(),
        publisher: "TestPub".to_string(),
        tracks: vec![ManifestTrack {
            track_id: 1,
            kind: TrackKind::Video,
            language: None,
            codec: "V_MPEG4/ISO/AVC".to_string(),
            variant: Some("00".to_string()),
            resolution: Some("1080p".to_string()),
        }],
        variants_legend: vec![VariantEntry {
            id: "00".to_string(),
            description: "Main".to_string(),
        }],
    };

    let truth = parse_ebml(&serialize_ebml(&m).unwrap()).unwrap();

    // Coherent XML manifest
    let hash_hex: String = m.original_mkv_hash.iter().map(|b| format!("{:02x}", b)).collect();
    let xml = format!(
        r#"<videofuser-manifest version="1">
  <title>Test Movie</title>
  <year>2020</year>
  <hash>{}</hash>
  <publisher>TestPub</publisher>
  <original-language>eng</original-language>
  <tracks>
    <track id="1" type="video" codec="V_MPEG4/ISO/AVC" resolution="1080p" variant="00" />
  </tracks>
  <variants>
    <variant id="00" description="Main" />
  </variants>
</videofuser-manifest>"#,
        hash_hex
    );

    let nfo = r#"<movie>
  <title>Test Movie</title>
  <year>2020</year>
</movie>"#;
    let md = "# Test Movie (2020)\n\n- **Año**: 2020\n- **Idioma original**: eng\n";
    let nfo = Some(parse_nfo(nfo).unwrap());
    let md = Some(parse_md(md).unwrap());

    // All coherent
    assert!(cross_check(&truth, &Some(xml_of(&xml)), &nfo, &md).is_empty());

    // Modify year in XML → should fail
    let bad_xml = xml.replace("<year>2020</year>", "<year>1999</year>");
    let errors = cross_check(&truth, &Some(xml_of(&bad_xml)), &nfo, &md);
    assert!(errors[0].to_lowercase().contains("year"));
    assert_eq!(errors, vec!["format xml: year differs: ebml=2020, got=1999".to_string()]);
}

fn small_manifest() -> Manifest {
    Manifest {
        title: "A  title".to_string(),
        year: 2001,
        original_mkv_filename: "a.mkv".to_string(),
        original_mkv_hash: [1u8; 32],
        original_language: "eng".to_string(),
        system_version: "1".to_string(),
        publisher: "p".to_string(),
        tracks: vec![
            ManifestTrack {
                track_id: 1,
                kind: TrackKind::Video,
                language: None,
                codec: "h264".to_string(),
                variant: None,
                resolution: None,
            },
            ManifestTrack {
                track_id: 2,
                kind: TrackKind::Audio,
                language: Some("eng".to_string()),
                codec: "AC3".to_string(),
                variant: Some("00".to_string()),
                resolution: None,
            },
        ],
        variants_legend: vec![VariantEntry { id: "00".to_string(), description: "Main dub".to_string() }],
    }
}

#[test]
fn a_manifest_does_not_differ_from_itself() {
    let m = small_manifest();
    let mut errors = Vec::new();
    compare(&m, &m, "xml", &mut errors);
    compare_best_effort(&m, &m, "nfo", &mut errors);
    assert!(errors.is_empty());
}

#[test]
fn every_kind_of_difference_has_its_message() {
    let m = small_manifest();
    let mut other = small_manifest();
    other.title = "Another".to_string();
    other.original_language = "spa".to_string();
    other.original_mkv_hash = [2u8; 32];
    other.tracks[0].kind = TrackKind::Subtitle;
    other.tracks[0].variant = Some("01".to_string());
    other.tracks[1].codec = "aac".to_string();
    other.tracks[1].language = Some("s\"p".to_string());
    other.variants_legend[0].description = "Other".to_string();
    let mut errors = vec!["earlier".to_string()];
    compare(&m, &other, "xml", &mut errors);
    assert_eq!(
        errors,
        vec![
            "earlier".to_string(),
            "format xml: title differs: ebml='A  title', got='Another'".to_string(),
            "format xml: original_language differs: ebml='eng', got='spa'".to_string(),
            "format xml: original_mkv_hash differs".to_string(),
            "format xml: track 1: kind differs: ebml=Video, got=Subtitle".to_string(),
            "format xml: track 1: variant differs: ebml='None', got='Some(\"01\")'".to_string(),
            "format xml: track 2: codec differs: ebml='AC3', got='aac'".to_string(),
            "format xml: track 2: language differs: ebml='Some(\"eng\")', got='Some(\"s\\\"p\")'".to_string(),
            "format xml: variant '00' description differs: ebml='Main dub', got='Other'".to_string(),
        ]
    );
}

#[test]
fn missing_tracks_and_variants_are_told() {
    let m = small_manifest();
    let mut other = small_manifest();
    other.tracks.remove(1);
    other.variants_legend[0].id = "07".to_string();
    let mut errors = Vec::new();
    compare(&m, &other, "xml", &mut errors);
    assert_eq!(
        errors,
        vec![
            "format xml: track 2 missing from format".to_string(),
            "format xml: variant '00' missing".to_string(),
            "format xml: variant '07' missing from ebml".to_string(),
        ]
    );
    other.tracks.clear();
    other.variants_legend.clear();
    errors.clear();
    compare(&m, &other, "xml", &mut errors);
    assert!(errors.is_empty());
}

#[test]
fn tracks_that_only_the_other_format_has_are_told() {
    let m = small_manifest();
    let mut other = small_manifest();
    let mut extra = other.tracks[0].clone();
    extra.track_id = 9;
    other.tracks.push(extra);
    let mut errors = vec!["earlier".to_string()];
    compare(&m, &other, "xml", &mut errors);
    assert_eq!(errors, vec!["earlier".to_string(), "format xml: track 9 missing from ebml".to_string()]);
    errors.clear();
    compare_best_effort(&m, &other, "nfo", &mut errors);
    assert!(errors.is_empty());
}

#[test]
fn case_spacing_and_empty_fields_do_not_count() {
    let m = small_manifest();
    let mut other = small_manifest();
    other.title = " a TITLE ".to_string();
    other.year = 0;
    other.original_language = String::new();
    other.original_mkv_hash = [0u8; 32];
    other.tracks[1].codec = String::new();
    other.tracks[1].language = None;
    other.tracks[1].variant = None;
    other.variants_legend[0].description = "main\tdub".to_string();
    let mut errors = Vec::new();
    compare(&m, &other, "xml", &mut errors);
    assert!(errors.is_empty(), "{:?}", errors);
    other.title = String::new();
    compare_best_effort(&m, &other, "md", &mut errors);
    assert!(errors.is_empty());
    compare(&m, &other, "xml", &mut errors);
    assert_eq!(errors, vec!["format xml: title differs: ebml='A  title', got=''".to_string()]);
    other.title = "at itle".to_string();
    errors.clear();
    compare_best_effort(&m, &other, "md", &mut errors);
    assert_eq!(errors.len(), 1);
}

#[test]
fn manifest_names_have_the_word_and_the_extension() {
    assert!(is_manifest_name("base_manifest_00.ebml", ".ebml"));
    assert!(!is_manifest_name("base_manifest_00.xml", ".ebml"));
    assert!(!is_manifest_name("base_binstruct_00.ebml", ".ebml"));
}

#[test]
fn the_default_track_needs_a_language() {
    for bad in ["und", "", "s1", "spanish"] {
        let mkv = parsed(&build_synthetic_mkv(1, 2, 1, bad, &[0]));
        let expected = format!(
            "default audio track (id=2) has invalid/empty language '{}'; must be a valid ISO 639 code",
            bad
        );
        assert_eq!(default_track(&mkv.track_entries).unwrap_err(), expected);
    }
    let mkv = parsed(&build_synthetic_mkv(1, 2, 1, " es ", &[0]));
    assert_eq!(default_track(&mkv.track_entries).unwrap(), (2, "es".to_string()));
    let mut two = parsed(&build_synthetic_mkv(1, 2, 1, "es", &[0]));
    let mut more = parsed(&build_synthetic_mkv(3, 4, 1, "en", &[0]));
    two.track_entries.append(&mut more.track_entries);
    assert_eq!(
        default_track(&two.track_entries).unwrap_err(),
        "2 audio tracks have FlagDefault=1; exactly one required"
    );
}

#[test]
fn patterns_are_padded() {
    assert_eq!(raw_pattern(1, true), "_v01_");
    assert_eq!(raw_pattern(123, true), "_v123_");
    assert_eq!(raw_pattern(7, false), "_a007_");
    assert_eq!(cbr_json_name("base_a002_spa_00_00.ac3"), "base_a002_spa_00_00.ac3.cbr.json");
}

#[test]
fn the_newest_version_of_a_file_is_found() {
    let list = names(&[
        "other.txt",
        "base_v01_1080p_00.h264",
        "base_v01_1080p_02.h264",
        "base_v01_1080p_01.h264",
        "base_v01_720p_09.h264",
    ]);
    assert_eq!(find_file(&list, "_v01_", false), Some(2));
    assert_eq!(find_file(&list, "_v02_", false), None);
    let vfr = names(&["x_v01_00.txt", "x_v01_00.vfr.zst", "x_v01_00.vfr", "x_v01_01.vfr.zst"]);
    assert_eq!(find_file(&vfr, "_v01_", true), Some(3));
    assert_eq!(find_file(&names(&["x_v01_00.txt"]), "_v01_", true), None);
}

#[test]
fn tracks_without_files_are_told_apart() {
    let mkv = parsed(&build_synthetic_mkv(1, 2, 1, "spa", &[0]));
    let none = names(&[]);
    let video = names(&["b_v01_x_00.h264"]);
    assert_eq!(locate_track(&mkv.track_entries[0], &none, &none, &none), Located::NoRaw);
    assert_eq!(locate_track(&mkv.track_entries[0], &video, &none, &none), Located::NoVfr);
    assert_eq!(locate_track(&mkv.track_entries[1], &video, &none, &none), Located::NoRaw);
    let mut subtitle = parsed(&build_synthetic_mkv(1, 2, 1, "spa", &[0]));
    subtitle.track_entries[0].track_type = 17;
    assert_eq!(locate_track(&subtitle.track_entries[0], &none, &none, &none), Located::Skipped);
    assert!(make_policies(&mkv.track_entries, &vec![]).is_none());
}

#[test]
fn frame_indexes_load_compressed_or_not() {
    let plain = video_vfr_bytes();
    let packed = zstd::encode_all(plain.as_slice(), 3).unwrap();
    assert_eq!(read_vfr(&plain).unwrap(), read_vfr(&packed).unwrap());
    assert_eq!(read_vfr(&packed).unwrap().frames.len(), 3);
    assert!(matches!(read_vfr(b"NOPE"), Err(VfrLoadError::Vfr(_))));
    assert!(matches!(
        read_vfr(b"NOPE\x01\x00\x00\x00\x00\x00\x00\x00\x00\x00\x00\x00\x00\x00\x00\x00\x00\x00\x00\x00"),
        Err(VfrLoadError::Vfr(VfrError::InvalidMagic(_)))
    ));
    assert!(matches!(read_vfr(&[0x28, 0xB5, 0x2F, 0xFD, 0xFF]), Err(VfrLoadError::Zstd(_))));
}

#[test]
fn deltas_add_up_to_the_times() {
    assert_eq!(timestamps_to_deltas(&vec![]), Vec::<i64>::new());
    let times = vec![5u64, 1000, 400, 400];
    let deltas = timestamps_to_deltas(&times);
    assert_eq!(deltas, vec![5, 995, -600, 0]);
    let mut sum = 0i64;
    let back: Vec<u64> = deltas
        .iter()
        .map(|d| {
            sum += d;
            sum as u64
        })
        .collect();
    assert_eq!(back, times);
    assert_eq!(checked_deltas(&vec![u64::MAX]), Some(vec![-1]));
    assert_eq!(checked_deltas(&vec![1 << 63, i64::MAX as u64]), None);
    assert!(!are_storable(&[i64::MAX]));
    assert!(are_storable(&[i64::MIN, 0, i64::MAX - 0x7F_FFFF_FFFF_FFFF]));
}

#[test]
fn tool_versions_are_first_lines() {
    assert_eq!(tool_entry("mkvmerge", Some(b"mkvmerge v80.0 \r\nmore")).version, "mkvmerge v80.0");
    assert_eq!(tool_entry("mkvmerge", Some(b"v\xFF1")).version, "v\u{FFFD}1");
    assert_eq!(tool_entry("mkvmerge", None).version, "not found");
    assert_eq!(tool_entry("mkvmerge", Some(b"")).version, "");
    assert_eq!(tool_entry("mkvmerge", None).name, "mkvmerge");
    assert_eq!(first_line_of("  a b\nc"), "a b");
}

#[test]
fn dates_are_those_of_the_calendar() {
    assert_eq!(fmt_iso8601(0), "1970-01-01T00:00:00Z");
    assert_eq!(fmt_iso8601(951_782_400), "2000-02-29T00:00:00Z");
    assert_eq!(fmt_iso8601(1_700_000_000), "2023-11-14T22:13:20Z");
    assert_eq!(fmt_iso8601(1_735_689_599), "2024-12-31T23:59:59Z");
    assert_eq!(fmt_iso8601(4_107_542_399), "2100-02-28T23:59:59Z");
    assert_eq!(fmt_iso8601(4_107_542_400), "2100-03-01T00:00:00Z");
}

#[test]
fn bytes_become_hexadecimal() {
    assert_eq!(hex_encode(&[0x00, 0x0F, 0xA5, 0xFF]), "000fa5ff");
    assert_eq!(hex_encode(&[]), "");
}

#[test]
fn digests_are_those_of_the_standard() {
    let empty = sha256_file(&MemRawFile::new(vec![])).unwrap();
    assert_eq!(
        hex_encode(&empty),
        "e3b0c44298fc1c149afbf4c8996fb92427ae41e4649b934ca495991b7852b855"
    );
    let abc = sha256_file(&MemRawFile::new(b"abc".to_vec())).unwrap();
    assert_eq!(
        hex_encode(&abc),
        "ba7816bf8f01cfea414140de5dae2223b00361a396177a9cb410ff61f20015ad"
    );
    let long = sha256_file(&MemRawFile::new(vec![b'a'; 1_000_000])).unwrap();
    assert_eq!(
        hex_encode(&long),
        "cdc76e5c9914fb9281a1c7e284d73e67f1809a48a497200e046d39ccc7112cd0"
    );
}

fn cbr_policy() -> TrackPolicy {
    TrackPolicy {
        track_id: 4,
        codec_type: CodecType::Audio,
        language_code: "eng".to_string(),
        frame_count: 10,
        is_vbr: false,
        frame_duration: 1,
        cbr_frame_size: Some(100),
        raw_file_hash: [7; 32],
        vfr_file_hash: None,
    }
}

fn unused_vfr() -> VfrState {
    VfrState::Missing(String::new())
}

#[test]
fn intact_files_have_no_faults() {
    let mut with_vfr = cbr_policy();
    with_vfr.is_vbr = true;
    with_vfr.vfr_file_hash = Some([9; 32]);
    let policies = vec![cbr_policy(), with_vfr];
    let states = vec![
        TrackState {
            raw: RawState::Present { path: "a".to_string(), hash: Ok([7; 32]), size: Ok(1000) },
            vfr: unused_vfr(),
        },
        TrackState {
            raw: RawState::Present { path: "b".to_string(), hash: Ok([7; 32]), size: Err("x".to_string()) },
            vfr: VfrState::Present { path: "c".to_string(), hash: Ok([9; 32]) },
        },
    ];
    assert!(check_tracks(&policies, &states).is_empty());
}

#[test]
fn faults_of_files_are_told() {
    let mut p = cbr_policy();
    let mut errors = Vec::new();
    let state = |hash, size| TrackState {
        raw: RawState::Present { path: "f.ac3".to_string(), hash, size },
        vfr: unused_vfr(),
    };
    check_track(&p, &state(Ok([8; 32]), Ok(999)), &mut errors);
    check_track(&p, &state(Err("bad".to_string()), Err("gone".to_string())), &mut errors);
    let missing = TrackState { raw: RawState::Missing("no file".to_string()), vfr: unused_vfr() };
    p.vfr_file_hash = Some([1; 32]);
    check_track(&p, &missing, &mut errors);
    for vfr in [
        VfrState::Missing("none".to_string()),
        VfrState::Present { path: "v.vfr".to_string(), hash: Err("bad".to_string()) },
        VfrState::Present { path: "v.vfr".to_string(), hash: Ok([2; 32]) },
    ] {
        let raw = RawState::Present { path: "f".to_string(), hash: Ok([7; 32]), size: Ok(1000) };
        check_track(&p, &TrackState { raw, vfr }, &mut errors);
    }
    assert_eq!(
        errors,
        vec![
            "track 4: raw file hash mismatch (f.ac3)".to_string(),
            "track 4: CBR size mismatch: file=999 expected=1000".to_string(),
            "track 4: SHA-256 error on f.ac3: bad".to_string(),
            "track 4: stat error: gone".to_string(),
            "track 4: no file".to_string(),
            "track 4: VFR not found: none".to_string(),
            "track 4: VFR SHA-256 error: bad".to_string(),
            "track 4: VFR hash mismatch (v.vfr)".to_string(),
        ]
    );
}

#[test]
fn matroska_files_are_taken_apart() {
    let bytes = build_synthetic_mkv(1, 2, 1, "spa", &[0, 1000]);
    let mkv = parsed(&bytes);
    let video = build_video_track(1);
    let audio = build_audio_track(2, 1, "spa");
    let start = bytes.windows(4).position(|w| w == [0x16, 0x54, 0xAE, 0x6B]).unwrap();
    assert_eq!(mkv.pre_tracks_blob, bytes[..start]);
    assert!(mkv.post_tracks_blob.is_empty());
    assert_eq!(mkv.track_entries[0].raw_bytes, video);
    assert_eq!(mkv.track_entries[1].raw_bytes, audio);
    assert_eq!(mkv.track_entries[0].codec_id, "V_MPEG4/ISO/AVC");
    assert_eq!(mkv.track_entries[0].pixel_width, Some(1920));
    assert_eq!(mkv.track_entries[0].pixel_height, Some(1080));
    assert_eq!(mkv.track_entries[1].language, "spa");
    assert_eq!(mkv.track_entries[1].track_type, 2);
    assert_eq!(mkv.cluster_timestamps, vec![0, 1000]);
}

fn mkv_with(parts: &[Vec<u8>]) -> Vec<u8> {
    let mut body = Vec::new();
    for p in parts {
        body.extend_from_slice(p);
    }
    let mut out = build_ebml_header();
    out.extend(master(&[0x18, 0x53, 0x80, 0x67], &body));
    out
}

fn tracks() -> Vec<u8> {
    master(&[0x16, 0x54, 0xAE, 0x6B], &build_audio_track(2, 1, "spa"))
}

#[test]
fn the_seek_head_is_left_out_wherever_it_stands() {
    let seek = master(&[0x11, 0x4D, 0x9B, 0x74], &[0xEC, 0x80]);
    let tags = master(&[0x12, 0x54, 0xC3, 0x67], &[0xEC, 0x80]);
    let plain = parsed(&mkv_with(&[build_info(), tracks(), tags.clone(), build_cluster(7)]));
    let before = mkv_with(&[seek.clone(), build_info(), tracks(), tags.clone(), build_cluster(7)]);
    let with_seek = parsed(&before);
    let head = build_ebml_header().len() + 4 + 1;
    assert_eq!(with_seek.pre_tracks_blob[head..], plain.pre_tracks_blob[head..]);
    assert_eq!(plain.post_tracks_blob, tags);
    assert_eq!(with_seek.post_tracks_blob, tags);
    let after = parsed(&mkv_with(&[build_info(), tracks(), seek.clone(), build_cluster(7)]));
    assert_eq!(after.pre_tracks_blob.len(), plain.pre_tracks_blob.len());
    assert_eq!(after.cluster_timestamps, vec![7]);
}

#[test]
fn broken_matroska_files_are_refused() {
    let text = |bytes: Vec<u8>| match parse_mkv(&MemRawFile::new(bytes)) {
        Err(MkvError::Text(s)) => s,
        _ => panic!("expected an error"),
    };
    assert_eq!(text(mkv_with(&[build_info(), build_cluster(0)])), "no Tracks element found in MKV");
    assert_eq!(text(mkv_with(&[build_info(), tracks()])), "no Cluster element found in MKV");
    assert_eq!(text(tracks()), "expected EBML header (0x1A45DFA3), got 0x1654AE6B");
    let mut two = build_ebml_header();
    two.extend(tracks());
    assert_eq!(text(two), "expected Segment element, got 0x1654AE6B");
}

fn open_cluster(ts: u64, blocks: &[u8]) -> Vec<u8> {
    let mut out = vec![0x1F, 0x43, 0xB6, 0x75, 0x01, 0xFF, 0xFF, 0xFF, 0xFF, 0xFF, 0xFF, 0xFF];
    out.extend(elem1(0xE7, &encode_uint_be(ts)));
    out.extend(elem1(0xA3, blocks));
    out
}

#[test]
fn clusters_of_unknown_size_have_their_timestamps() {
    let mut bytes = open_cluster(0, &[0x81, 0, 0, 0x80, 7]);
    bytes.extend(open_cluster(1000, &[0x81, 0, 0, 0x80, 8, 9]));
    let file = MemRawFile::new(bytes.clone());
    assert_eq!(collect_cluster_timestamps(&file, 0).unwrap(), vec![0, 1000]);
    // A cluster of known size after them, and what is no cluster ends the list.
    bytes.extend(build_cluster(2500));
    bytes.extend(master(&[0x1C, 0x53, 0xBB, 0x6B], &[]));
    bytes.extend(build_cluster(3000));
    assert_eq!(collect_cluster_timestamps(&MemRawFile::new(bytes), 0).unwrap(), vec![0, 1000, 2500]);
    let whole = parsed(&mkv_with(&[build_info(), tracks(), open_cluster(4, &[1]), open_cluster(9, &[2])]));
    assert_eq!(whole.cluster_timestamps, vec![4, 9]);
}

/// A file whose reads fail from an offset on.
struct Failing {
    inner: MemRawFile,
    from: u64,
}

impl RawFile for Failing {
    fn read_at(&self, offset: u64, buf: &mut [u8]) -> Result<usize, MuxerError> {
        if offset + buf.len() as u64 > self.from && offset < self.size() {
            return Err(MuxerError::Io("broken".to_string()));
        }
        self.inner.read_at(offset, buf)
    }

    fn size(&self) -> u64 {
        self.inner.size()
    }
}

#[test]
fn a_failed_read_makes_nothing_up() {
    let bytes = mkv_with(&[build_info(), tracks(), build_cluster(1), build_cluster(2), build_cluster(3)]);
    let whole = parsed(&bytes);
    for from in 0..bytes.len() as u64 {
        let file = Failing { inner: MemRawFile::new(bytes.clone()), from };
        if let Ok(p) = parse_mkv(&file) {
            assert_eq!(p.pre_tracks_blob, whole.pre_tracks_blob);
            assert_eq!(p.post_tracks_blob, whole.post_tracks_blob);
            assert_eq!(p.track_entries.len(), 1);
            assert_eq!(p.track_entries[0].raw_bytes, whole.track_entries[0].raw_bytes);
            assert!(whole.cluster_timestamps.starts_with(&p.cluster_timestamps));
        }
        assert!(sha256_file(&file).is_err());
    }
}

struct FailingAt {
    inner: MemRawFile,
    at: u64,
}

impl RawFile for FailingAt {
    fn read_at(&self, offset: u64, buf: &mut [u8]) -> Result<usize, MuxerError> {
        if offset == self.at {
            return Err(MuxerError::Io("broken".to_string()));
        }
        self.inner.read_at(offset, buf)
    }

    fn size(&self) -> u64 {
        self.inner.size()
    }
}

#[test]
fn a_failed_read_in_a_cluster_leaves_out_its_timestamp() {
    let clusters = [build_cluster(1), build_cluster(2), build_cluster(3)];
    let bytes: Vec<u8> = clusters.concat();
    let second = clusters[0].len() as u64;
    let head = clusters[1].len() as u64 - elem1(0xE7, &encode_uint_be(2)).len() as u64;
    let times = |at: u64| {
        let file = FailingAt { inner: MemRawFile::new(bytes.clone()), at };
        collect_cluster_timestamps(&file, 0)
    };
    assert_eq!(times(u64::MAX).unwrap(), vec![1, 2, 3]);
    // The head of the second cluster's first child.
    assert_eq!(times(second + head).unwrap(), vec![1, 3]);
    // The head of the second cluster.
    assert_eq!(times(second).unwrap(), vec![1]);
    // The timestamp itself.
    assert!(times(second + head + 2).is_err());
}

#[test]
fn heads_of_elements_are_read() {
    let bytes = [0x1A, 0x45, 0xDF, 0xA3, 0x82, 0xAA, 0xBB];
    let mut rest = &bytes[..];
    assert_eq!(read_element_header(&mut rest).unwrap(), (0x1A45DFA3, Some(2)));
    assert_eq!(rest, &[0xAA, 0xBB]);
    let unknown = [0x1F, 0x43, 0xB6, 0x75, 0xFF];
    let mut rest = &unknown[..];
    assert_eq!(read_element_header(&mut rest).unwrap(), (0x1F43B675, None));
    assert_eq!(decode_uint(&[0x01, 0x02]), 258);
    assert_eq!(decode_uint(&[]), 0);
}
