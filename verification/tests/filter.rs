use videofuser::binstruct::{
    BinstructFile, ClusterTimestamps, CodecType, Header, MkvSkeleton, Source, TrackEntryRecord, TrackPolicy,
};
use videofuser::filter::prefs::Prefs;
use videofuser::filter::resolve::resolve_filter;
use videofuser::filter::subs::{resolve_subs_filter, SubFile};
use videofuser::filter::track_meta::{extract_track_metas, TrackKind, TrackMeta};
use videofuser::filter::validate::{validate_prefs, PrefsValidationError};

fn make_track(id: u32, kind: TrackKind, lang: &str, codec: &str) -> TrackMeta {
    TrackMeta {
        track_id: id,
        kind,
        language: lang.to_string(),
        codec_id: String::new(),
        codec_name: codec.to_string(),
    }
}

fn make_sub(filename: &str, lang: &str) -> SubFile {
    SubFile {
        filename: filename.to_string(),
        language: lang.to_string(),
        variant: "00".to_string(),
    }
}

#[test]
fn test_audio_filter_exact_match() {
    let tracks = vec![
        make_track(1, TrackKind::Video, "und", "h264"),
        make_track(10, TrackKind::Audio, "es", "eac3"),
        make_track(20, TrackKind::Audio, "en", "eac3"),
        make_track(30, TrackKind::Audio, "fr", "ac3"),
    ];
    let prefs = Prefs {
        audio_langs: vec!["es".into()],
        ..Prefs::default()
    };
    let f = resolve_filter(&tracks, "en", 20, &prefs);
    assert_eq!(f.included_track_ids, vec![1, 10, 20]);
    assert_eq!(f.default_audio_track_id, 10);
}

#[test]
fn test_audio_filter_includes_original_always() {
    let tracks = vec![
        make_track(1, TrackKind::Video, "und", "h264"),
        make_track(10, TrackKind::Audio, "es", "ac3"),
        make_track(20, TrackKind::Audio, "en", "aac"),
    ];
    let prefs = Prefs {
        audio_langs: vec!["es".into()],
        ..Prefs::default()
    };
    let f = resolve_filter(&tracks, "en", 20, &prefs);
    assert_eq!(f.included_track_ids, vec![1, 10, 20]);
    assert_eq!(f.default_audio_track_id, 10);
}

#[test]
fn test_audio_filter_fallback_when_no_match() {
    // "ja" is not found among any track, so preferred set is empty → fallback = all audio.
    let tracks = vec![
        make_track(1, TrackKind::Video, "und", "h264"),
        make_track(10, TrackKind::Audio, "es", "eac3"),
        make_track(20, TrackKind::Audio, "en", "eac3"),
        make_track(30, TrackKind::Audio, "fr", "ac3"),
    ];
    let prefs = Prefs {
        audio_langs: vec!["ja".into()],
        ..Prefs::default()
    };
    let f = resolve_filter(&tracks, "en", 20, &prefs);
    assert_eq!(f.included_track_ids, vec![1, 10, 20, 30]);
    assert_eq!(f.default_audio_track_id, 20);
}

#[test]
fn test_audio_filter_empty_langs_is_fallback() {
    let tracks = vec![
        make_track(1, TrackKind::Video, "und", "h264"),
        make_track(10, TrackKind::Audio, "es", "eac3"),
        make_track(20, TrackKind::Audio, "en", "eac3"),
    ];
    let prefs = Prefs {
        audio_langs: vec![],
        ..Prefs::default()
    };
    let f = resolve_filter(&tracks, "en", 20, &prefs);
    assert_eq!(f.included_track_ids, vec![1, 10, 20]);
    assert_eq!(f.default_audio_track_id, 20);
}

#[test]
fn test_codec_preference_respected() {
    let tracks = vec![
        make_track(1, TrackKind::Video, "und", "h264"),
        make_track(10, TrackKind::Audio, "es", "ac3"),
        make_track(11, TrackKind::Audio, "es", "eac3"),
        make_track(12, TrackKind::Audio, "es", "truehd"),
        make_track(20, TrackKind::Audio, "en", "aac"),
    ];
    let prefs = Prefs {
        audio_langs: vec!["es".into()],
        audio_codec: vec!["truehd".into(), "eac3".into(), "ac3".into()],
        ..Prefs::default()
    };
    let f = resolve_filter(&tracks, "en", 20, &prefs);
    assert_eq!(f.default_audio_track_id, 12);
}

#[test]
fn test_codec_preference_fallback_to_next() {
    let tracks = vec![
        make_track(1, TrackKind::Video, "und", "h264"),
        make_track(10, TrackKind::Audio, "es", "ac3"),
        make_track(11, TrackKind::Audio, "es", "eac3"),
    ];
    let prefs = Prefs {
        audio_langs: vec!["es".into()],
        audio_codec: vec!["truehd".into(), "eac3".into(), "ac3".into()],
        ..Prefs::default()
    };
    let f = resolve_filter(&tracks, "en", 0, &prefs);
    assert_eq!(f.default_audio_track_id, 11);
}

#[test]
fn test_codec_unknown_not_in_prefs_list() {
    // Neither aac nor mp3 is in prefs.audio_codec → both rank usize::MAX → lowest id wins.
    let tracks = vec![
        make_track(1, TrackKind::Video, "und", "h264"),
        make_track(10, TrackKind::Audio, "es", "aac"),
        make_track(11, TrackKind::Audio, "es", "mp3"),
    ];
    let prefs = Prefs {
        audio_langs: vec!["es".into()],
        audio_codec: vec!["truehd".into(), "eac3".into()],
        ..Prefs::default()
    };
    let f = resolve_filter(&tracks, "en", 0, &prefs);
    assert_eq!(f.default_audio_track_id, 10);
}

#[test]
fn test_lang_priority_l1_over_l2() {
    // "it" is L1; even though "es" has a better codec, L1 takes precedence.
    let tracks = vec![
        make_track(1, TrackKind::Video, "und", "h264"),
        make_track(5, TrackKind::Audio, "it", "aac"),
        make_track(10, TrackKind::Audio, "es", "eac3"),
        make_track(20, TrackKind::Audio, "en", "eac3"),
    ];
    let prefs = Prefs {
        audio_langs: vec!["it".into(), "es".into()],
        ..Prefs::default()
    };
    let f = resolve_filter(&tracks, "en", 20, &prefs);
    assert_eq!(f.default_audio_track_id, 5);
}

#[test]
fn test_lang_l1_absent_falls_to_l2() {
    // "ja" (L1) has no tracks → fall to "es" (L2).
    let tracks = vec![
        make_track(1, TrackKind::Video, "und", "h264"),
        make_track(10, TrackKind::Audio, "es", "eac3"),
        make_track(20, TrackKind::Audio, "en", "eac3"),
    ];
    let prefs = Prefs {
        audio_langs: vec!["ja".into(), "es".into()],
        ..Prefs::default()
    };
    let f = resolve_filter(&tracks, "en", 20, &prefs);
    assert_eq!(f.default_audio_track_id, 10);
}

#[test]
fn test_all_video_tracks_always_included() {
    let tracks = vec![
        make_track(1, TrackKind::Video, "und", "h264"),
        make_track(2, TrackKind::Video, "und", "h265"),
        make_track(3, TrackKind::Video, "und", "av1"),
        make_track(10, TrackKind::Audio, "es", "eac3"),
        make_track(20, TrackKind::Audio, "en", "eac3"),
    ];
    let prefs = Prefs {
        audio_langs: vec!["es".into()],
        ..Prefs::default()
    };
    let f = resolve_filter(&tracks, "en", 20, &prefs);
    assert!(f.included_track_ids.contains(&1));
    assert!(f.included_track_ids.contains(&2));
    assert!(f.included_track_ids.contains(&3));
    assert!(f.included_track_ids.contains(&10));
}

#[test]
fn test_subs_filter_exact_match() {
    let subs = vec![
        make_sub("movie_s001_es_00_01.srt", "es"),
        make_sub("movie_s002_en_00_01.srt", "en"),
        make_sub("movie_s003_fr_00_01.srt", "fr"),
    ];
    let prefs = Prefs {
        sub_langs: vec!["es".into(), "en".into()],
        ..Prefs::default()
    };
    let result = resolve_subs_filter(&subs, &prefs);
    assert_eq!(result.len(), 2);
    assert_eq!(result[0].language, "es");
    assert_eq!(result[1].language, "en");
}

#[test]
fn test_subs_filter_fallback_when_no_match() {
    let subs = vec![
        make_sub("movie_s001_es_00_01.srt", "es"),
        make_sub("movie_s002_en_00_01.srt", "en"),
    ];
    let prefs = Prefs {
        sub_langs: vec!["ja".into()],
        ..Prefs::default()
    };
    let result = resolve_subs_filter(&subs, &prefs);
    assert_eq!(result.len(), 2);
}

#[test]
fn test_subs_filter_empty_langs_fallback() {
    let subs = vec![
        make_sub("movie_s001_es_00_01.srt", "es"),
        make_sub("movie_s002_en_00_01.srt", "en"),
    ];
    let prefs = Prefs {
        sub_langs: vec![],
        ..Prefs::default()
    };
    let result = resolve_subs_filter(&subs, &prefs);
    assert_eq!(result.len(), 2);
}

#[test]
fn test_subfile_from_filename_valid() {
    let sf = SubFile::from_filename("Pelicula_s005_es_00_01.srt").unwrap();
    assert_eq!(sf.language, "es");
    assert_eq!(sf.variant, "00");
}

#[test]
fn test_subfile_from_filename_invalid() {
    assert!(SubFile::from_filename("Pelicula_v00_4k_00.h265").is_none());
}

#[test]
fn test_prefs_too_many_audio_langs() {
    let prefs = Prefs {
        audio_langs: vec![
            "a".into(), "b".into(), "c".into(), "d".into(), "e".into(), "f".into(),
        ],
        ..Prefs::default()
    };
    let errs = validate_prefs(&prefs).unwrap_err();
    assert!(errs
        .iter()
        .any(|e| matches!(e, PrefsValidationError::TooManyAudioLangs { got: 6 })));
}

#[test]
fn test_prefs_invalid_resolution() {
    let prefs = Prefs {
        video_resolution: Some("8k".into()),
        ..Prefs::default()
    };
    let errs = validate_prefs(&prefs).unwrap_err();
    assert!(errs
        .iter()
        .any(|e| matches!(e, PrefsValidationError::InvalidResolution(_))));
}

#[test]
fn test_prefs_multiple_errors_collected() {
    let prefs = Prefs {
        audio_langs: vec![
            "a".into(), "b".into(), "c".into(), "d".into(), "e".into(), "f".into(),
        ],
        sub_langs: vec![
            "a".into(), "b".into(), "c".into(), "d".into(), "e".into(), "f".into(), "g".into(),
        ],
        ..Prefs::default()
    };
    let errs = validate_prefs(&prefs).unwrap_err();
    assert_eq!(errs.len(), 2);
}

#[test]
fn the_default_track_is_among_the_included() {
    let tracks = vec![
        make_track(9, TrackKind::Video, "und", "h264"),
        make_track(3, TrackKind::Audio, "en", "ac3"),
        make_track(4, TrackKind::Audio, "en", "truehd"),
        make_track(5, TrackKind::Audio, "fr", "aac"),
    ];
    for langs in [vec![], vec!["fr".to_string()], vec!["xx".to_string()], vec!["en".to_string()]] {
        let prefs = Prefs { audio_langs: langs, ..Prefs::default() };
        let f = resolve_filter(&tracks, "en", 3, &prefs);
        assert!(f.included_track_ids.contains(&f.default_audio_track_id));
        assert!(f.included_track_ids.windows(2).all(|w| w[0] < w[1]));
        assert!(f.included_track_ids.contains(&9));
    }
    let f = resolve_filter(&tracks, "en", 3, &Prefs::default());
    assert_eq!(f.default_audio_track_id, 4);
    assert_eq!(resolve_filter(&[], "en", 77, &Prefs::default()).default_audio_track_id, 77);
}

#[test]
fn shown_subtitles_keep_their_order() {
    let subs = vec![
        make_sub("m_s001_fr_00_00.srt", "fr"),
        make_sub("m_s002_es_00_00.srt", "es"),
        make_sub("m_s003_fr_01_00.srt", "fr"),
    ];
    let prefs = Prefs { sub_langs: vec!["es".into(), "fr".into()], ..Prefs::default() };
    let shown: Vec<&str> = resolve_subs_filter(&subs, &prefs).iter().map(|s| s.filename.as_str()).collect();
    assert_eq!(shown, vec!["m_s001_fr_00_00.srt", "m_s002_es_00_00.srt", "m_s003_fr_01_00.srt"]);
}

#[test]
fn names_of_subtitles_are_taken_apart() {
    let s = SubFile::from_filename("a_b_s12_pt_03_00.ass").unwrap();
    assert_eq!(s.language, "pt");
    assert_eq!(s.variant, "03");
    assert_eq!(s.filename, "a_b_s12_pt_03_00.ass");
    let t = SubFile::from_filename("serie_s01_s005_es_00_01.srt").unwrap();
    assert_eq!(t.filename, "serie_s01_s005_es_00_01.srt");
    assert_eq!(t.language, "es");
    assert_eq!(t.variant, "00");
    assert!(SubFile::from_filename("a_s12_pt_03_x_00.srt").is_none());
    assert!(SubFile::from_filename("a_s12_pt_03").is_none());
    assert!(SubFile::from_filename("a_s12_pt_03_00").is_none());
    assert!(SubFile::from_filename("a_s_pt_03_00.srt").is_none());
    assert!(SubFile::from_filename("").is_none());
}

#[test]
fn too_many_subtitle_languages_are_told() {
    let six: Vec<String> = (0..6).map(|i| format!("l{i}")).collect();
    let prefs = Prefs { sub_langs: six, ..Prefs::default() };
    let errs = validate_prefs(&prefs).unwrap_err();
    assert!(matches!(errs[..], [PrefsValidationError::TooManySubLangs { got: 6 }]));
    assert!(validate_prefs(&Prefs::default()).is_ok());
    for res in ["4k", "1440p", "1080p", "720p", "540p", "480p", "360p", "240p"] {
        let prefs = Prefs { video_resolution: Some(res.to_string()), ..Prefs::default() };
        assert!(validate_prefs(&prefs).is_ok());
    }
}

fn policy(track_id: u64, codec_type: CodecType, language: &str) -> TrackPolicy {
    TrackPolicy {
        track_id,
        codec_type,
        language_code: language.to_string(),
        frame_count: 0,
        is_vbr: false,
        frame_duration: 0,
        cbr_frame_size: None,
        raw_file_hash: [0; 32],
        vfr_file_hash: None,
    }
}

fn entry(codec: &[u8], language: Option<&[u8]>) -> Vec<u8> {
    let mut body = vec![0x86, 0x80 | codec.len() as u8];
    body.extend_from_slice(codec);
    if let Some(l) = language {
        body.extend_from_slice(&[0x22, 0xB5, 0x9C, 0x80 | l.len() as u8]);
        body.extend_from_slice(l);
    }
    let mut out = vec![0xAE, 0x80 | body.len() as u8];
    out.extend(body);
    out
}

#[test]
fn track_data_is_taken_from_the_entries() {
    let file = BinstructFile {
        header: Header { version: 1, config_flags: 0 },
        source: Source {
            original_mkv_hash: [0; 32],
            publisher_info: String::new(),
            creation_timestamp: 0,
            original_language: "en".to_string(),
            original_default_track_id: 2,
            build_tools: vec![],
        },
        mkv_skeleton: MkvSkeleton {
            pre_tracks_blob: vec![],
            track_entries: vec![
                TrackEntryRecord { track_id: 1, bytes: entry(b"v_mpeg4/iso/avc", None) },
                TrackEntryRecord { track_id: 2, bytes: entry(b"A_EAC3", Some(b"e\xFFs")) },
                TrackEntryRecord { track_id: 3, bytes: entry(b"A_NEW", Some(b"fr")) },
            ],
            post_tracks_blob: vec![],
        },
        cluster_timestamps: ClusterTimestamps { cluster_count: 0, deltas: vec![] },
        track_policies: vec![
            policy(1, CodecType::Video, "und"),
            policy(2, CodecType::Audio, "es"),
            policy(3, CodecType::Audio, "fr"),
        ],
    };
    let metas = extract_track_metas(&file);
    assert_eq!(metas.len(), 3);
    assert!(metas[0].kind == TrackKind::Video);
    assert_eq!(metas[0].codec_name, "h264");
    assert_eq!(metas[0].language, "und");
    assert_eq!(metas[1].codec_name, "eac3");
    assert_eq!(metas[1].language, "e\u{FFFD}s");
    assert_eq!(metas[2].codec_name, "audio_unknown");
    assert_eq!(metas[2].codec_id, "A_NEW");
    assert_eq!(metas[2].track_id, 3);
}
