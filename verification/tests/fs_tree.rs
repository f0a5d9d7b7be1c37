use std::collections::HashMap;
use std::path::PathBuf;
use std::sync::Arc;
use videofuser::binstruct::{
    BinstructFile, ClusterTimestamps, CodecType, Header, MkvSkeleton, Source, ToolEntry, TrackEntryRecord,
    TrackPolicy,
};
use videofuser::fs::inode::InodeAllocator;
use videofuser::fs::ops::{FsError, ReadAction};
use videofuser::fs::tree::VidFuserFs;
use videofuser::fs::types::FileKey;
use videofuser::muxer::coordinator::Muxer;
use videofuser::muxer::types::{FullyAvailable, MemRawFile, ReadPolicy, TrackSource};

fn ebml_header_bytes() -> Vec<u8> {
    let mut content = Vec::new();
    content.extend_from_slice(&[0x42, 0x86, 0x81, 0x01]);
    content.extend_from_slice(&[0x42, 0xF7, 0x81, 0x01]);
    content.extend_from_slice(&[0x42, 0xF2, 0x81, 0x04]);
    content.extend_from_slice(&[0x42, 0xF3, 0x81, 0x08]);
    content.extend_from_slice(&[0x42, 0x82, 0x88]);
    content.extend_from_slice(b"matroska");
    content.extend_from_slice(&[0x42, 0x87, 0x81, 0x04]);
    content.extend_from_slice(&[0x42, 0x85, 0x81, 0x02]);
    let mut out = Vec::new();
    out.extend_from_slice(&[0x1A, 0x45, 0xDF, 0xA3]);
    assert!(content.len() < 0x80);
    out.push(0x80 | content.len() as u8);
    out.extend_from_slice(&content);
    out
}

fn segment_and_info_bytes() -> Vec<u8> {
    let mut out = Vec::new();
    out.extend_from_slice(&[0x18, 0x53, 0x80, 0x67]);
    out.extend_from_slice(&[0x01, 0xFF, 0xFF, 0xFF, 0xFF, 0xFF, 0xFF, 0xFF]);
    let mut info = Vec::new();
    info.extend_from_slice(&[0x2A, 0xD7, 0xB1, 0x83]);
    info.extend_from_slice(&[0x0F, 0x42, 0x40]);
    let app = b"videofuser-test";
    info.extend_from_slice(&[0x4D, 0x80, 0x80 | app.len() as u8]);
    info.extend_from_slice(app);
    info.extend_from_slice(&[0x57, 0x41, 0x80 | app.len() as u8]);
    info.extend_from_slice(app);
    out.extend_from_slice(&[0x15, 0x49, 0xA9, 0x66]);
    assert!(info.len() < 0x80);
    out.push(0x80 | info.len() as u8);
    out.extend_from_slice(&info);
    out
}

fn audio_track_entry(track_number: u8, default: bool) -> Vec<u8> {
    let mut body = Vec::new();
    body.extend_from_slice(&[0xD7, 0x81, track_number]);
    body.extend_from_slice(&[0x73, 0xC5, 0x81, track_number * 10]);
    body.extend_from_slice(&[0x83, 0x81, 0x02]);
    body.extend_from_slice(&[0x88, 0x81, if default { 1 } else { 0 }]);
    let codec = b"A_PCM/INT/LIT";
    body.extend_from_slice(&[0x86, 0x80 | codec.len() as u8]);
    body.extend_from_slice(codec);
    let mut audio = Vec::new();
    audio.extend_from_slice(&[0xB5, 0x84]);
    audio.extend_from_slice(&8000.0f32.to_be_bytes());
    audio.extend_from_slice(&[0x9F, 0x81, 0x01]);
    audio.extend_from_slice(&[0x62, 0x64, 0x81, 0x08]);
    body.extend_from_slice(&[0xE1, 0x80 | audio.len() as u8]);
    body.extend_from_slice(&audio);
    let mut out = Vec::new();
    out.push(0xAE);
    assert!(body.len() < 0x80);
    out.push(0x80 | body.len() as u8);
    out.extend_from_slice(&body);
    out
}

fn build_test_muxer() -> Arc<Muxer> {
    let mut pre = ebml_header_bytes();
    pre.extend(segment_and_info_bytes());
    let audio_te = audio_track_entry(1, true);

    let binstruct = BinstructFile {
        header: Header { version: 1, config_flags: 0 },
        source: Source {
            original_mkv_hash: [0; 32],
            publisher_info: "test".into(),
            creation_timestamp: 0,
            original_language: "und".into(),
            original_default_track_id: 1,
            build_tools: vec![ToolEntry { name: "test".into(), version: "0".into() }],
        },
        mkv_skeleton: MkvSkeleton {
            pre_tracks_blob: pre,
            track_entries: vec![TrackEntryRecord { track_id: 1, bytes: audio_te }],
            post_tracks_blob: vec![],
        },
        cluster_timestamps: ClusterTimestamps { cluster_count: 1, deltas: vec![0] },
        track_policies: vec![TrackPolicy {
            track_id: 1,
            codec_type: CodecType::Audio,
            language_code: "und".into(),
            frame_count: 2,
            is_vbr: false,
            frame_duration: 500,
            cbr_frame_size: Some(100),
            raw_file_hash: [0; 32],
            vfr_file_hash: None,
        }],
    };

    let audio_raw: Vec<u8> = (0u32..200).map(|v| (v & 0xFF) as u8).collect();
    let audio_source = TrackSource {
        track_id: 1,
        raw_file: Arc::new(MemRawFile::new(audio_raw)),
        vfr: None,
        policy: TrackPolicy {
            track_id: 1,
            codec_type: CodecType::Audio,
            language_code: "und".into(),
            frame_count: 2,
            is_vbr: false,
            frame_duration: 500,
            cbr_frame_size: Some(100),
            raw_file_hash: [0; 32],
            vfr_file_hash: None,
        },
    };
    let mut sources = HashMap::new();
    sources.insert(1u32, audio_source);

    Arc::new(
        Muxer::new(
            Arc::new(binstruct),
            sources,
            vec![1],
            1,
            ReadPolicy::NonBlock,
            Arc::new(FullyAvailable),
        )
        .expect("build_test_muxer"),
    )
}

#[test]
fn test_add_remove_torrent_unit() {
    let mut fs = VidFuserFs::new();
    let muxer = build_test_muxer();

    fs.add_torrent("t1".into(), "video".into(), muxer, vec![]);
    {
        assert!(fs.torrent("t1").is_some());
        // dir and mkv inodes should exist
        let t = fs.torrent("t1").unwrap();
        assert!(fs.inode_table().get_key(t.dir_inode).is_some());
        assert!(fs.inode_table().get_key(t.mkv_inode).is_some());
    }

    fs.remove_torrent("t1");
    assert!(fs.torrent("t1").is_none());
}

#[test]
fn test_update_visible_subs_unit() {
    let mut fs = VidFuserFs::new();
    let muxer = build_test_muxer();
    let size = b"sub content".len() as u64;

    fs.add_torrent("t1".into(), "video".into(), muxer, vec![]);

    let (appeared, disappeared) = fs.update_visible_subs(
        "t1",
        vec![("video.es.0.srt".to_string(), PathBuf::from("video.srt"), size)],
    );
    assert_eq!(appeared, vec!["video.es.0.srt".to_string()]);
    assert!(disappeared.is_empty(), "unexpected disappeared: {:?}", disappeared);

    let (appeared2, disappeared2) = fs.update_visible_subs("t1", vec![]);
    assert!(appeared2.is_empty(), "unexpected appeared: {:?}", appeared2);
    assert_eq!(disappeared2, vec!["video.es.0.srt".to_string()]);
}

#[test]
fn test_update_muxer_unit() {
    let mut fs = VidFuserFs::new();
    let muxer1 = build_test_muxer();
    let size1 = muxer1.total_size();

    fs.add_torrent("t1".into(), "video".into(), muxer1, vec![]);

    let muxer2 = build_test_muxer();
    let size2 = muxer2.total_size();
    fs.update_muxer("t1", muxer2);

    let t = fs.torrent("t1").unwrap();
    assert_eq!(t.muxer.total_size(), size2);
    assert_eq!(size1, size2); // same content
}

#[test]
fn test_inode_table_root() {
    let fs = VidFuserFs::new();
    assert_eq!(fs.inode_table().get_key(1), Some(&FileKey::Root));
}

#[test]
fn test_inode_table_bidirectional() {
    let mut fs = VidFuserFs::new();
    let muxer = build_test_muxer();
    fs.add_torrent("abc".into(), "file".into(), muxer, vec![]);

    let t = fs.torrent("abc").unwrap();

    // dir inode → key
    let dir_key = fs.inode_table().get_key(t.dir_inode).unwrap();
    assert_eq!(dir_key, &FileKey::TorrentDir { torrent_id: "abc".into() });

    // key → inode (round-trip)
    let back = fs.inode_table().get_inode(&FileKey::TorrentDir { torrent_id: "abc".into() });
    assert_eq!(back, Some(t.dir_inode));
}

fn mounted() -> VidFuserFs {
    let mut fs = VidFuserFs::new();
    fs.add_torrent(
        "t1".into(),
        "video".into(),
        build_test_muxer(),
        vec![("video.es.0.srt".to_string(), PathBuf::from("/subs/a.srt"), 11)],
    );
    fs
}

#[test]
fn inodes_are_given_out_in_order() {
    let mut a = InodeAllocator::new();
    let first = a.allocate();
    assert_eq!(a.allocate(), first + 1);
    assert!(first > 1);
    assert!(a.has_room(1000));
    assert!(VidFuserFs::new().has_room(1000));
}

#[test]
fn listing_of_the_root_names_the_torrents() {
    let fs = mounted();
    let list = fs.readdir(1, 0).unwrap();
    let names: Vec<&str> = list.iter().map(|e| e.name.as_str()).collect();
    assert_eq!(names, vec![".", "..", "t1"]);
    let later = fs.readdir(1, 2).unwrap();
    assert_eq!(later.len(), 1);
    assert_eq!(later[0].name, "t1");
    assert!(fs.readdir(1, -1).unwrap().is_empty());
}

#[test]
fn listed_names_can_be_looked_up() {
    let fs = mounted();
    let dir = fs.torrent("t1").unwrap().dir_inode;
    let list = fs.readdir(dir, 0).unwrap();
    let names: Vec<&str> = list.iter().map(|e| e.name.as_str()).collect();
    assert_eq!(names, vec![".", "..", "video.mkv", "video.es.0.srt"]);
    for e in &list[2..] {
        let attr = fs.lookup(dir, e.name.as_str()).unwrap();
        assert_eq!(attr.ino, e.ino);
        assert_eq!(fs.getattr(e.ino).unwrap().ino, e.ino);
    }
    assert!(matches!(fs.lookup(dir, "other"), Err(FsError::NoEntry)));
    assert!(matches!(fs.lookup(99, "other"), Err(FsError::NoEntry)));
    assert_eq!(fs.lookup(1, "t1").unwrap().ino, dir);
}

#[test]
fn attributes_tell_sizes_and_links() {
    let fs = mounted();
    let t = fs.torrent("t1").unwrap();
    let root = fs.getattr(1).unwrap();
    assert!(root.is_dir);
    assert_eq!(root.nlink, 3);
    let dir = fs.getattr(t.dir_inode).unwrap();
    assert_eq!(dir.nlink, 4);
    let mkv = fs.getattr(t.mkv_inode).unwrap();
    assert_eq!(mkv.size, t.muxer.total_size());
    assert_eq!(mkv.blocks, (t.muxer.total_size() + 511) / 512);
    let sub = fs.getattr(t.visible_subs[0].inode).unwrap();
    assert_eq!(sub.size, 11);
    assert_eq!(sub.blocks, 1);
    assert!(matches!(fs.getattr(77), Err(FsError::NoEntry)));
}

#[test]
fn files_open_for_reading_alone() {
    let fs = mounted();
    let t = fs.torrent("t1").unwrap();
    assert!(fs.open(t.mkv_inode, 0).is_ok());
    assert!(fs.open(t.visible_subs[0].inode, 0).is_ok());
    assert!(matches!(fs.open(t.mkv_inode, 1), Err(FsError::AccessDenied)));
    assert!(matches!(fs.open(t.mkv_inode, 2), Err(FsError::AccessDenied)));
    assert!(matches!(fs.open(t.dir_inode, 0), Err(FsError::NoEntry)));
    assert!(matches!(fs.readdir(t.mkv_inode, 0), Err(FsError::NotDirectory)));
}

#[test]
fn reads_are_cut_at_the_end() {
    let fs = mounted();
    let t = fs.torrent("t1").unwrap();
    let total = t.muxer.total_size();
    match fs.read(t.mkv_inode, (total - 5) as i64, 100).unwrap() {
        ReadAction::Mux { muxer, offset, length } => {
            assert_eq!(offset, total - 5);
            assert_eq!(length, 5);
            assert_eq!(muxer.read(offset, length).unwrap().len(), 5);
        }
        _ => panic!("expected a read of the virtual file"),
    }
    match fs.read(t.visible_subs[0].inode, 4, 100).unwrap() {
        ReadAction::Disk { path, offset, length } => {
            assert_eq!(path, &PathBuf::from("/subs/a.srt"));
            assert_eq!(offset, 4);
            assert_eq!(length, 7);
        }
        _ => panic!("expected a read from disk"),
    }
    assert!(matches!(fs.read(t.visible_subs[0].inode, 11, 1), Ok(ReadAction::Nothing)));
    assert!(matches!(fs.read(t.mkv_inode, -1, 1), Err(FsError::InputOutput)));
    assert!(matches!(fs.read(1, 0, 1), Err(FsError::NoEntry)));
}

#[test]
fn names_that_stay_keep_their_inodes() {
    let mut fs = mounted();
    let before = fs.torrent("t1").unwrap().visible_subs[0].inode;
    let (appeared, disappeared) = fs.update_visible_subs(
        "t1",
        vec![
            ("video.en.0.srt".to_string(), PathBuf::from("/subs/b.srt"), 3),
            ("video.es.0.srt".to_string(), PathBuf::from("/subs/c.srt"), 4),
        ],
    );
    assert_eq!(appeared, vec!["video.en.0.srt".to_string()]);
    assert!(disappeared.is_empty());
    let t = fs.torrent("t1").unwrap();
    assert_eq!(t.visible_subs[1].inode, before);
    assert_eq!(t.visible_subs[1].size, 4);
    assert_ne!(t.visible_subs[0].inode, before);
    let (a, d) = fs.update_visible_subs("unknown", vec![]);
    assert!(a.is_empty() && d.is_empty());
}

#[test]
fn removed_torrents_leave_no_inodes() {
    let mut fs = mounted();
    let t = fs.torrent("t1").unwrap();
    let inodes = vec![t.dir_inode, t.mkv_inode, t.visible_subs[0].inode];
    fs.remove_torrent("t1");
    for ino in inodes {
        assert!(fs.inode_table().get_key(ino).is_none());
    }
    assert!(fs.torrents().is_empty());
    fs.remove_torrent("t1");
}

#[test]
fn a_torrent_that_is_mounted_again_replaces_the_first() {
    let mut fs = mounted();
    let t = fs.torrent("t1").unwrap();
    let first = vec![t.dir_inode, t.mkv_inode, t.visible_subs[0].inode];
    fs.add_torrent("t2".into(), "other".into(), build_test_muxer(), vec![]);
    let kept = fs.torrent("t2").unwrap().dir_inode;
    fs.add_torrent(
        "t1".into(),
        "again".into(),
        build_test_muxer(),
        vec![("again.en.0.srt".to_string(), PathBuf::from("/subs/z.srt"), 5)],
    );
    for ino in &first {
        assert!(fs.inode_table().get_key(*ino).is_none());
    }
    let t = fs.torrent("t1").unwrap();
    let second = vec![t.dir_inode, t.mkv_inode, t.visible_subs[0].inode];
    assert_eq!(t.base_name, "again");
    assert_eq!(fs.torrents().len(), 2);
    fs.remove_torrent("t1");
    for ino in second {
        assert!(fs.inode_table().get_key(ino).is_none());
    }
    assert_eq!(
        fs.inode_table().get_key(kept),
        Some(&FileKey::TorrentDir { torrent_id: "t2".into() })
    );
    assert_eq!(fs.inode_table().get_key(1), Some(&FileKey::Root));
}

fn mounted_with_equal_names() -> VidFuserFs {
    let mut fs = VidFuserFs::new();
    let name = "video.es.0.srt".to_string();
    let path = PathBuf::from("/subs/a.srt");
    fs.add_torrent(
        "t1".into(),
        "video".into(),
        build_test_muxer(),
        vec![(name.clone(), path.clone(), 1), (name, path, 2)],
    );
    fs
}

#[test]
fn equal_names_get_an_inode_each_and_leave_none_behind() {
    let mut fs = mounted_with_equal_names();
    let key = FileKey::Sidecar {
        torrent_id: "t1".into(),
        exposed_name: "video.es.0.srt".into(),
    };
    let t = fs.torrent("t1").unwrap();
    assert_eq!((t.dir_inode, t.mkv_inode), (2, 3));
    let inodes: Vec<u64> = t.visible_subs.iter().map(|s| s.inode).collect();
    assert_eq!(inodes, vec![4, 5]);
    assert_eq!(fs.inode_table().get_key(4), Some(&key));
    assert_eq!(fs.inode_table().get_key(5), Some(&key));
    assert_eq!(fs.inode_table().get_inode(&key), Some(5));
    fs.remove_torrent("t1");
    for i in 2..20 {
        assert!(fs.inode_table().get_key(i).is_none());
    }
    assert_eq!(fs.inode_table().get_inode(&key), None);
}

#[test]
fn a_name_that_stays_keeps_the_inode_of_its_last_file() {
    let mut fs = mounted_with_equal_names();
    let name = "video.es.0.srt".to_string();
    let path = PathBuf::from("/subs/a.srt");
    let (appeared, disappeared) = fs.update_visible_subs(
        "t1",
        vec![(name.clone(), path.clone(), 1), (name, path, 2)],
    );
    assert!(appeared.is_empty() && disappeared.is_empty());
    let t = fs.torrent("t1").unwrap();
    let inodes: Vec<u64> = t.visible_subs.iter().map(|s| s.inode).collect();
    assert_eq!(inodes, vec![5, 5]);
}
