//! Keys of files, and what is mounted.
use crate::muxer::coordinator::{MuxModel, Muxer};
use crate::text::same_text;
use std::path::PathBuf;
use std::sync::Arc;
use vstd::prelude::*;

verus! {

/// `std::path::PathBuf`, which is carried through.
#[verifier::external_type_specification]
#[verifier::external_body]
pub struct ExPathBuf(std::path::PathBuf);

/// Semantic key identifying a file or directory in the tree.
#[derive(Clone, Debug, Hash, PartialEq, Eq)]
pub enum FileKey {
    Root,
    TorrentDir { torrent_id: String },
    MkvVirtual { torrent_id: String },
    Sidecar { torrent_id: String, exposed_name: String },
}

/// [`FileKey`] with sequences for strings.
pub ghost enum KeyModel {
    Root,
    TorrentDir(Seq<char>),
    MkvVirtual(Seq<char>),
    Sidecar(Seq<char>, Seq<char>),
}

impl View for FileKey {
    type V = KeyModel;

    open spec fn view(&self) -> KeyModel {
        match self {
            FileKey::Root => KeyModel::Root,
            FileKey::TorrentDir { torrent_id } => KeyModel::TorrentDir(torrent_id@),
            FileKey::MkvVirtual { torrent_id } => KeyModel::MkvVirtual(torrent_id@),
            FileKey::Sidecar { torrent_id, exposed_name } => KeyModel::Sidecar(
                torrent_id@,
                exposed_name@,
            ),
        }
    }
}

impl FileKey {
    /// Whether two keys are the same.
    pub fn same(&self, other: &FileKey) -> (r: bool)
        ensures
            r == (self@ == other@),
    {
        match (self, other) {
            (FileKey::Root, FileKey::Root) => true,
            (FileKey::TorrentDir { torrent_id: a }, FileKey::TorrentDir { torrent_id: b }) => {
                same_text(a.as_str(), b.as_str())
            },
            (FileKey::MkvVirtual { torrent_id: a }, FileKey::MkvVirtual { torrent_id: b }) => {
                same_text(a.as_str(), b.as_str())
            },
            (
                FileKey::Sidecar { torrent_id: a, exposed_name: x },
                FileKey::Sidecar { torrent_id: b, exposed_name: y },
            ) => { same_text(a.as_str(), b.as_str()) && same_text(x.as_str(), y.as_str()) },
            _ => false,
        }
    }

    /// A copy of the key.
    pub fn copy(&self) -> (r: FileKey)
        ensures
            r@ == self@,
    {
        match self {
            FileKey::Root => FileKey::Root,
            FileKey::TorrentDir { torrent_id } => FileKey::TorrentDir {
                torrent_id: torrent_id.clone(),
            },
            FileKey::MkvVirtual { torrent_id } => FileKey::MkvVirtual {
                torrent_id: torrent_id.clone(),
            },
            FileKey::Sidecar { torrent_id, exposed_name } => FileKey::Sidecar {
                torrent_id: torrent_id.clone(),
                exposed_name: exposed_name.clone(),
            },
        }
    }
}

/// A sidecar subtitle file exposed in the tree.
pub struct ExposedSub {
    /// "<base>.<lang>.<variant>.<ext>"
    pub exposed_name: String,
    /// Real path on disk
    pub disk_path: PathBuf,
    pub inode: u64,
    pub size: u64,
}

/// [`ExposedSub`] with a sequence for the name.
pub ghost struct SubModel {
    pub name: Seq<char>,
    pub path: PathBuf,
    pub inode: u64,
    pub size: u64,
}

impl View for ExposedSub {
    type V = SubModel;

    open spec fn view(&self) -> SubModel {
        SubModel {
            name: self.exposed_name@,
            path: self.disk_path,
            inode: self.inode,
            size: self.size,
        }
    }
}

pub open spec fn sub_views(s: Seq<ExposedSub>) -> Seq<SubModel> {
    Seq::new(s.len(), |i: int| s[i]@)
}

/// State of a mounted torrent.
pub struct MountedTorrent {
    pub torrent_id: String,
    /// Base name of the MKV without extension
    pub base_name: String,
    pub muxer: Arc<Muxer>,
    /// Sidecars that pass the filter and are downloaded
    pub visible_subs: Vec<ExposedSub>,
    pub dir_inode: u64,
    pub mkv_inode: u64,
}

/// [`MountedTorrent`] with sequences for strings and vectors.
pub ghost struct TorrentModel {
    pub id: Seq<char>,
    pub base_name: Seq<char>,
    pub muxer: MuxModel,
    pub subs: Seq<SubModel>,
    pub dir_inode: u64,
    pub mkv_inode: u64,
}

impl View for MountedTorrent {
    type V = TorrentModel;

    open spec fn view(&self) -> TorrentModel {
        TorrentModel {
            id: self.torrent_id@,
            base_name: self.base_name@,
            muxer: self.muxer@,
            subs: sub_views(self.visible_subs@),
            dir_inode: self.dir_inode,
            mkv_inode: self.mkv_inode,
        }
    }
}

pub open spec fn torrent_views(s: Seq<MountedTorrent>) -> Seq<TorrentModel> {
    Seq::new(s.len(), |i: int| s[i]@)
}

} // verus!
