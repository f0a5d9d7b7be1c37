//! What the tree answers: attributes, names, directory lists, opening and reading.
use crate::fs::tree::{place_of, FsModel, VidFuserFs};
use crate::fs::types::{
    torrent_views, ExposedSub, FileKey, KeyModel, MountedTorrent, SubModel, TorrentModel,
};
use crate::muxer::coordinator::{MuxModel, Muxer};
use crate::muxer::plan::total;
use crate::text::same_text;
use std::path::PathBuf;
use std::sync::Arc;
use vstd::prelude::*;
use vstd::string::*;

verus! {

/// Why a request is refused.
#[derive(Debug, Clone, Copy, PartialEq, Eq, Structural)]
pub enum FsError {
    NoEntry,
    NotDirectory,
    AccessDenied,
    InputOutput,
}

/// The attributes of a file or directory.
#[derive(Debug, Clone, Copy, PartialEq, Eq)]
pub struct NodeAttr {
    pub ino: u64,
    pub is_dir: bool,
    pub size: u64,
    /// Blocks of 512 bytes.
    pub blocks: u64,
    /// Seconds since the epoch.
    pub mtime: u64,
    pub perm: u16,
    pub nlink: u32,
    pub blksize: u32,
}

/// Fixed time of virtual files, so that players don't treat them as empty.
pub const MKV_MTIME: u64 = 1_700_000_000;

/// A count in 32 bits; the greatest number for one that does not fit.
pub open spec fn count32(n: nat) -> u32 {
    if n <= u32::MAX {
        n as u32
    } else {
        u32::MAX
    }
}

/// The attributes of a directory with the given number of links.
pub open spec fn dir_node(ino: u64, links: nat) -> NodeAttr {
    NodeAttr {
        ino,
        is_dir: true,
        size: 0,
        blocks: 0,
        mtime: 0,
        perm: 0o555,
        nlink: count32(links),
        blksize: 512,
    }
}

/// The attributes of a file.
pub open spec fn file_node(ino: u64, size: u64, mtime: u64) -> NodeAttr {
    NodeAttr {
        ino,
        is_dir: false,
        size,
        blocks: ((size + 511) / 512) as u64,
        mtime,
        perm: 0o444,
        nlink: 1,
        blksize: 4096,
    }
}

fn dir_attr(ino: u64, base: u32, more: usize) -> (r: NodeAttr)
    requires
        base <= 3,
    ensures
        r == dir_node(ino, base as nat + more as nat),
{
    let links: u32 = if more as u64 <= (u32::MAX - base) as u64 {
        base + more as u32
    } else {
        u32::MAX
    };
    NodeAttr {
        ino,
        is_dir: true,
        size: 0,
        blocks: 0,
        mtime: 0,
        perm: 0o555,
        nlink: links,
        blksize: 512,
    }
}

fn file_attr(ino: u64, size: u64, mtime: u64) -> (r: NodeAttr)
    ensures
        r == file_node(ino, size, mtime),
{
    let blocks: u64 = if size % 512 == 0 {
        size / 512
    } else {
        size / 512 + 1
    };
    NodeAttr { ino, is_dir: false, size, blocks, mtime, perm: 0o444, nlink: 1, blksize: 4096 }
}

/// The place of the first subtitle file with a name, from number `k` on.
pub open spec fn sub_place_from(subs: Seq<SubModel>, name: Seq<char>, k: nat) -> Option<nat>
    decreases subs.len() - k,
{
    if k >= subs.len() {
        None
    } else if subs[k as int].name == name {
        Some(k)
    } else {
        sub_place_from(subs, name, k + 1)
    }
}

/// The subtitle file with a name.
pub open spec fn sub_named(t: TorrentModel, name: Seq<char>) -> Option<SubModel> {
    match sub_place_from(t.subs, name, 0) {
        Some(k) => Some(t.subs[k as int]),
        None => None,
    }
}

/// The size of the virtual file of a torrent.
pub open spec fn mkv_size(t: TorrentModel) -> u64 {
    total(t.muxer.plan.pieces()) as u64
}

/// The name of the virtual file of a torrent.
pub open spec fn mkv_name(t: TorrentModel) -> Seq<char> {
    t.base_name + ".mkv"@
}

/// The torrent with an id.
pub open spec fn torrent_of(m: FsModel, id: Seq<char>) -> Option<TorrentModel> {
    match place_of(m.torrents, id) {
        Some(k) => Some(m.torrents[k as int]),
        None => None,
    }
}

/// The attributes under an inode.
pub open spec fn attr_of(m: FsModel, ino: u64) -> Result<NodeAttr, FsError> {
    if !m.table.keys.contains_key(ino) {
        Err(FsError::NoEntry)
    } else {
        match m.table.keys[ino] {
            KeyModel::Root => Ok(dir_node(1, 2 + m.torrents.len())),
            KeyModel::TorrentDir(id) => match torrent_of(m, id) {
                Some(t) => Ok(dir_node(ino, 3 + t.subs.len())),
                None => Err(FsError::NoEntry),
            },
            KeyModel::MkvVirtual(id) => match torrent_of(m, id) {
                Some(t) => Ok(file_node(ino, mkv_size(t), MKV_MTIME)),
                None => Err(FsError::NoEntry),
            },
            KeyModel::Sidecar(id, name) => match torrent_of(m, id) {
                Some(t) => match sub_named(t, name) {
                    Some(s) => Ok(file_node(ino, s.size, 0)),
                    None => Err(FsError::NoEntry),
                },
                None => Err(FsError::NoEntry),
            },
        }
    }
}

/// The attributes under a name in a directory.
pub open spec fn entry_of(m: FsModel, parent: u64, name: Seq<char>) -> Result<NodeAttr, FsError> {
    if !m.table.keys.contains_key(parent) {
        Err(FsError::NoEntry)
    } else {
        match m.table.keys[parent] {
            KeyModel::Root => match torrent_of(m, name) {
                Some(t) => Ok(dir_node(t.dir_inode, 3 + t.subs.len())),
                None => Err(FsError::NoEntry),
            },
            KeyModel::TorrentDir(id) => match torrent_of(m, id) {
                Some(t) => if name == mkv_name(t) {
                    Ok(file_node(t.mkv_inode, mkv_size(t), MKV_MTIME))
                } else {
                    match sub_named(t, name) {
                        Some(s) => Ok(file_node(s.inode, s.size, 0)),
                        None => Err(FsError::NoEntry),
                    }
                },
                None => Err(FsError::NoEntry),
            },
            _ => Err(FsError::NoEntry),
        }
    }
}

/// An entry of a directory list; `cookie` is the offset of the next one.
#[derive(Debug, Clone, PartialEq, Eq)]
pub struct DirEntry {
    pub ino: u64,
    pub cookie: u64,
    pub is_dir: bool,
    pub name: String,
}

/// [`DirEntry`] with a sequence for the name.
pub ghost struct EntryModel {
    pub ino: u64,
    pub cookie: u64,
    pub is_dir: bool,
    pub name: Seq<char>,
}

impl View for DirEntry {
    type V = EntryModel;

    open spec fn view(&self) -> EntryModel {
        EntryModel { ino: self.ino, cookie: self.cookie, is_dir: self.is_dir, name: self.name@ }
    }
}

pub open spec fn entry_views(s: Seq<DirEntry>) -> Seq<EntryModel> {
    Seq::new(s.len(), |i: int| s[i]@)
}

/// Entry number `i` of the root: itself twice, then the torrents.
pub open spec fn root_entry(m: FsModel, i: int) -> EntryModel {
    EntryModel {
        ino: if i < 2 {
            1
        } else {
            m.torrents[i - 2].dir_inode
        },
        cookie: (i + 1) as u64,
        is_dir: true,
        name: if i == 0 {
            "."@
        } else if i == 1 {
            ".."@
        } else {
            m.torrents[i - 2].id
        },
    }
}

/// Entry number `i` of a torrent's directory: itself, the root, the virtual file, then
/// the subtitle files.
pub open spec fn torrent_entry(t: TorrentModel, i: int) -> EntryModel {
    EntryModel {
        ino: if i == 0 {
            t.dir_inode
        } else if i == 1 {
            1
        } else if i == 2 {
            t.mkv_inode
        } else {
            t.subs[i - 3].inode
        },
        cookie: (i + 1) as u64,
        is_dir: i < 2,
        name: if i == 0 {
            "."@
        } else if i == 1 {
            ".."@
        } else if i == 2 {
            mkv_name(t)
        } else {
            t.subs[i - 3].name
        },
    }
}

/// What is left of a list from `offset` on; nothing for a negative offset.
pub open spec fn from_offset(all: Seq<EntryModel>, offset: i64) -> Seq<EntryModel> {
    if offset < 0 || offset > all.len() {
        Seq::empty()
    } else {
        all.skip(offset as int)
    }
}

/// The list of a directory from `offset` on.
pub open spec fn list_of(m: FsModel, ino: u64, offset: i64) -> Result<Seq<EntryModel>, FsError> {
    if !m.table.keys.contains_key(ino) {
        Err(FsError::NoEntry)
    } else {
        match m.table.keys[ino] {
            KeyModel::Root => Ok(
                from_offset(
                    Seq::new(2 + m.torrents.len(), |i: int| root_entry(m, i)),
                    offset,
                ),
            ),
            KeyModel::TorrentDir(id) => match torrent_of(m, id) {
                Some(t) => Ok(
                    from_offset(
                        Seq::new(3 + t.subs.len(), |i: int| torrent_entry(t, i)),
                        offset,
                    ),
                ),
                None => Err(FsError::NoEntry),
            },
            _ => Err(FsError::NotDirectory),
        }
    }
}

/// What to do for a read.
pub enum ReadAction<'a> {
    /// The offset is at the end of the file or after it.
    Nothing,
    /// Read from the virtual file.
    Mux { muxer: Arc<Muxer>, offset: u64, length: u32 },
    /// Read from a file on disk.
    Disk { path: &'a PathBuf, offset: u64, length: u32 },
}

/// [`ReadAction`] for a given reader or path.
pub ghost enum ReadModel {
    Nothing,
    Mux(MuxModel, u64, u32),
    Disk(PathBuf, u64, u32),
}

impl<'a> View for ReadAction<'a> {
    type V = ReadModel;

    open spec fn view(&self) -> ReadModel {
        match self {
            ReadAction::Nothing => ReadModel::Nothing,
            ReadAction::Mux { muxer, offset, length } => ReadModel::Mux(muxer@, *offset, *length),
            ReadAction::Disk { path, offset, length } => ReadModel::Disk(
                **path,
                *offset,
                *length,
            ),
        }
    }
}

/// The length of a read that stays within a file.
pub open spec fn clamped(size: u32, offset: int, total_size: u64) -> u32 {
    if offset + size < total_size {
        size
    } else {
        (total_size - offset) as u32
    }
}

/// What to do for a read of `size` bytes from `offset` on.
pub open spec fn read_plan(m: FsModel, ino: u64, offset: i64, size: u32) -> Result<
    ReadModel,
    FsError,
> {
    if offset < 0 {
        Err(FsError::InputOutput)
    } else if !m.table.keys.contains_key(ino) {
        Err(FsError::NoEntry)
    } else {
        match m.table.keys[ino] {
            KeyModel::MkvVirtual(id) => match torrent_of(m, id) {
                Some(t) => if offset >= mkv_size(t) {
                    Ok(ReadModel::Nothing)
                } else {
                    Ok(
                        ReadModel::Mux(
                            t.muxer,
                            offset as u64,
                            clamped(size, offset as int, mkv_size(t)),
                        ),
                    )
                },
                None => Err(FsError::NoEntry),
            },
            KeyModel::Sidecar(id, name) => match torrent_of(m, id) {
                Some(t) => match sub_named(t, name) {
                    Some(s) => if offset >= s.size {
                        Ok(ReadModel::Nothing)
                    } else {
                        Ok(
                            ReadModel::Disk(
                                s.path,
                                offset as u64,
                                clamped(size, offset as int, s.size),
                            ),
                        )
                    },
                    None => Err(FsError::NoEntry),
                },
                None => Err(FsError::NoEntry),
            },
            _ => Err(FsError::NoEntry),
        }
    }
}

/// The bits of open flags that hold the access mode.
pub const ACCESS_MODE: i32 = 3;

/// Whether an inode may be opened with these flags.
pub open spec fn open_of(m: FsModel, ino: u64, flags: i32) -> Result<(), FsError> {
    if flags & ACCESS_MODE != 0 {
        Err(FsError::AccessDenied)
    } else if m.table.keys.contains_key(ino) && (m.table.keys[ino] is MkvVirtual
        || m.table.keys[ino] is Sidecar) {
        Ok(())
    } else {
        Err(FsError::NoEntry)
    }
}

/// The subtitle file with a name.
fn find_sub<'a>(t: &'a MountedTorrent, name: &str) -> (r: Option<&'a ExposedSub>)
    ensures
        match sub_named(t@, name@) {
            Some(s) => r matches Some(x) && x@ == s,
            None => r is None,
        },
{
    let ghost subs = t@.subs;
    let mut k: usize = 0;
    while k < t.visible_subs.len()
        invariant
            subs == t@.subs,
            k <= t.visible_subs@.len(),
            sub_place_from(subs, name@, 0) == sub_place_from(subs, name@, k as nat),
        decreases t.visible_subs@.len() - k,
    {
        assert(subs[k as int] == t.visible_subs@[k as int]@);
        if same_text(t.visible_subs[k].exposed_name.as_str(), name) {
            return Some(&t.visible_subs[k]);
        }
        k = k + 1;
    }
    None
}

fn name_of_mkv(t: &MountedTorrent) -> (r: String)
    ensures
        r@ == mkv_name(t@),
{
    let mut s: String = t.base_name.clone();
    s.append(".mkv");
    s
}

fn clamp(size: u32, offset: u64, total_size: u64) -> (r: u32)
    requires
        offset < total_size,
    ensures
        r == clamped(size, offset as int, total_size),
{
    let left: u64 = total_size - offset;
    if (size as u64) < left {
        size
    } else {
        left as u32
    }
}

/// Drops the entries before `offset`.
fn skip_entries(all: Vec<DirEntry>, offset: i64) -> (r: Vec<DirEntry>)
    ensures
        entry_views(r@) == from_offset(entry_views(all@), offset),
{
    let size: usize = all.len();
    if offset < 0 || offset as u64 > size as u64 {
        let none: Vec<DirEntry> = Vec::new();
        assert(entry_views(none@) =~= Seq::<EntryModel>::empty());
        return none;
    }
    let mut all: Vec<DirEntry> = all;
    let ghost before = all@;
    let rest: Vec<DirEntry> = all.split_off(offset as usize);
    assert(entry_views(rest@) =~= entry_views(before).skip(offset as int));
    rest
}

impl VidFuserFs {
    /// The attributes under an inode.
    pub fn getattr(&self, ino: u64) -> (r: Result<NodeAttr, FsError>)
        requires
            self.wf(),
        ensures
            r == attr_of(self@, ino),
    {
        let key: &FileKey = match self.inode_table().get_key(ino) {
            Some(k) => k,
            None => return Err(FsError::NoEntry),
        };
        match key {
            FileKey::Root => Ok(dir_attr(1, 2, self.torrents().len())),
            FileKey::TorrentDir { torrent_id } => match self.torrent(torrent_id.as_str()) {
                // ".", "..", "<base>.mkv" and the sidecars
                Some(t) => Ok(dir_attr(ino, 3, t.visible_subs.len())),
                None => Err(FsError::NoEntry),
            },
            FileKey::MkvVirtual { torrent_id } => match self.torrent(torrent_id.as_str()) {
                Some(t) => Ok(file_attr(ino, t.muxer.total_size(), MKV_MTIME)),
                None => Err(FsError::NoEntry),
            },
            FileKey::Sidecar { torrent_id, exposed_name } => match self.torrent(
                torrent_id.as_str(),
            ) {
                Some(t) => match find_sub(t, exposed_name.as_str()) {
                    Some(s) => Ok(file_attr(ino, s.size, 0)),
                    None => Err(FsError::NoEntry),
                },
                None => Err(FsError::NoEntry),
            },
        }
    }

    /// The attributes under a name in a directory.
    pub fn lookup(&self, parent: u64, name: &str) -> (r: Result<NodeAttr, FsError>)
        requires
            self.wf(),
        ensures
            r == entry_of(self@, parent, name@),
    {
        let key: &FileKey = match self.inode_table().get_key(parent) {
            Some(k) => k,
            None => return Err(FsError::NoEntry),
        };
        match key {
            FileKey::Root => match self.torrent(name) {
                Some(t) => Ok(dir_attr(t.dir_inode, 3, t.visible_subs.len())),
                None => Err(FsError::NoEntry),
            },
            FileKey::TorrentDir { torrent_id } => match self.torrent(torrent_id.as_str()) {
                Some(t) => {
                    if same_text(name, name_of_mkv(t).as_str()) {
                        return Ok(file_attr(t.mkv_inode, t.muxer.total_size(), MKV_MTIME));
                    }
                    match find_sub(t, name) {
                        Some(s) => Ok(file_attr(s.inode, s.size, 0)),
                        None => Err(FsError::NoEntry),
                    }
                },
                None => Err(FsError::NoEntry),
            },
            _ => Err(FsError::NoEntry),
        }
    }

    /// The list of a directory from `offset` on.
    pub fn readdir(&self, ino: u64, offset: i64) -> (r: Result<Vec<DirEntry>, FsError>)
        requires
            self.wf(),
        ensures
            match list_of(self@, ino, offset) {
                Ok(list) => r matches Ok(v) && entry_views(v@) == list,
                Err(e) => r matches Err(x) && x == e,
            },
    {
        let key: &FileKey = match self.inode_table().get_key(ino) {
            Some(k) => k,
            None => return Err(FsError::NoEntry),
        };
        let mut out: Vec<DirEntry> = Vec::new();
        match key {
            FileKey::Root => {
                let ghost all = Seq::new(
                    2 + self@.torrents.len(),
                    |i: int| root_entry(self@, i),
                );
                out.push(DirEntry { ino: 1, cookie: 1, is_dir: true, name: ".".to_owned() });
                out.push(DirEntry { ino: 1, cookie: 2, is_dir: true, name: "..".to_owned() });
                let torrents: &Vec<MountedTorrent> = self.torrents();
                let mut k: usize = 0;
                assert(entry_views(out@) =~= all.take(2));
                while k < torrents.len()
                    invariant
                        torrent_views(torrents@) == self@.torrents,
                        all == Seq::new(
                            2 + self@.torrents.len(),
                            |i: int| root_entry(self@, i),
                        ),
                        k <= torrents@.len(),
                        entry_views(out@) == all.take(2 + k as int),
                    decreases torrents@.len() - k,
                {
                    let t: &MountedTorrent = &torrents[k];
                    assert(self@.torrents[k as int] == t@);
                    let e = DirEntry {
                        ino: t.dir_inode,
                        cookie: (k as u128 + 3) as u64,
                        is_dir: true,
                        name: t.torrent_id.clone(),
                    };
                    proof {
                        assert(e@ == all[2 + k as int]);
                        assert(entry_views(out@.push(e)) =~= entry_views(out@).push(e@));
                        assert(all.take(3 + k as int) =~= all.take(2 + k as int).push(
                            all[2 + k as int],
                        ));
                    }
                    out.push(e);
                    k = k + 1;
                }
                assert(all.take(2 + k as int) =~= all);
                Ok(skip_entries(out, offset))
            },
            FileKey::TorrentDir { torrent_id } => match self.torrent(torrent_id.as_str()) {
                Some(t) => {
                    let ghost all = Seq::new(3 + t@.subs.len(), |i: int| torrent_entry(t@, i));
                    out.push(
                        DirEntry {
                            ino: t.dir_inode,
                            cookie: 1,
                            is_dir: true,
                            name: ".".to_owned(),
                        },
                    );
                    out.push(DirEntry { ino: 1, cookie: 2, is_dir: true, name: "..".to_owned() });
                    out.push(
                        DirEntry {
                            ino: t.mkv_inode,
                            cookie: 3,
                            is_dir: false,
                            name: name_of_mkv(t),
                        },
                    );
                    let mut k: usize = 0;
                    assert(entry_views(out@) =~= all.take(3));
                    while k < t.visible_subs.len()
                        invariant
                            all == Seq::new(3 + t@.subs.len(), |i: int| torrent_entry(t@, i)),
                            k <= t.visible_subs@.len(),
                            entry_views(out@) == all.take(3 + k as int),
                        decreases t.visible_subs@.len() - k,
                    {
                        let s: &ExposedSub = &t.visible_subs[k];
                        assert(t@.subs[k as int] == s@);
                        let e = DirEntry {
                            ino: s.inode,
                            cookie: (k as u128 + 4) as u64,
                            is_dir: false,
                            name: s.exposed_name.clone(),
                        };
                        proof {
                            assert(e@ == all[3 + k as int]);
                            assert(entry_views(out@.push(e)) =~= entry_views(out@).push(e@));
                            assert(all.take(4 + k as int) =~= all.take(3 + k as int).push(
                                all[3 + k as int],
                            ));
                        }
                        out.push(e);
                        k = k + 1;
                    }
                    assert(all.take(3 + k as int) =~= all);
                    Ok(skip_entries(out, offset))
                },
                None => Err(FsError::NoEntry),
            },
            _ => Err(FsError::NotDirectory),
        }
    }

    /// Whether an inode may be opened: files can, for reading.
    pub fn open(&self, ino: u64, flags: i32) -> (r: Result<(), FsError>)
        requires
            self.wf(),
        ensures
            r == open_of(self@, ino, flags),
    {
        if flags & ACCESS_MODE != 0 {
            return Err(FsError::AccessDenied);
        }
        match self.inode_table().get_key(ino) {
            Some(FileKey::MkvVirtual { torrent_id }) => Ok(()),
            Some(FileKey::Sidecar { torrent_id, exposed_name }) => Ok(()),
            _ => Err(FsError::NoEntry),
        }
    }

    /// What to do for a read of `size` bytes from `offset` on.
    pub fn read(&self, ino: u64, offset: i64, size: u32) -> (r: Result<ReadAction<'_>, FsError>)
        requires
            self.wf(),
        ensures
            match read_plan(self@, ino, offset, size) {
                Ok(p) => r matches Ok(a) && a@ == p,
                Err(e) => r matches Err(x) && x == e,
            },
    {
        if offset < 0 {
            return Err(FsError::InputOutput);
        }
        let offset: u64 = offset as u64;
        let key: &FileKey = match self.inode_table().get_key(ino) {
            Some(k) => k,
            None => return Err(FsError::NoEntry),
        };
        match key {
            FileKey::MkvVirtual { torrent_id } => match self.torrent(torrent_id.as_str()) {
                Some(t) => {
                    let total_size: u64 = t.muxer.total_size();
                    if offset >= total_size {
                        return Ok(ReadAction::Nothing);
                    }
                    let length: u32 = clamp(size, offset, total_size);
                    Ok(ReadAction::Mux { muxer: t.muxer.clone(), offset, length })
                },
                None => Err(FsError::NoEntry),
            },
            FileKey::Sidecar { torrent_id, exposed_name } => match self.torrent(
                torrent_id.as_str(),
            ) {
                Some(t) => match find_sub(t, exposed_name.as_str()) {
                    Some(s) => {
                        if offset >= s.size {
                            return Ok(ReadAction::Nothing);
                        }
                        let length: u32 = clamp(size, offset, s.size);
                        Ok(ReadAction::Disk { path: &s.disk_path, offset, length })
                    },
                    None => Err(FsError::NoEntry),
                },
                None => Err(FsError::NoEntry),
            },
            _ => Err(FsError::NoEntry),
        }
    }
}

} // verus!
