//! The tree and its changes.
use crate::fs::inode::{empty_table, InodeAllocator, InodeTable, TableModel};
use crate::fs::types::{
    sub_views, torrent_views, ExposedSub, FileKey, KeyModel, MountedTorrent, SubModel,
    TorrentModel,
};
use crate::muxer::coordinator::{MuxModel, Muxer};
use crate::text::same_text;
use std::path::PathBuf;
use std::sync::Arc;
use vstd::prelude::*;

verus! {

/// A subtitle file to expose: name, path on disk, size.
pub ghost struct NewSub {
    pub name: Seq<char>,
    pub path: PathBuf,
    pub size: u64,
}

pub open spec fn new_sub(s: (String, PathBuf, u64)) -> NewSub {
    NewSub { name: s.0@, path: s.1, size: s.2 }
}

pub open spec fn new_subs(s: Seq<(String, PathBuf, u64)>) -> Seq<NewSub> {
    Seq::new(s.len(), |i: int| new_sub(s[i]))
}

/// The names of subtitle files to expose.
pub open spec fn new_names(items: Seq<NewSub>) -> Seq<Seq<char>> {
    Seq::new(items.len(), |i: int| items[i].name)
}

/// The names of exposed subtitle files.
pub open spec fn sub_names(subs: Seq<SubModel>) -> Seq<Seq<char>> {
    Seq::new(subs.len(), |i: int| subs[i].name)
}

/// What is mounted, under which inodes, and which inode comes next.
pub ghost struct FsModel {
    pub torrents: Seq<TorrentModel>,
    pub table: TableModel,
    pub next: u64,
}

/// The place of a torrent from number `k` on.
pub open spec fn place_from(torrents: Seq<TorrentModel>, id: Seq<char>, k: nat) -> Option<nat>
    decreases torrents.len() - k,
{
    if k >= torrents.len() {
        None
    } else if torrents[k as int].id == id {
        Some(k)
    } else {
        place_from(torrents, id, k + 1)
    }
}

/// The place of a torrent.
pub open spec fn place_of(torrents: Seq<TorrentModel>, id: Seq<char>) -> Option<nat> {
    place_from(torrents, id, 0)
}

/// A place is that of the id, and no torrent before it has the id.
pub proof fn lemma_place(torrents: Seq<TorrentModel>, id: Seq<char>, k: nat)
    ensures
        match place_from(torrents, id, k) {
            Some(p) => k <= p < torrents.len() && torrents[p as int].id == id,
            None => forall|i: int| k <= i < torrents.len() ==> (#[trigger] torrents[i]).id != id,
        },
    decreases torrents.len() - k,
{
    if k < torrents.len() {
        lemma_place(torrents, id, k + 1);
    }
}

/// The table without the first `n` of `subs`.
pub open spec fn without_subs(t: TableModel, subs: Seq<SubModel>, n: nat) -> TableModel
    decreases n,
{
    if n == 0 {
        t
    } else {
        without_subs(t, subs, (n - 1) as nat).remove(subs[n - 1].inode)
    }
}

/// The first `n` of `names` that are not among `others`.
pub open spec fn missing_upto(names: Seq<Seq<char>>, others: Seq<Seq<char>>, n: nat) -> Seq<
    Seq<char>,
>
    decreases n,
{
    if n == 0 {
        Seq::empty()
    } else {
        let before = missing_upto(names, others, (n - 1) as nat);
        if others.contains(names[n - 1]) {
            before
        } else {
            before.push(names[n - 1])
        }
    }
}

/// The names that are not among `others`.
pub open spec fn missing(names: Seq<Seq<char>>, others: Seq<Seq<char>>) -> Seq<Seq<char>> {
    missing_upto(names, others, names.len())
}

/// The table without those of the first `n` of `subs` whose name is not among `names`.
pub open spec fn without_gone(
    t: TableModel,
    subs: Seq<SubModel>,
    names: Seq<Seq<char>>,
    n: nat,
) -> TableModel
    decreases n,
{
    if n == 0 {
        t
    } else {
        let before = without_gone(t, subs, names, (n - 1) as nat);
        if names.contains(subs[n - 1].name) {
            before
        } else {
            before.remove(subs[n - 1].inode)
        }
    }
}

/// Subtitle files under the inodes from `first` on.
pub open spec fn exposed(items: Seq<NewSub>, first: int) -> Seq<SubModel> {
    Seq::new(
        items.len(),
        |i: int|
            SubModel {
                name: items[i].name,
                path: items[i].path,
                inode: (first + i) as u64,
                size: items[i].size,
            },
    )
}

/// The table with the first `n` of `items` under the inodes from `first` on.
pub open spec fn entered(
    t: TableModel,
    first: int,
    id: Seq<char>,
    items: Seq<NewSub>,
    n: nat,
) -> TableModel
    decreases n,
{
    if n == 0 {
        t
    } else {
        entered(t, first, id, items, (n - 1) as nat).insert(
            (first + n - 1) as u64,
            KeyModel::Sidecar(id, items[n - 1].name),
        )
    }
}

/// A table, the next inode, and the subtitle files exposed so far.
pub ghost struct Rebuilt {
    pub table: TableModel,
    pub next: int,
    pub subs: Seq<SubModel>,
}

/// Exposes the first `n` of `items`: a name that has an inode keeps it, another gets
/// the next one.
pub open spec fn rebuilt(
    t: TableModel,
    next: int,
    id: Seq<char>,
    items: Seq<NewSub>,
    n: nat,
) -> Rebuilt
    decreases n,
{
    if n == 0 {
        Rebuilt { table: t, next, subs: Seq::empty() }
    } else {
        let b = rebuilt(t, next, id, items, (n - 1) as nat);
        let item = items[n - 1];
        let key = KeyModel::Sidecar(id, item.name);
        if b.table.inodes.contains_key(key) {
            Rebuilt {
                subs: b.subs.push(
                    SubModel {
                        name: item.name,
                        path: item.path,
                        inode: b.table.inodes[key],
                        size: item.size,
                    },
                ),
                ..b
            }
        } else {
            Rebuilt {
                table: b.table.insert(b.next as u64, key),
                next: b.next + 1,
                subs: b.subs.push(
                    SubModel {
                        name: item.name,
                        path: item.path,
                        inode: b.next as u64,
                        size: item.size,
                    },
                ),
            }
        }
    }
}

impl FsModel {
    /// A tree without torrents: the root has inode 1.
    pub open spec fn start() -> FsModel {
        FsModel {
            torrents: Seq::empty(),
            table: empty_table().insert(1, KeyModel::Root),
            next: 2,
        }
    }

    /// The tree with one more torrent: its directory, its virtual file and each of its
    /// subtitle files get the next inodes. One that has the same id is removed first, with
    /// its inodes.
    pub open spec fn added(
        self,
        id: Seq<char>,
        base_name: Seq<char>,
        muxer: MuxModel,
        items: Seq<NewSub>,
    ) -> FsModel {
        let base = self.removed(id);
        let torrent = TorrentModel {
            id,
            base_name,
            muxer,
            subs: exposed(items, self.next + 2),
            dir_inode: self.next,
            mkv_inode: (self.next + 1) as u64,
        };
        FsModel {
            torrents: base.torrents.push(torrent),
            table: entered(
                base.table.insert(self.next, KeyModel::TorrentDir(id)).insert(
                    (self.next + 1) as u64,
                    KeyModel::MkvVirtual(id),
                ),
                self.next + 2,
                id,
                items,
                items.len(),
            ),
            next: (self.next + 2 + items.len()) as u64,
        }
    }

    /// The tree without a torrent and its inodes.
    pub open spec fn removed(self, id: Seq<char>) -> FsModel {
        match place_of(self.torrents, id) {
            None => self,
            Some(k) => {
                let t = self.torrents[k as int];
                FsModel {
                    torrents: self.torrents.remove(k as int),
                    table: without_subs(
                        self.table.remove(t.dir_inode).remove(t.mkv_inode),
                        t.subs,
                        t.subs.len(),
                    ),
                    ..self
                }
            },
        }
    }

    /// The tree with other subtitle files for a torrent.
    pub open spec fn resubbed(self, id: Seq<char>, items: Seq<NewSub>) -> FsModel {
        match place_of(self.torrents, id) {
            None => self,
            Some(k) => {
                let t = self.torrents[k as int];
                let r = rebuilt(
                    without_gone(self.table, t.subs, new_names(items), t.subs.len()),
                    self.next as int,
                    id,
                    items,
                    items.len(),
                );
                FsModel {
                    torrents: self.torrents.update(k as int, TorrentModel { subs: r.subs, ..t }),
                    table: r.table,
                    next: r.next as u64,
                }
            },
        }
    }

    /// The tree with another reader for a torrent.
    pub open spec fn remuxed(self, id: Seq<char>, muxer: MuxModel) -> FsModel {
        match place_of(self.torrents, id) {
            None => self,
            Some(k) => FsModel {
                torrents: self.torrents.update(
                    k as int,
                    TorrentModel { muxer, ..self.torrents[k as int] },
                ),
                ..self
            },
        }
    }

    /// The names of a torrent's subtitle files.
    pub open spec fn names_of(self, id: Seq<char>) -> Seq<Seq<char>> {
        match place_of(self.torrents, id) {
            None => Seq::empty(),
            Some(k) => sub_names(self.torrents[k as int].subs),
        }
    }
}

pub open spec fn name_views(s: Seq<String>) -> Seq<Seq<char>> {
    Seq::new(s.len(), |i: int| s[i]@)
}

proof fn lemma_rebuilt_next(t: TableModel, next: int, id: Seq<char>, items: Seq<NewSub>, n: nat)
    ensures
        next <= rebuilt(t, next, id, items, n).next <= next + n,
        rebuilt(t, next, id, items, n).subs.len() == n,
    decreases n,
{
    if n > 0 {
        lemma_rebuilt_next(t, next, id, items, (n - 1) as nat);
    }
}

/// The names in `names` that are not in `others`.
fn missing_names(names: &Vec<String>, others: &Vec<String>) -> (r: Vec<String>)
    ensures
        name_views(r@) == missing(name_views(names@), name_views(others@)),
{
    let ghost all = name_views(names@);
    let ghost rest = name_views(others@);
    let mut out: Vec<String> = Vec::new();
    let mut i: usize = 0;
    assert(name_views(out@) =~= Seq::<Seq<char>>::empty());
    while i < names.len()
        invariant
            all == name_views(names@),
            rest == name_views(others@),
            i <= names@.len(),
            name_views(out@) == missing_upto(all, rest, i as nat),
        decreases names@.len() - i,
    {
        assert(all[i as int] == names@[i as int]@);
        if !contains_name(others, names[i].as_str()) {
            let copy: String = names[i].clone();
            assert(name_views(out@.push(copy)) =~= name_views(out@).push(copy@));
            out.push(copy);
        }
        i = i + 1;
    }
    out
}

fn contains_name(names: &Vec<String>, name: &str) -> (r: bool)
    ensures
        r == name_views(names@).contains(name@),
{
    let mut i: usize = 0;
    while i < names.len()
        invariant
            i <= names@.len(),
            forall|k: int| 0 <= k < i ==> name_views(names@)[k] != name@,
        decreases names@.len() - i,
    {
        if same_text(names[i].as_str(), name) {
            assert(name_views(names@)[i as int] == name@);
            return true;
        }
        i = i + 1;
    }
    false
}

/// A tree of mounted torrents.
pub struct VidFuserFs {
    torrents: Vec<MountedTorrent>,
    inode_table: InodeTable,
    allocator: InodeAllocator,
}

impl View for VidFuserFs {
    type V = FsModel;

    closed spec fn view(&self) -> FsModel {
        FsModel {
            torrents: torrent_views(self.torrents@),
            table: self.inode_table@,
            next: self.allocator@,
        }
    }
}

impl VidFuserFs {
    /// The table is in order.
    pub closed spec fn wf(&self) -> bool {
        self.inode_table.wf()
    }

    pub fn new() -> (r: Self)
        ensures
            r.wf(),
            r@ == FsModel::start(),
    {
        let mut inode_table: InodeTable = InodeTable::new();
        inode_table.insert(1, FileKey::Root);
        let r = Self { torrents: Vec::new(), inode_table, allocator: InodeAllocator::new() };
        assert(r@.torrents =~= Seq::<TorrentModel>::empty());
        r
    }

    /// The place of a torrent.
    fn find(&self, torrent_id: &str) -> (r: Option<usize>)
        ensures
            match r {
                Some(k) => place_of(self@.torrents, torrent_id@) == Some(k as nat) && k
                    < self.torrents@.len(),
                None => place_of(self@.torrents, torrent_id@) is None,
            },
    {
        let ghost views = torrent_views(self.torrents@);
        let mut k: usize = 0;
        while k < self.torrents.len()
            invariant
                views == torrent_views(self.torrents@),
                k <= self.torrents@.len(),
                place_of(views, torrent_id@) == place_from(views, torrent_id@, k as nat),
            decreases self.torrents@.len() - k,
        {
            assert(views[k as int] == self.torrents@[k as int]@);
            if same_text(self.torrents[k].torrent_id.as_str(), torrent_id) {
                return Some(k);
            }
            k = k + 1;
        }
        None
    }

    /// The mounted torrent with this id.
    pub fn torrent(&self, torrent_id: &str) -> (r: Option<&MountedTorrent>)
        ensures
            match place_of(self@.torrents, torrent_id@) {
                Some(k) => r matches Some(t) && t@ == self@.torrents[k as int],
                None => r is None,
            },
    {
        match self.find(torrent_id) {
            Some(k) => Some(&self.torrents[k]),
            None => None,
        }
    }

    /// The mounted torrents.
    pub fn torrents(&self) -> (r: &Vec<MountedTorrent>)
        ensures
            torrent_views(r@) == self@.torrents,
    {
        &self.torrents
    }

    /// Whether there are inodes for `n` more files.
    pub fn has_room(&self, n: usize) -> (r: bool)
        ensures
            r == (self@.next + n <= u64::MAX),
    {
        self.allocator.has_room(n)
    }

    /// The inodes of the tree.
    pub fn inode_table(&self) -> (r: &InodeTable)
        requires
            self.wf(),
        ensures
            r@ == self@.table,
            r.wf(),
    {
        &self.inode_table
    }

    /// Exposes subtitle files of a torrent, each under the next inode.
    fn enter(&mut self, torrent_id: &str, subs: Vec<(String, PathBuf, u64)>) -> (r: Vec<
        ExposedSub,
    >)
        requires
            old(self).wf(),
            old(self)@.next + subs@.len() <= u64::MAX,
        ensures
            final(self).wf(),
            final(self).torrents@ == old(self).torrents@,
            ({
                let items = new_subs(subs@);
                let first = old(self)@.next as int;
                &&& final(self)@.table == entered(
                    old(self)@.table,
                    first,
                    torrent_id@,
                    items,
                    items.len(),
                )
                &&& final(self)@.next == first + items.len()
                &&& sub_views(r@) == exposed(items, first)
            }),
    {
        let ghost start = self@;
        let ghost items = new_subs(subs@);
        let ghost id = torrent_id@;
        let mut made: Vec<ExposedSub> = Vec::new();
        let total: usize = subs.len();
        let mut rest: Vec<(String, PathBuf, u64)> = reversed(subs);
        let mut n: usize = 0;
        assert(sub_views(made@) =~= exposed(items, start.next as int).take(0));
        while n < total
            invariant
                total == items.len(),
                rest@.len() == total - n,
                forall|j: int|
                    0 <= j < rest@.len() ==> new_sub(#[trigger] rest@[j]) == items[total - 1 - j],
                n <= total,
                id == torrent_id@,
                start.next + total <= u64::MAX,
                self.inode_table.wf(),
                self.torrents@ == old(self).torrents@,
                self.inode_table@ == entered(start.table, start.next as int, id, items, n as nat),
                self.allocator@ == start.next + n,
                sub_views(made@) == exposed(items, start.next as int).take(n as int),
            decreases total - n,
        {
            if let Some((exposed_name, disk_path, size)) = rest.pop() {
                let inode: u64 = self.allocator.allocate();
                let key = FileKey::Sidecar {
                    torrent_id: torrent_id.to_owned(),
                    exposed_name: exposed_name.clone(),
                };
                self.inode_table.insert(inode, key);
                let sub = ExposedSub { exposed_name, disk_path, inode, size };
                proof {
                    let all = exposed(items, start.next as int);
                    assert(sub@ == all[n as int]);
                    assert(sub_views(made@.push(sub)) =~= sub_views(made@).push(sub@));
                    assert(all.take(n + 1) =~= all.take(n as int).push(all[n as int]));
                }
                made.push(sub);
            }
            n = n + 1;
        }
        proof {
            let all = exposed(items, start.next as int);
            assert(all.take(n as int) =~= all);
        }
        made
    }

    /// Exposes subtitle files of a torrent: a name that has an inode keeps it, another gets
    /// the next one.
    fn expose(&mut self, torrent_id: &str, subs: Vec<(String, PathBuf, u64)>) -> (r: Vec<
        ExposedSub,
    >)
        requires
            old(self).wf(),
            old(self)@.next + subs@.len() <= u64::MAX,
        ensures
            final(self).wf(),
            final(self)@.torrents == old(self)@.torrents,
            final(self).torrents@ == old(self).torrents@,
            ({
                let items = new_subs(subs@);
                let b = rebuilt(
                    old(self)@.table,
                    old(self)@.next as int,
                    torrent_id@,
                    items,
                    items.len(),
                );
                &&& final(self)@.table == b.table
                &&& final(self)@.next == b.next
                &&& sub_views(r@) == b.subs
            }),
    {
        let ghost start = self@;
        let ghost items = new_subs(subs@);
        let ghost id = torrent_id@;
        let mut made: Vec<ExposedSub> = Vec::new();
        let total: usize = subs.len();
        let mut rest: Vec<(String, PathBuf, u64)> = reversed(subs);
        let mut n: usize = 0;
        assert(sub_views(made@) =~= Seq::<SubModel>::empty());
        while n < total
            invariant
                total == items.len(),
                rest@.len() == total - n,
                forall|j: int|
                    0 <= j < rest@.len() ==> new_sub(#[trigger] rest@[j]) == items[total - 1 - j],
                n <= total,
                id == torrent_id@,
                start.next + total <= u64::MAX,
                self.inode_table.wf(),
                self.torrents@ == old(self).torrents@,
                ({
                    let b = rebuilt(start.table, start.next as int, id, items, n as nat);
                    &&& self.inode_table@ == b.table
                    &&& self.allocator@ == b.next
                    &&& sub_views(made@) == b.subs
                }),
            decreases total - n,
        {
            if let Some((exposed_name, disk_path, size)) = rest.pop() {
                proof {
                    lemma_rebuilt_next(start.table, start.next as int, id, items, n as nat);
                }
                let key = FileKey::Sidecar {
                    torrent_id: torrent_id.to_owned(),
                    exposed_name: exposed_name.clone(),
                };
                let inode: u64 = match self.inode_table.get_inode(&key) {
                    Some(existing) => existing,
                    None => {
                        let fresh: u64 = self.allocator.allocate();
                        self.inode_table.insert(fresh, key);
                        fresh
                    },
                };
                let sub = ExposedSub { exposed_name, disk_path, inode, size };
                assert(sub_views(made@.push(sub)) =~= sub_views(made@).push(sub@));
                made.push(sub);
            }
            n = n + 1;
        }
        made
    }

    /// Adds an active torrent to the tree. Assigns inodes for the directory, the
    /// virtual MKV, and each visible sidecar. A torrent that is mounted under the same id
    /// is removed first.
    pub fn add_torrent(
        &mut self,
        torrent_id: String,
        base_name: String,
        muxer: Arc<Muxer>,
        visible_subs: Vec<(String, PathBuf, u64)>,
    )
        requires
            old(self).wf(),
            old(self)@.next + 2 + visible_subs@.len() <= u64::MAX,
        ensures
            final(self).wf(),
            final(self)@ == old(self)@.added(
                torrent_id@,
                base_name@,
                muxer@,
                new_subs(visible_subs@),
            ),
    {
        self.remove_torrent(torrent_id.as_str());
        let dir_inode: u64 = self.allocator.allocate();
        self.inode_table.insert(dir_inode, FileKey::TorrentDir { torrent_id: torrent_id.clone() });
        let mkv_inode: u64 = self.allocator.allocate();
        self.inode_table.insert(mkv_inode, FileKey::MkvVirtual { torrent_id: torrent_id.clone() });
        let visible_subs: Vec<ExposedSub> = self.enter(torrent_id.as_str(), visible_subs);
        let torrent = MountedTorrent {
            torrent_id,
            base_name,
            muxer,
            visible_subs,
            dir_inode,
            mkv_inode,
        };
        let ghost before = self.torrents@;
        self.torrents.push(torrent);
        assert(torrent_views(self.torrents@) =~= torrent_views(before).push(torrent@));
    }

    /// Removes a torrent from the tree, freeing all its inodes.
    pub fn remove_torrent(&mut self, torrent_id: &str)
        requires
            old(self).wf(),
        ensures
            final(self).wf(),
            final(self)@ == old(self)@.removed(torrent_id@),
    {
        let ghost start = self@;
        let k: usize = match self.find(torrent_id) {
            Some(k) => k,
            None => return,
        };
        let ghost before = self.torrents@;
        let torrent: MountedTorrent = self.torrents.remove(k);
        proof {
            assert(torrent_views(self.torrents@) =~= torrent_views(before).remove(k as int));
            assert(start.torrents[k as int] == torrent@);
        }
        self.inode_table.remove_by_inode(torrent.dir_inode);
        self.inode_table.remove_by_inode(torrent.mkv_inode);
        let ghost base_table = self.inode_table@;
        let mut i: usize = 0;
        while i < torrent.visible_subs.len()
            invariant
                i <= torrent.visible_subs@.len(),
                self.inode_table.wf(),
                self.allocator == old(self).allocator,
                torrent_views(self.torrents@) == start.torrents.remove(k as int),
                self.inode_table@ == without_subs(base_table, torrent@.subs, i as nat),
            decreases torrent.visible_subs@.len() - i,
        {
            self.inode_table.remove_by_inode(torrent.visible_subs[i].inode);
            i = i + 1;
        }
    }

    /// Replaces the visible sidecar set for a torrent. Returns
    /// (appeared, disappeared) by exposed name.
    pub fn update_visible_subs(
        &mut self,
        torrent_id: &str,
        subs: Vec<(String, PathBuf, u64)>,
    ) -> (r: (Vec<String>, Vec<String>))
        requires
            old(self).wf(),
            old(self)@.next + subs@.len() <= u64::MAX,
        ensures
            final(self).wf(),
            final(self)@ == old(self)@.resubbed(torrent_id@, new_subs(subs@)),
            match place_of(old(self)@.torrents, torrent_id@) {
                None => r.0@.len() == 0 && r.1@.len() == 0,
                Some(k) => {
                    let was = old(self)@.names_of(torrent_id@);
                    let is = new_names(new_subs(subs@));
                    &&& name_views(r.0@) == missing(is, was)
                    &&& name_views(r.1@) == missing(was, is)
                },
            },
    {
        let ghost start = self@;
        let ghost items = new_subs(subs@);
        let ghost id = torrent_id@;
        let k: usize = match self.find(torrent_id) {
            Some(k) => k,
            None => return (Vec::new(), Vec::new()),
        };
        let ghost before = self.torrents@;
        let mut torrent: MountedTorrent = self.torrents.remove(k);
        let ghost was = torrent@;
        assert(start.torrents[k as int] == was);
        let old_names: Vec<String> = old_names_of(&torrent.visible_subs);
        let fresh_names: Vec<String> = fresh_names_of(&subs);
        let disappeared: Vec<String> = missing_names(&old_names, &fresh_names);
        let appeared: Vec<String> = missing_names(&fresh_names, &old_names);
        let mut i: usize = 0;
        while i < torrent.visible_subs.len()
            invariant
                i <= torrent.visible_subs@.len(),
                was == torrent@,
                name_views(fresh_names@) == new_names(items),
                self.inode_table.wf(),
                self.allocator == old(self).allocator,
                self.torrents@ == before.remove(k as int),
                self.inode_table@ == without_gone(
                    start.table,
                    was.subs,
                    new_names(items),
                    i as nat,
                ),
            decreases torrent.visible_subs@.len() - i,
        {
            assert(was.subs[i as int] == torrent.visible_subs@[i as int]@);
            if !contains_name(&fresh_names, torrent.visible_subs[i].exposed_name.as_str()) {
                self.inode_table.remove_by_inode(torrent.visible_subs[i].inode);
            }
            i = i + 1;
        }
        torrent.visible_subs = self.expose(torrent_id, subs);
        self.torrents.insert(k, torrent);
        proof {
            assert(torrent_views(self.torrents@) =~= start.torrents.update(
                k as int,
                torrent@,
            ));
        }
        (appeared, disappeared)
    }

    /// Replaces the muxer for a torrent (e.g., when audio filter prefs change).
    pub fn update_muxer(&mut self, torrent_id: &str, muxer: Arc<Muxer>)
        requires
            old(self).wf(),
        ensures
            final(self).wf(),
            final(self)@ == old(self)@.remuxed(torrent_id@, muxer@),
    {
        let ghost start = self@;
        if let Some(k) = self.find(torrent_id) {
            let mut torrent: MountedTorrent = self.torrents.remove(k);
            torrent.muxer = muxer;
            self.torrents.insert(k, torrent);
            assert(torrent_views(self.torrents@) =~= start.torrents.update(k as int, torrent@));
        }
    }
}

impl Default for VidFuserFs {
    fn default() -> (r: Self)
        ensures
            r.wf(),
            r@ == FsModel::start(),
    {
        Self::new()
    }
}

/// The items in the other order.
fn reversed(items: Vec<(String, PathBuf, u64)>) -> (r: Vec<(String, PathBuf, u64)>)
    ensures
        r@.len() == items@.len(),
        forall|k: int| 0 <= k < r@.len() ==> #[trigger] r@[k] == items@[items@.len() - 1 - k],
{
    let ghost all = items@;
    let mut items: Vec<(String, PathBuf, u64)> = items;
    let mut out: Vec<(String, PathBuf, u64)> = Vec::new();
    loop
        invariant
            items@.len() + out@.len() == all.len(),
            forall|k: int| 0 <= k < items@.len() ==> #[trigger] items@[k] == all[k],
            forall|k: int| 0 <= k < out@.len() ==> #[trigger] out@[k] == all[all.len() - 1 - k],
        ensures
            items@.len() == 0,
        decreases items@.len(),
    {
        match items.pop() {
            Some(x) => {
                out.push(x);
            },
            None => {
                break ;
            },
        }
    }
    out
}

fn old_names_of(subs: &Vec<ExposedSub>) -> (r: Vec<String>)
    ensures
        name_views(r@) == sub_names(sub_views(subs@)),
{
    let mut out: Vec<String> = Vec::new();
    let mut i: usize = 0;
    while i < subs.len()
        invariant
            i <= subs@.len(),
            name_views(out@) == sub_names(sub_views(subs@)).take(i as int),
        decreases subs@.len() - i,
    {
        let copy: String = subs[i].exposed_name.clone();
        proof {
            let all = sub_names(sub_views(subs@));
            assert(copy@ == all[i as int]);
            assert(name_views(out@.push(copy)) =~= name_views(out@).push(copy@));
            assert(all.take(i + 1) =~= all.take(i as int).push(all[i as int]));
        }
        out.push(copy);
        i = i + 1;
    }
    assert(sub_names(sub_views(subs@)).take(i as int) =~= sub_names(sub_views(subs@)));
    out
}

fn fresh_names_of(subs: &Vec<(String, PathBuf, u64)>) -> (r: Vec<String>)
    ensures
        name_views(r@) == new_names(new_subs(subs@)),
{
    let mut out: Vec<String> = Vec::new();
    let mut i: usize = 0;
    while i < subs.len()
        invariant
            i <= subs@.len(),
            name_views(out@) == new_names(new_subs(subs@)).take(i as int),
        decreases subs@.len() - i,
    {
        let copy: String = subs[i].0.clone();
        proof {
            let all = new_names(new_subs(subs@));
            assert(copy@ == all[i as int]);
            assert(name_views(out@.push(copy)) =~= name_views(out@).push(copy@));
            assert(all.take(i + 1) =~= all.take(i as int).push(all[i as int]));
        }
        out.push(copy);
        i = i + 1;
    }
    assert(new_names(new_subs(subs@)).take(i as int) =~= new_names(new_subs(subs@)));
    out
}

} // verus!
