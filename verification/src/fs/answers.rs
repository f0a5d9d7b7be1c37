//! How the answers of the tree hang together.
use crate::fs::inode::{number_after, TableModel};
use crate::fs::laws::{registered, sound, sub_registered};
use crate::fs::ops::{
    attr_of, entry_of, list_of, open_of, read_plan, root_entry, sub_named, sub_place_from,
    torrent_entry, torrent_of, FsError, NodeAttr, ReadModel,
};
use crate::fs::tree::{
    lemma_place, missing_upto, new_names, place_of, rebuilt, without_gone, FsModel, NewSub,
};
use crate::fs::types::{KeyModel, SubModel, TorrentModel};
use crate::muxer::coordinator::MuxModel;
use crate::muxer::plan::total;
use vstd::prelude::*;
use vstd::string::*;

verus! {

proof fn lemma_sub_found(subs: Seq<SubModel>, name: Seq<char>, k: nat)
    ensures
        match sub_place_from(subs, name, k) {
            Some(i) => k <= i < subs.len() && subs[i as int].name == name,
            None => forall|j: int| k <= j < subs.len() ==> (#[trigger] subs[j]).name != name,
        },
    decreases subs.len() - k,
{
    if k < subs.len() && subs[k as int].name != name {
        lemma_sub_found(subs, name, k + 1);
    }
}

proof fn lemma_torrent_found(m: FsModel, id: Seq<char>)
    requires
        sound(m),
    ensures
        torrent_of(m, id) matches Some(t) ==> t.id == id && registered(t, m.table),
        torrent_of(m, id) is None ==> forall|k: int|
            0 <= k < m.torrents.len() ==> (#[trigger] m.torrents[k]).id != id,
{
    lemma_place(m.torrents, id, 0);
    if let Some(k) = place_of(m.torrents, id) {
        assert(registered(m.torrents[k as int], m.table));
    }
}

/// What a name leads to has the attributes that its inode tells.
pub proof fn names_and_inodes_tell_the_same(m: FsModel, parent: u64, name: Seq<char>)
    requires
        sound(m),
    ensures
        entry_of(m, parent, name) matches Ok(attr) ==> attr_of(m, attr.ino) == Ok::<
            NodeAttr,
            FsError,
        >(attr),
{
    if m.table.keys.contains_key(parent) {
        match m.table.keys[parent] {
            KeyModel::Root => {
                lemma_torrent_found(m, name);
            },
            KeyModel::TorrentDir(id) => {
                lemma_torrent_found(m, id);
                if let Some(t) = torrent_of(m, id) {
                    lemma_sub_found(t.subs, name, 0);
                    if let Some(i) = sub_place_from(t.subs, name, 0) {
                        assert(sub_registered(m.table, t.id, t.subs, i as int));
                    }
                }
            },
            _ => {},
        }
    }
}

/// A name leads somewhere from the root exactly if a torrent has it for its id, and from the
/// directory of a torrent exactly if the virtual file or a subtitle file has it.
pub proof fn names_lead_to_what_is_mounted(m: FsModel, id: Seq<char>, name: Seq<char>)
    requires
        sound(m),
    ensures
        entry_of(m, 1, id) is Ok <==> exists|k: int|
            0 <= k < m.torrents.len() && (#[trigger] m.torrents[k]).id == id,
        torrent_of(m, id) matches Some(t) ==> {
            &&& entry_of(m, 1, id) matches Ok(a) && a.ino == t.dir_inode && a.is_dir
            &&& entry_of(m, t.dir_inode, name) is Ok <==> name == t.base_name + ".mkv"@ || exists|
                i: int,
            |
                0 <= i < t.subs.len() && (#[trigger] t.subs[i]).name == name
            &&& name == t.base_name + ".mkv"@ ==> (entry_of(m, t.dir_inode, name) matches Ok(a)
                && a.ino == t.mkv_inode && !a.is_dir && a.size == total(
                t.muxer.plan.pieces(),
            ) as u64)
        },
{
    lemma_place(m.torrents, id, 0);
    lemma_torrent_found(m, id);
    if let Some(k) = place_of(m.torrents, id) {
        assert(m.torrents[k as int].id == id);
        let t = m.torrents[k as int];
        lemma_sub_found(t.subs, name, 0);
        if let Some(i) = sub_place_from(t.subs, name, 0) {
            assert(t.subs[i as int].name == name);
        }
    }
}

/// A directory list can be read in parts: the cookie of an entry is the offset of the next
/// one, and a list from an offset on is what is left of the whole.
pub proof fn lists_go_on_at_the_cookie(m: FsModel, ino: u64, offset: i64)
    ensures
        list_of(m, ino, 0) matches Ok(all) ==> {
            &&& forall|i: int|
                0 <= i < all.len() && all.len() < u64::MAX ==> (#[trigger] all[i]).cookie == i + 1
            &&& list_of(m, ino, offset) matches Ok(part) && part == if 0 <= offset <= all.len() {
                all.skip(offset as int)
            } else {
                Seq::empty()
            }
        },
        list_of(m, ino, 0) is Err ==> list_of(m, ino, offset) == list_of(m, ino, 0),
{
    if let Ok(all) = list_of(m, ino, 0) {
        match m.table.keys[ino] {
            KeyModel::Root => {
                let l = Seq::new(
                    2 + m.torrents.len(),
                    |i: int| root_entry(m, i),
                );
                assert(l.skip(0) =~= l);
            },
            KeyModel::TorrentDir(id) => {
                let t = torrent_of(m, id)->0;
                let l = Seq::new(
                    3 + t.subs.len(),
                    |i: int| torrent_entry(t, i),
                );
                assert(l.skip(0) =~= l);
            },
            _ => {},
        }
    }
}

/// The lists: a directory first lists itself and the root, by one and two dots; the root then
/// every torrent by its id, a torrent its virtual file and every subtitle file. A directory
/// has as many links as its list has entries.
pub proof fn directories_list_what_is_mounted(m: FsModel, id: Seq<char>)
    requires
        sound(m),
    ensures
        list_of(m, 1, 0) matches Ok(all) && {
            &&& all.len() == 2 + m.torrents.len()
            &&& all[0].name == "."@ && all[0].ino == 1 && all[0].is_dir
            &&& all[1].name == ".."@ && all[1].ino == 1 && all[1].is_dir
            &&& forall|k: int|
                0 <= k < m.torrents.len() ==> {
                    let e = #[trigger] all[k + 2];
                    e.name == m.torrents[k].id && e.ino == m.torrents[k].dir_inode && e.is_dir
                }
            &&& attr_of(m, 1) matches Ok(a) && a.is_dir && (all.len() <= u32::MAX ==> a.nlink
                == all.len())
        },
        torrent_of(m, id) matches Some(t) ==> (list_of(m, t.dir_inode, 0) matches Ok(all) && {
            &&& all.len() == 3 + t.subs.len()
            &&& all[0].name == "."@ && all[0].ino == t.dir_inode && all[0].is_dir
            &&& all[1].name == ".."@ && all[1].ino == 1 && all[1].is_dir
            &&& all[2].name == t.base_name + ".mkv"@ && all[2].ino == t.mkv_inode && !all[2].is_dir
            &&& forall|k: int|
                0 <= k < t.subs.len() ==> {
                    let e = #[trigger] all[k + 3];
                    e.name == t.subs[k].name && e.ino == t.subs[k].inode && !e.is_dir
                }
            &&& attr_of(m, t.dir_inode) matches Ok(a) && a.is_dir && (all.len() <= u32::MAX
                ==> a.nlink == all.len())
        }),
{
    lemma_torrent_found(m, id);
    let l = Seq::new(2 + m.torrents.len(), |i: int| root_entry(m, i));
    assert(l.skip(0) =~= l);
    if let Some(t) = torrent_of(m, id) {
        let l = Seq::new(3 + t.subs.len(), |i: int| torrent_entry(t, i));
        assert(l.skip(0) =~= l);
    }
}

/// Nothing can be written: files can be read by all, directories be read and entered. A file
/// takes as many blocks of 512 bytes as its size needs.
pub proof fn attributes_are_those_of_read_only_files(m: FsModel, ino: u64)
    ensures
        attr_of(m, ino) matches Ok(a) ==> {
            &&& a.perm == if a.is_dir {
                0o555u16
            } else {
                0o444u16
            }
            &&& a.blocks * 512 >= a.size
            &&& a.size > 0 ==> (a.blocks - 1) * 512 < a.size
            &&& a.size == 0 ==> a.blocks == 0
            &&& m.table.keys[ino] !is Root ==> a.ino == ino
            &&& m.table.keys[ino] is Root ==> a.ino == 1
            &&& a.is_dir ==> a.size == 0 && a.blksize == 512
            &&& !a.is_dir ==> a.blksize == 4096
            &&& a.is_dir <==> m.table.keys[ino] is Root || m.table.keys[ino] is TorrentDir
            &&& m.table.keys[ino] is MkvVirtual ==> a.mtime == 1_700_000_000
            &&& !(m.table.keys[ino] is MkvVirtual) ==> a.mtime == 0
            &&& !a.is_dir ==> a.nlink == 1
        },
{
}

/// A read gives what is left of the file from the offset on, at most as much as was asked
/// for, and nothing at its end or after it. It goes to the reader of the torrent, or to the
/// subtitle file on disk, with the same offset.
pub proof fn reads_stay_within_the_file(m: FsModel, ino: u64, offset: i64, size: u32)
    ensures
        offset < 0 ==> read_plan(m, ino, offset, size) == Err::<ReadModel, FsError>(
            FsError::InputOutput,
        ),
        offset >= 0 ==> match attr_of(m, ino) {
            Ok(a) => if a.is_dir {
                read_plan(m, ino, offset, size) is Err
            } else {
                let left = a.size - offset;
                let n = if left < size {
                    left
                } else {
                    size as int
                };
                match read_plan(m, ino, offset, size) {
                    Ok(ReadModel::Nothing) => left <= 0,
                    Ok(ReadModel::Mux(muxer, from, len)) => left > 0 && from == offset && len == n
                        && (m.table.keys[ino] matches KeyModel::MkvVirtual(id) && (torrent_of(
                        m,
                        id,
                    ) matches Some(t) && muxer == t.muxer)),
                    Ok(ReadModel::Disk(path, from, len)) => left > 0 && from == offset && len == n
                        && (m.table.keys[ino] matches KeyModel::Sidecar(id, name) && (torrent_of(
                        m,
                        id,
                    ) matches Some(t) && (sub_named(t, name) matches Some(s) && path == s.path))),
                    Err(_) => false,
                }
            },
            Err(e) => read_plan(m, ino, offset, size) == Err::<ReadModel, FsError>(e),
        },
{
}

/// Whether flags ask for more than reading: the two low bits hold the access mode.
pub open spec fn asks_to_write(flags: i32) -> bool {
    (flags as u32) % 4 != 0
}

/// Files can be opened for reading alone, directories not at all.
pub proof fn files_open_for_reading_alone(m: FsModel, ino: u64, flags: i32)
    requires
        flags >= 0,
    ensures
        asks_to_write(flags) ==> open_of(m, ino, flags) == Err::<(), FsError>(
            FsError::AccessDenied,
        ),
        !asks_to_write(flags) ==> (open_of(m, ino, flags) is Ok <==> m.table.keys.contains_key(ino)
            && (m.table.keys[ino] is MkvVirtual || m.table.keys[ino] is Sidecar)),
{
    assert((flags & 3 != 0) == ((flags as u32) % 4 != 0)) by (bit_vector)
        requires
            flags >= 0,
    ;
}

/// Inode numbers are given out one after the other, from 2 on; after the greatest they begin
/// anew.
pub proof fn numbers_follow_each_other(n: u64)
    ensures
        n < u64::MAX ==> number_after(n) == n + 1,
        number_after(u64::MAX) == 0,
        FsModel::start().next == 2,
{
}

/// What appears and what disappears is told by name: the names that one list has and the other
/// has not, in order.
pub proof fn missing_names_are_those_of_one_list(
    names: Seq<Seq<char>>,
    others: Seq<Seq<char>>,
    n: nat,
    x: Seq<char>,
)
    requires
        n <= names.len(),
    ensures
        missing_upto(names, others, n).contains(x) <==> names.take(n as int).contains(x)
            && !others.contains(x),
    decreases n,
{
    let all = missing_upto(names, others, n);
    if n > 0 {
        let m = (n - 1) as nat;
        missing_names_are_those_of_one_list(names, others, m, x);
        let before = missing_upto(names, others, m);
        let last = names[n - 1];
        assert(names.take(n as int) =~= names.take(m as int).push(last));
        if names.take(m as int).contains(x) {
            let i = choose|i: int| 0 <= i < m && names.take(m as int)[i] == x;
            assert(names.take(n as int)[i] == x);
        }
        if x == last {
            assert(names.take(n as int)[m as int] == x);
        }
        if names.take(n as int).contains(x) && x != last {
            let i = choose|i: int| 0 <= i < n && names.take(n as int)[i] == x;
            assert(names.take(m as int)[i] == x);
        }
        if before.contains(x) {
            let i = choose|i: int| 0 <= i < before.len() && before[i] == x;
            assert(all[i] == x);
        }
        if !others.contains(last) {
            assert(all[before.len() as int] == last);
        }
        if all.contains(x) {
            let i = choose|i: int| 0 <= i < all.len() && all[i] == x;
            if i < before.len() {
                assert(before[i] == x);
            }
        }
    }
}

/// Another reader for a torrent changes the reader, and nothing else; an id that is not
/// mounted changes nothing.
pub proof fn remuxing_changes_the_reader_alone(m: FsModel, id: Seq<char>, muxer: MuxModel, k: int)
    requires
        sound(m),
        0 <= k < m.torrents.len(),
    ensures
        ({
            let r = m.remuxed(id, muxer);
            &&& r.table == m.table
            &&& r.next == m.next
            &&& r.torrents.len() == m.torrents.len()
            &&& r.torrents[k] == if m.torrents[k].id == id {
                TorrentModel { muxer, ..m.torrents[k] }
            } else {
                m.torrents[k]
            }
        }),
{
    lemma_place(m.torrents, id, 0);
    if let Some(p) = place_of(m.torrents, id) {
        if k < p {
            assert(m.torrents[k].id != m.torrents[p as int].id);
        } else if p < k {
            assert(m.torrents[p as int].id != m.torrents[k].id);
        }
    }
}

/// Other subtitle files for a torrent are shown as they were given, with their names, paths
/// and sizes, in order.
pub proof fn resubbed_files_are_those_given(m: FsModel, id: Seq<char>, items: Seq<NewSub>, k: int)
    requires
        sound(m),
        0 <= k < m.torrents.len(),
        m.torrents[k].id == id,
    ensures
        ({
            let t = m.resubbed(id, items).torrents[k];
            &&& t.subs.len() == items.len()
            &&& forall|i: int|
                0 <= i < items.len() ==> {
                    let s = #[trigger] t.subs[i];
                    s.name == items[i].name && s.path == items[i].path && s.size == items[i].size
                }
            &&& t.id == id && t.base_name == m.torrents[k].base_name && t.muxer
                == m.torrents[k].muxer && t.dir_inode == m.torrents[k].dir_inode && t.mkv_inode
                == m.torrents[k].mkv_inode
        }),
{
    lemma_place(m.torrents, id, 0);
    let p = place_of(m.torrents, id)->0 as int;
    if k < p {
        assert(m.torrents[k].id != m.torrents[p].id);
    } else if p < k {
        assert(m.torrents[p].id != m.torrents[k].id);
    }
    let t = m.torrents[k];
    lemma_rebuilt_items(
        without_gone(m.table, t.subs, new_names(items), t.subs.len()),
        m.next as int,
        id,
        items,
        items.len(),
    );
}

proof fn lemma_rebuilt_items(
    t: TableModel,
    next: int,
    id: Seq<char>,
    items: Seq<NewSub>,
    n: nat,
)
    requires
        n <= items.len(),
    ensures
        ({
            let r = rebuilt(t, next, id, items, n);
            &&& r.subs.len() == n
            &&& forall|i: int|
                0 <= i < n ==> {
                    let s = #[trigger] r.subs[i];
                    s.name == items[i].name && s.path == items[i].path && s.size == items[i].size
                }
        }),
    decreases n,
{
    if n > 0 {
        lemma_rebuilt_items(t, next, id, items, (n - 1) as nat);
        let b = rebuilt(t, next, id, items, (n - 1) as nat);
        let r = rebuilt(t, next, id, items, n);
        assert forall|i: int| 0 <= i < n implies ({
            let s = #[trigger] r.subs[i];
            s.name == items[i].name && s.path == items[i].path && s.size == items[i].size
        }) by {
            if i < n - 1 {
                assert(r.subs[i] == b.subs[i]);
            }
        }
    }
}

} // verus!
