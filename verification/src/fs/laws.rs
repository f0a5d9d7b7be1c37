//! What every change of the tree keeps.
use crate::fs::inode::{insert_keeps_backed, remove_keeps_backed, TableModel};
use crate::fs::ops::{entry_of, mkv_name, sub_place_from, torrent_entry, torrent_of};
use crate::fs::tree::{
    entered, exposed, lemma_place, new_names, place_from, place_of, rebuilt, without_gone,
    without_subs, FsModel, NewSub,
};
use crate::fs::types::{KeyModel, SubModel, TorrentModel};
use crate::muxer::coordinator::MuxModel;
use vstd::prelude::*;

verus! {

/// Whether no name occurs twice.
pub open spec fn names_differ(names: Seq<Seq<char>>) -> bool {
    forall|i: int, j: int| 0 <= i < j < names.len() ==> names[i] != names[j]
}

/// The torrent that a key belongs to.
pub open spec fn owner(key: KeyModel) -> Option<Seq<char>> {
    match key {
        KeyModel::Root => None,
        KeyModel::TorrentDir(id) => Some(id),
        KeyModel::MkvVirtual(id) => Some(id),
        KeyModel::Sidecar(id, _) => Some(id),
    }
}

/// Whether no later subtitle file has the name of number `i`.
pub open spec fn is_last(subs: Seq<SubModel>, i: int) -> bool {
    forall|j: int| i < j < subs.len() ==> (#[trigger] subs[j]).name != subs[i].name
}

/// Whether the inode of subtitle file `i` leads to its key, and the key to the inode of the
/// last file with that name.
pub open spec fn sub_registered(
    table: TableModel,
    id: Seq<char>,
    subs: Seq<SubModel>,
    i: int,
) -> bool {
    let key = KeyModel::Sidecar(id, subs[i].name);
    &&& table.has_key(subs[i].inode, key)
    &&& table.inodes.contains_key(key)
    &&& is_last(subs, i) ==> table.inodes[key] == subs[i].inode
}

/// Whether a torrent's inodes are in the table under its keys.
pub open spec fn registered(t: TorrentModel, table: TableModel) -> bool {
    &&& table.has_key(t.dir_inode, KeyModel::TorrentDir(t.id))
    &&& table.has_inode(KeyModel::TorrentDir(t.id), t.dir_inode)
    &&& table.has_key(t.mkv_inode, KeyModel::MkvVirtual(t.id))
    &&& table.has_inode(KeyModel::MkvVirtual(t.id), t.mkv_inode)
    &&& forall|i: int| 0 <= i < t.subs.len() ==> #[trigger] sub_registered(table, t.id, t.subs, i)
}

/// What holds of every tree: the root has inode 1; a key leads to an inode that leads back
/// to it; no inode in use is the next one or a later one; ids differ; everything mounted is
/// in the table.
pub open spec fn sound(m: FsModel) -> bool {
    &&& m.table.has_key(1, KeyModel::Root)
    &&& m.table.has_inode(KeyModel::Root, 1)
    &&& m.table.backed()
    &&& forall|i: u64| #[trigger] m.table.keys.contains_key(i) ==> i < m.next
    &&& forall|a: int, b: int|
        0 <= a < b < m.torrents.len() ==> (#[trigger] m.torrents[a]).id != (
        #[trigger] m.torrents[b]).id
    &&& forall|k: int|
        0 <= k < m.torrents.len() ==> registered(#[trigger] m.torrents[k], m.table)
}

/// Whether an inode is one of a torrent's.
pub open spec fn is_inode_of(t: TorrentModel, i: u64) -> bool {
    ||| i == t.dir_inode
    ||| i == t.mkv_inode
    ||| exists|n: int| 0 <= n < t.subs.len() && (#[trigger] t.subs[n]).inode == i
}

/// Whether an inode is that of something mounted.
pub open spec fn in_use(torrents: Seq<TorrentModel>, i: u64) -> bool {
    i == 1 || exists|k: int| 0 <= k < torrents.len() && is_inode_of(#[trigger] torrents[k], i)
}

/// Whether a sound tree's table holds nothing but what is mounted.
pub open spec fn tidy(m: FsModel) -> bool {
    &&& sound(m)
    &&& forall|i: u64| #[trigger] m.table.keys.contains_key(i) ==> in_use(m.torrents, i)
}

/// Whether subtitle files with one name have one inode.
pub open spec fn one_inode_per_name(subs: Seq<SubModel>) -> bool {
    forall|a: int, b: int|
        0 <= a < subs.len() && 0 <= b < subs.len() && (#[trigger] subs[a]).name == (
        #[trigger] subs[b]).name ==> subs[a].inode == subs[b].inode
}

/// Whether a tidy tree has one inode for each name in a directory.
pub open spec fn paired(m: FsModel) -> bool {
    &&& tidy(m)
    &&& forall|k: int|
        0 <= k < m.torrents.len() ==> one_inode_per_name((#[trigger] m.torrents[k]).subs)
}

/// The tree without torrents is sound, and its table holds the root alone.
pub proof fn start_is_sound()
    ensures
        sound(FsModel::start()),
        tidy(FsModel::start()),
        paired(FsModel::start()),
{
}

/// Where each name in a directory has one inode, inodes and keys lead to each other.
pub proof fn paired_tables_match(m: FsModel)
    requires
        paired(m),
    ensures
        m.table.matched(),
{
    assert forall|i: u64| #[trigger] m.table.keys.contains_key(i) implies m.table.has_inode(
        m.table.keys[i],
        i,
    ) by {
        assert(in_use(m.torrents, i));
        if i != 1 {
            let k = choose|k: int|
                0 <= k < m.torrents.len() && is_inode_of(#[trigger] m.torrents[k], i);
            let t = m.torrents[k];
            assert(registered(t, m.table));
            if i != t.dir_inode && i != t.mkv_inode {
                let n = choose|n: int| 0 <= n < t.subs.len() && (#[trigger] t.subs[n]).inode == i;
                assert(sub_registered(m.table, t.id, t.subs, n));
                let l = lemma_last(t.subs, n);
                assert(sub_registered(m.table, t.id, t.subs, l));
                assert(t.subs[n].inode == t.subs[l].inode);
            }
        }
    }
}

/// The last subtitle file with the name of number `i`.
proof fn lemma_last(subs: Seq<SubModel>, i: int) -> (l: int)
    requires
        0 <= i < subs.len(),
    ensures
        i <= l < subs.len(),
        subs[l].name == subs[i].name,
        is_last(subs, l),
    decreases subs.len() - i,
{
    if is_last(subs, i) {
        i
    } else {
        let j = choose|j: int| i < j < subs.len() && (#[trigger] subs[j]).name == subs[i].name;
        lemma_last(subs, j)
    }
}

/// Whether a key leads to the same inode in two tables, or to none in both.
pub open spec fn same_inode(a: TableModel, b: TableModel, key: KeyModel) -> bool {
    a.inodes.contains_key(key) == b.inodes.contains_key(key) && a.inodes[key] == b.inodes[key]
}

/// Whether two tables hold the same but for the keys of one torrent.
pub open spec fn alike_but(a: TableModel, b: TableModel, id: Seq<char>) -> bool {
    &&& forall|i: u64| #[trigger]
        a.keys.contains_key(i) && owner(a.keys[i]) != Some(id) ==> b.has_key(i, a.keys[i])
    &&& forall|i: u64| #[trigger]
        b.keys.contains_key(i) && owner(b.keys[i]) != Some(id) ==> a.has_key(i, b.keys[i])
    &&& forall|key: KeyModel|
        owner(key) != Some(id) ==> #[trigger] same_inode(a, b, key)
}

proof fn lemma_alike_trans(a: TableModel, b: TableModel, c: TableModel, id: Seq<char>)
    requires
        alike_but(a, b, id),
        alike_but(b, c, id),
    ensures
        alike_but(a, c, id),
{
    assert forall|key: KeyModel| owner(key) != Some(id) implies #[trigger] same_inode(
        a,
        c,
        key,
    ) by {
        assert(same_inode(a, b, key) && same_inode(b, c, key));
    }
}

proof fn lemma_insert(t: TableModel, inode: u64, key: KeyModel, id: Seq<char>)
    requires
        t.backed(),
        !t.keys.contains_key(inode),
        owner(key) == Some(id),
    ensures
        t.insert(inode, key).backed(),
        alike_but(t, t.insert(inode, key), id),
{
    insert_keeps_backed(t, inode, key);
}

proof fn lemma_remove(t: TableModel, inode: u64, id: Seq<char>)
    requires
        t.backed(),
        t.keys.contains_key(inode) ==> owner(t.keys[inode]) == Some(id),
    ensures
        t.remove(inode).backed(),
        alike_but(t, t.remove(inode), id),
{
    remove_keeps_backed(t, inode);
}

/// A torrent stays registered when the keys of another change.
proof fn lemma_still_registered(t: TorrentModel, a: TableModel, b: TableModel, id: Seq<char>)
    requires
        registered(t, a),
        alike_but(a, b, id),
        t.id != id,
    ensures
        registered(t, b),
{
    assert(same_inode(a, b, KeyModel::TorrentDir(t.id)));
    assert(same_inode(a, b, KeyModel::MkvVirtual(t.id)));
    assert forall|i: int| 0 <= i < t.subs.len() implies #[trigger] sub_registered(
        b,
        t.id,
        t.subs,
        i,
    ) by {
        assert(sub_registered(a, t.id, t.subs, i));
        assert(same_inode(a, b, KeyModel::Sidecar(t.id, t.subs[i].name)));
    }
}

/// A registered torrent's inodes lead to its keys.
proof fn lemma_owner(t: TorrentModel, table: TableModel, i: u64)
    requires
        registered(t, table),
        is_inode_of(t, i),
    ensures
        table.keys.contains_key(i),
        owner(table.keys[i]) == Some(t.id),
{
    if i != t.dir_inode && i != t.mkv_inode {
        let n = choose|n: int| 0 <= n < t.subs.len() && (#[trigger] t.subs[n]).inode == i;
        assert(sub_registered(table, t.id, t.subs, n));
    }
}

/// What is left after the inodes of subtitle files are removed.
proof fn lemma_without_subs(t: TableModel, id: Seq<char>, subs: Seq<SubModel>, n: nat)
    requires
        n <= subs.len(),
        t.backed(),
        forall|k: int|
            0 <= k < subs.len() && t.keys.contains_key((#[trigger] subs[k]).inode) ==> owner(
                t.keys[subs[k].inode],
            ) == Some(id),
    ensures
        ({
            let r = without_subs(t, subs, n);
            &&& r.backed()
            &&& alike_but(t, r, id)
            &&& forall|i: u64| #[trigger]
                r.keys.contains_key(i) <==> t.keys.contains_key(i) && forall|k: int|
                    0 <= k < n ==> (#[trigger] subs[k]).inode != i
            &&& forall|i: u64| #[trigger] r.keys.contains_key(i) ==> r.keys[i] == t.keys[i]
        }),
    decreases n,
{
    if n > 0 {
        let b = without_subs(t, subs, (n - 1) as nat);
        let r = without_subs(t, subs, n);
        lemma_without_subs(t, id, subs, (n - 1) as nat);
        lemma_remove(b, subs[n - 1].inode, id);
        lemma_alike_trans(t, b, r, id);
        assert forall|i: u64| #[trigger] r.keys.contains_key(i) <==> (t.keys.contains_key(i)
            && forall|k: int| 0 <= k < n ==> (#[trigger] subs[k]).inode != i) by {
            if r.keys.contains_key(i) {
                assert(b.keys.contains_key(i));
            }
            if t.keys.contains_key(i) && forall|k: int|
                0 <= k < n ==> (#[trigger] subs[k]).inode != i {
                assert(subs[n - 1].inode != i);
                assert(b.keys.contains_key(i));
            }
        }
        assert forall|i: u64| #[trigger] r.keys.contains_key(i) implies r.keys[i]
            == t.keys[i] by {
            assert(b.keys.contains_key(i));
        }
    }
}

/// Removing a torrent takes out its inodes, and leaves everything else as it was: the other
/// torrents in their order, and the inodes of all keys that are not its own. An id that is
/// not mounted changes nothing.
pub proof fn removing_changes_nothing_else(m: FsModel, id: Seq<char>)
    requires
        sound(m),
    ensures
        ({
            let r = m.removed(id);
            &&& r.next == m.next
            &&& r.table.backed()
            &&& alike_but(m.table, r.table, id)
            &&& match place_of(m.torrents, id) {
                None => r == m,
                Some(k) => {
                    let t = m.torrents[k as int];
                    &&& t.id == id
                    &&& r.torrents == m.torrents.remove(k as int)
                    &&& forall|i: u64| #[trigger]
                        r.table.keys.contains_key(i) <==> m.table.keys.contains_key(i)
                            && !is_inode_of(t, i)
                    &&& forall|i: u64| #[trigger]
                        r.table.keys.contains_key(i) ==> r.table.keys[i] == m.table.keys[i]
                },
            }
            &&& forall|k: int| 0 <= k < r.torrents.len() ==> (#[trigger] r.torrents[k]).id != id
        }),
{
    lemma_place(m.torrents, id, 0);
    let r = m.removed(id);
    if let Some(p) = place_of(m.torrents, id) {
        let k = p as int;
        let t = m.torrents[k];
        assert(registered(t, m.table));
        let t1 = m.table.remove(t.dir_inode);
        let t2 = t1.remove(t.mkv_inode);
        lemma_remove(m.table, t.dir_inode, id);
        lemma_remove(t1, t.mkv_inode, id);
        lemma_alike_trans(m.table, t1, t2, id);
        assert forall|n: int|
            0 <= n < t.subs.len() && t2.keys.contains_key(
                (#[trigger] t.subs[n]).inode,
            ) implies owner(t2.keys[t.subs[n].inode]) == Some(id) by {
            assert(sub_registered(m.table, t.id, t.subs, n));
        }
        lemma_without_subs(t2, id, t.subs, t.subs.len());
        lemma_alike_trans(m.table, t2, r.table, id);
        assert forall|i: u64| #[trigger]
            r.table.keys.contains_key(i) <==> m.table.keys.contains_key(i) && !is_inode_of(
                t,
                i,
            ) by {
            assert(r.table.keys.contains_key(i) <==> t2.keys.contains_key(i) && forall|n: int|
                0 <= n < t.subs.len() ==> (#[trigger] t.subs[n]).inode != i);
        }
        assert forall|a: int| 0 <= a < r.torrents.len() implies (#[trigger] r.torrents[a]).id
            != id by {
            if a < k {
                assert(m.torrents[a].id != m.torrents[k].id);
            } else {
                assert(m.torrents[k].id != m.torrents[a + 1].id);
            }
        }
    }
}

/// Removing a torrent keeps a tree sound, its table to what is mounted, and one inode for
/// each name. In a tidy tree nothing is left under the torrent's keys.
pub proof fn removing_keeps_sound(m: FsModel, id: Seq<char>)
    requires
        sound(m),
    ensures
        sound(m.removed(id)),
        tidy(m) ==> tidy(m.removed(id)),
        tidy(m) ==> forall|i: u64| #[trigger]
            m.removed(id).table.keys.contains_key(i) ==> owner(m.removed(id).table.keys[i])
                != Some(id),
        paired(m) ==> paired(m.removed(id)),
{
    let r = m.removed(id);
    lemma_removed_sound(m, id);
    if tidy(m) {
        assert forall|i: u64| #[trigger] r.table.keys.contains_key(i) implies in_use(r.torrents, i)
            && owner(r.table.keys[i]) != Some(id) by {
            lemma_removed_in_use(m, id, i);
        }
    }
    if paired(m) {
        lemma_place(m.torrents, id, 0);
        assert forall|a: int| 0 <= a < r.torrents.len() implies one_inode_per_name(
            (#[trigger] r.torrents[a]).subs,
        ) by {
            if let Some(p) = place_of(m.torrents, id) {
                assert(r.torrents[a] == m.torrents[after_gap(a, p as int)]);
            }
        }
    }
}

proof fn lemma_removed_sound(m: FsModel, id: Seq<char>)
    requires
        sound(m),
    ensures
        sound(m.removed(id)),
{
    lemma_place(m.torrents, id, 0);
    removing_changes_nothing_else(m, id);
    let r = m.removed(id);
    if let Some(p) = place_of(m.torrents, id) {
        let k = p as int;
        assert forall|a: int, b: int| 0 <= a < b < r.torrents.len() implies (
        #[trigger] r.torrents[a]).id != (#[trigger] r.torrents[b]).id by {
            assert(m.torrents[after_gap(a, k)].id != m.torrents[after_gap(b, k)].id);
        }
        assert forall|a: int| 0 <= a < r.torrents.len() implies registered(
            #[trigger] r.torrents[a],
            r.table,
        ) by {
            assert(r.torrents[a] == m.torrents[after_gap(a, k)]);
            assert(registered(m.torrents[after_gap(a, k)], m.table));
            lemma_still_registered(r.torrents[a], m.table, r.table, id);
        }
        assert(same_inode(m.table, r.table, KeyModel::Root));
        assert(m.table.keys.contains_key(1));
    }
}

proof fn lemma_removed_in_use(m: FsModel, id: Seq<char>, i: u64)
    requires
        tidy(m),
        m.removed(id).table.keys.contains_key(i),
    ensures
        in_use(m.removed(id).torrents, i),
        owner(m.removed(id).table.keys[i]) != Some(id),
{
    lemma_place(m.torrents, id, 0);
    removing_changes_nothing_else(m, id);
    let r = m.removed(id);
    assert(m.table.keys.contains_key(i));
    assert(r.table.keys[i] == m.table.keys[i]);
    if i != 1 {
        assert(in_use(m.torrents, i));
        let j = choose|j: int| 0 <= j < m.torrents.len() && is_inode_of(#[trigger] m.torrents[j], i);
        assert(registered(m.torrents[j], m.table));
        lemma_owner(m.torrents[j], m.table, i);
        match place_of(m.torrents, id) {
            None => {
                assert(m.torrents[j].id != id);
            },
            Some(p) => {
                let k = p as int;
                assert(j != k);
                let a = if j < k {
                    j
                } else {
                    j - 1
                };
                assert(r.torrents[a] == m.torrents[j]);
            },
        }
    }
}

/// The place, before number `k` was taken out, of what is now number `a`.
spec fn after_gap(a: int, k: int) -> int {
    if a < k {
        a
    } else {
        a + 1
    }
}

/// What the table holds after subtitle files are entered under new inodes.
proof fn lemma_entered(t: TableModel, first: int, id: Seq<char>, items: Seq<NewSub>, n: nat)
    requires
        n <= items.len(),
        0 <= first,
        first + items.len() <= u64::MAX,
        t.backed(),
        forall|i: u64| #[trigger] t.keys.contains_key(i) ==> i < first,
    ensures
        ({
            let r = entered(t, first, id, items, n);
            &&& r.backed()
            &&& alike_but(t, r, id)
            &&& forall|i: u64| #[trigger]
                r.keys.contains_key(i) <==> t.keys.contains_key(i) || first <= i < first + n
            &&& forall|i: u64| #[trigger] t.keys.contains_key(i) ==> r.keys[i] == t.keys[i]
            &&& forall|key: KeyModel|
                !(key is Sidecar) ==> #[trigger] same_inode(t, r, key)
            &&& forall|k: int| 0 <= k < n ==> #[trigger] entry_made(r, first, id, items, n, k)
        }),
    decreases n,
{
    if n > 0 {
        let b = entered(t, first, id, items, (n - 1) as nat);
        let r = entered(t, first, id, items, n);
        let inode = (first + n - 1) as u64;
        let key = KeyModel::Sidecar(id, items[n - 1].name);
        lemma_entered(t, first, id, items, (n - 1) as nat);
        assert(!b.keys.contains_key(inode));
        lemma_insert(b, inode, key, id);
        lemma_alike_trans(t, b, r, id);
        assert forall|i: u64| #[trigger] t.keys.contains_key(i) implies r.keys[i] == t.keys[i] by {
            assert(b.keys[i] == t.keys[i]);
        }
        assert forall|x: KeyModel| !(x is Sidecar) implies #[trigger] same_inode(t, r, x) by {
            assert(same_inode(t, b, x));
        }
        assert forall|k: int| 0 <= k < n implies #[trigger] entry_made(
            r,
            first,
            id,
            items,
            n,
            k,
        ) by {
            if k < n - 1 {
                assert(entry_made(b, first, id, items, (n - 1) as nat, k));
                if !has_later(items, n, k) {
                    assert(items[n - 1].name != items[k].name);
                    assert(!has_later(items, (n - 1) as nat, k));
                }
            }
        }
    }
}

/// Whether one of the first `n` items after number `k` has its name.
spec fn has_later(items: Seq<NewSub>, n: nat, k: int) -> bool {
    exists|j: int| k < j < n && (#[trigger] items[j]).name == items[k].name
}

/// Whether item `k` is in the table after the first `n` were entered.
spec fn entry_made(
    r: TableModel,
    first: int,
    id: Seq<char>,
    items: Seq<NewSub>,
    n: nat,
    k: int,
) -> bool {
    let key = KeyModel::Sidecar(id, items[k].name);
    &&& r.has_key((first + k) as u64, key)
    &&& r.inodes.contains_key(key)
    &&& !has_later(items, n, k) ==> r.inodes[key] == first + k
}

/// What the table holds after a torrent is added.
proof fn lemma_added(
    m: FsModel,
    id: Seq<char>,
    base_name: Seq<char>,
    muxer: MuxModel,
    items: Seq<NewSub>,
)
    requires
        sound(m),
        m.next + 2 + items.len() <= u64::MAX,
    ensures
        ({
            let base = m.removed(id);
            let r = m.added(id, base_name, muxer, items);
            &&& r.table.backed()
            &&& alike_but(base.table, r.table, id)
            &&& registered(r.torrents.last(), r.table)
            &&& forall|i: u64| #[trigger]
                r.table.keys.contains_key(i) <==> base.table.keys.contains_key(i) || m.next <= i
                    < r.next
        }),
{
    let base = m.removed(id);
    let dir = KeyModel::TorrentDir(id);
    let mkv = KeyModel::MkvVirtual(id);
    let second = (m.next + 1) as u64;
    let r = m.added(id, base_name, muxer, items);
    let t = r.torrents.last();
    removing_keeps_sound(m, id);
    removing_changes_nothing_else(m, id);
    let t1 = base.table.insert(m.next, dir);
    let t2 = t1.insert(second, mkv);
    assert(!base.table.keys.contains_key(m.next));
    lemma_insert(base.table, m.next, dir, id);
    assert(!base.table.keys.contains_key(second));
    lemma_insert(t1, second, mkv, id);
    lemma_entered(t2, m.next + 2, id, items, items.len());
    lemma_alike_trans(base.table, t1, t2, id);
    lemma_alike_trans(base.table, t2, r.table, id);
    assert(t2.keys.contains_key(m.next) && t2.keys.contains_key(second));
    assert(same_inode(t2, r.table, dir) && same_inode(t2, r.table, mkv));
    assert forall|k: int| 0 <= k < t.subs.len() implies #[trigger] sub_registered(
        r.table,
        id,
        t.subs,
        k,
    ) by {
        assert(entry_made(r.table, m.next + 2, id, items, items.len(), k));
        if is_last(t.subs, k) {
            assert forall|j: int| k < j < items.len() implies (#[trigger] items[j]).name
                != items[k].name by {
                assert(t.subs[j].name != t.subs[k].name);
            }
        }
    }
}

/// A torrent that was added is mounted under the next inodes: its directory, its virtual
/// file, and each of its subtitle files in order, also where two have one name.
pub proof fn added_torrent_gets_the_next_inodes(
    m: FsModel,
    id: Seq<char>,
    base_name: Seq<char>,
    muxer: MuxModel,
    items: Seq<NewSub>,
)
    requires
        sound(m),
        m.next + 2 + items.len() <= u64::MAX,
    ensures
        ({
            let r = m.added(id, base_name, muxer, items);
            let t = r.torrents.last();
            &&& t.id == id
            &&& t.base_name == base_name
            &&& t.muxer == muxer
            &&& t.dir_inode == m.next
            &&& t.mkv_inode == m.next + 1
            &&& t.subs == exposed(items, m.next + 2)
            &&& registered(t, r.table)
            &&& r.next == m.next + 2 + items.len()
            &&& alike_but(m.table, r.table, id)
            &&& forall|i: u64| #[trigger]
                r.table.keys.contains_key(i) <==> m.removed(id).table.keys.contains_key(i)
                    || m.next <= i < r.next
        }),
{
    removing_changes_nothing_else(m, id);
    lemma_added(m, id, base_name, muxer, items);
    lemma_alike_trans(
        m.table,
        m.removed(id).table,
        m.added(id, base_name, muxer, items).table,
        id,
    );
}

/// Adding a torrent keeps a tree sound and its table to what is mounted, also under an id
/// that is mounted; where the names differ it keeps one inode for each name.
pub proof fn adding_keeps_sound(
    m: FsModel,
    id: Seq<char>,
    base_name: Seq<char>,
    muxer: MuxModel,
    items: Seq<NewSub>,
)
    requires
        sound(m),
        m.next + 2 + items.len() <= u64::MAX,
    ensures
        sound(m.added(id, base_name, muxer, items)),
        tidy(m) ==> tidy(m.added(id, base_name, muxer, items)),
        paired(m) && names_differ(new_names(items)) ==> paired(
            m.added(id, base_name, muxer, items),
        ),
{
    let r = m.added(id, base_name, muxer, items);
    let base = m.removed(id);
    let t = r.torrents.last();
    removing_keeps_sound(m, id);
    removing_changes_nothing_else(m, id);
    assert(r.torrents == base.torrents.push(t));
    assert(r.torrents[base.torrents.len() as int] == t);
    lemma_added(m, id, base_name, muxer, items);
    assert(same_inode(base.table, r.table, KeyModel::Root));
    assert(base.table.keys.contains_key(1));
    assert forall|k: int| 0 <= k < r.torrents.len() implies registered(
        #[trigger] r.torrents[k],
        r.table,
    ) by {
        if k < base.torrents.len() {
            assert(r.torrents[k] == base.torrents[k]);
            assert(registered(base.torrents[k], base.table));
            lemma_still_registered(base.torrents[k], base.table, r.table, id);
        }
    }
    assert forall|x: int, y: int| 0 <= x < y < r.torrents.len() implies (
    #[trigger] r.torrents[x]).id != (#[trigger] r.torrents[y]).id by {
        assert(base.torrents[x].id != id);
    }
    if tidy(m) {
        assert forall|i: u64| #[trigger] r.table.keys.contains_key(i) implies in_use(
            r.torrents,
            i,
        ) by {
            if base.table.keys.contains_key(i) {
                assert(in_use(base.torrents, i));
                if i != 1 {
                    let k = choose|k: int|
                        0 <= k < base.torrents.len() && is_inode_of(#[trigger] base.torrents[k], i);
                    assert(r.torrents[k] == base.torrents[k]);
                }
            } else {
                if i >= m.next + 2 {
                    assert(t.subs[i - m.next - 2].inode == i);
                }
                assert(is_inode_of(t, i));
            }
        }
    }
    if paired(m) && names_differ(new_names(items)) {
        assert forall|k: int| 0 <= k < r.torrents.len() implies one_inode_per_name(
            (#[trigger] r.torrents[k]).subs,
        ) by {
            if k < base.torrents.len() {
                assert(r.torrents[k] == base.torrents[k]);
            } else {
                assert forall|a: int, b: int|
                    0 <= a < t.subs.len() && 0 <= b < t.subs.len() && (#[trigger] t.subs[a]).name
                        == (#[trigger] t.subs[b]).name implies t.subs[a].inode
                    == t.subs[b].inode by {
                    assert(new_names(items)[a] == new_names(items)[b]);
                }
            }
        }
    }
}

/// Another reader for a torrent keeps a tree sound, its table to what is mounted, and one
/// inode for each name.
pub proof fn remuxing_keeps_sound(m: FsModel, id: Seq<char>, muxer: MuxModel)
    requires
        sound(m),
    ensures
        sound(m.remuxed(id, muxer)),
        tidy(m) ==> tidy(m.remuxed(id, muxer)),
        paired(m) ==> paired(m.remuxed(id, muxer)),
{
    lemma_place(m.torrents, id, 0);
    let r = m.remuxed(id, muxer);
    assert forall|k: int| 0 <= k < r.torrents.len() implies registered(
        #[trigger] r.torrents[k],
        r.table,
    ) by {
        assert(registered(m.torrents[k], m.table));
        assert(r.torrents[k].subs == m.torrents[k].subs);
    }
    assert forall|a: int, b: int| 0 <= a < b < r.torrents.len() implies (
    #[trigger] r.torrents[a]).id != (#[trigger] r.torrents[b]).id by {
        assert(m.torrents[a].id != m.torrents[b].id);
    }
    if tidy(m) {
        assert forall|i: u64| #[trigger] r.table.keys.contains_key(i) implies in_use(
            r.torrents,
            i,
        ) by {
            assert(in_use(m.torrents, i));
            if i != 1 {
                let k = choose|k: int|
                    0 <= k < m.torrents.len() && is_inode_of(#[trigger] m.torrents[k], i);
                assert(r.torrents[k].subs == m.torrents[k].subs);
                assert(is_inode_of(r.torrents[k], i));
            }
        }
    }
    if paired(m) {
        assert forall|k: int| 0 <= k < r.torrents.len() implies one_inode_per_name(
            (#[trigger] r.torrents[k]).subs,
        ) by {
            assert(one_inode_per_name(m.torrents[k].subs));
        }
    }
}

/// Whether a key is that of a subtitle file of the torrent whose name is not among `names`.
spec fn is_gone(key: KeyModel, id: Seq<char>, names: Seq<Seq<char>>) -> bool {
    key matches KeyModel::Sidecar(x, name) && x == id && !names.contains(name)
}

/// What is left after the inodes of the subtitle files that are gone are removed.
proof fn lemma_without_gone(
    t: TableModel,
    id: Seq<char>,
    subs: Seq<SubModel>,
    names: Seq<Seq<char>>,
    n: nat,
)
    requires
        n <= subs.len(),
        t.backed(),
        forall|k: int| 0 <= k < subs.len() ==> #[trigger] sub_registered(t, id, subs, k),
    ensures
        ({
            let r = without_gone(t, subs, names, n);
            &&& r.backed()
            &&& alike_but(t, r, id)
            &&& forall|i: u64| #[trigger]
                r.keys.contains_key(i) ==> t.keys.contains_key(i) && r.keys[i] == t.keys[i]
            &&& forall|i: u64| #[trigger]
                t.keys.contains_key(i) && !is_gone(t.keys[i], id, names) ==> r.keys.contains_key(i)
            &&& forall|key: KeyModel|
                !is_gone(key, id, names) ==> #[trigger] same_inode(t, r, key)
            &&& forall|k: int|
                0 <= k < n && !names.contains((#[trigger] subs[k]).name) ==> !r.keys.contains_key(
                    subs[k].inode,
                )
        }),
    decreases n,
{
    if n > 0 {
        let b = without_gone(t, subs, names, (n - 1) as nat);
        let r = without_gone(t, subs, names, n);
        let last = subs[n - 1];
        lemma_without_gone(t, id, subs, names, (n - 1) as nat);
        assert(sub_registered(t, id, subs, n - 1));
        if !names.contains(last.name) {
            assert(b.keys.contains_key(last.inode) ==> is_gone(b.keys[last.inode], id, names));
            lemma_remove(b, last.inode, id);
            lemma_alike_trans(t, b, r, id);
        }
        assert forall|i: u64| #[trigger] r.keys.contains_key(i) implies t.keys.contains_key(i)
            && r.keys[i] == t.keys[i] by {
            assert(b.keys.contains_key(i));
        }
        assert forall|i: u64|
            #[trigger] t.keys.contains_key(i) && !is_gone(
                t.keys[i],
                id,
                names,
            ) implies r.keys.contains_key(i) by {
            assert(b.keys.contains_key(i));
        }
        assert forall|key: KeyModel| !is_gone(key, id, names) implies #[trigger] same_inode(
            t,
            r,
            key,
        ) by {
            assert(same_inode(t, b, key));
        }
        assert forall|k: int|
            0 <= k < n && !names.contains((#[trigger] subs[k]).name) implies !r.keys.contains_key(
            subs[k].inode,
        ) by {
            if k < n - 1 {
                assert(!b.keys.contains_key(subs[k].inode));
            }
        }
    }
}

/// What the table holds after subtitle files are exposed.
proof fn lemma_rebuilt(t: TableModel, next: int, id: Seq<char>, items: Seq<NewSub>, n: nat)
    requires
        n <= items.len(),
        0 <= next,
        next + items.len() <= u64::MAX,
        t.backed(),
        forall|i: u64| #[trigger] t.keys.contains_key(i) ==> i < next,
    ensures
        ({
            let r = rebuilt(t, next, id, items, n);
            &&& next <= r.next <= next + n
            &&& r.table.backed()
            &&& alike_but(t, r.table, id)
            &&& forall|i: u64| #[trigger] r.table.keys.contains_key(i) ==> i < r.next
            &&& forall|i: u64| #[trigger]
                t.keys.contains_key(i) ==> r.table.has_key(i, t.keys[i])
            &&& forall|key: KeyModel| #[trigger]
                t.inodes.contains_key(key) ==> r.table.has_inode(key, t.inodes[key])
            &&& forall|i: u64| #[trigger]
                r.table.keys.contains_key(i) ==> t.keys.contains_key(i) || exists|k: int|
                    0 <= k < n && (#[trigger] r.subs[k]).inode == i
            &&& r.subs.len() == n
            &&& forall|k: int|
                0 <= k < n ==> {
                    let s = #[trigger] r.subs[k];
                    s.name == items[k].name && r.table.has_inode(
                        KeyModel::Sidecar(id, s.name),
                        s.inode,
                    )
                }
        }),
    decreases n,
{
    if n > 0 {
        let b = rebuilt(t, next, id, items, (n - 1) as nat);
        let r = rebuilt(t, next, id, items, n);
        let key = KeyModel::Sidecar(id, items[n - 1].name);
        lemma_rebuilt(t, next, id, items, (n - 1) as nat);
        if !b.table.inodes.contains_key(key) {
            assert(!b.table.keys.contains_key(b.next as u64));
            lemma_insert(b.table, b.next as u64, key, id);
            lemma_alike_trans(t, b.table, r.table, id);
        }
        assert forall|i: u64| #[trigger] r.table.keys.contains_key(i) implies t.keys.contains_key(i)
            || exists|k: int| 0 <= k < n && (#[trigger] r.subs[k]).inode == i by {
            if b.table.keys.contains_key(i) {
                if !t.keys.contains_key(i) {
                    let k = choose|k: int| 0 <= k < n - 1 && (#[trigger] b.subs[k]).inode == i;
                    assert(r.subs[k].inode == i);
                }
            } else {
                assert(r.subs[n - 1].inode == i);
            }
        }
        assert forall|k: int| 0 <= k < n implies ({
            let s = #[trigger] r.subs[k];
            s.name == items[k].name && r.table.has_inode(KeyModel::Sidecar(id, s.name), s.inode)
        }) by {
            if k < n - 1 {
                assert(r.subs[k] == b.subs[k]);
            }
        }
    }
}

/// Where the torrent's files with a name that stays have one inode.
pub open spec fn one_inode_for(subs: Seq<SubModel>, names: Seq<Seq<char>>) -> bool {
    forall|a: int, b: int|
        0 <= a < subs.len() && 0 <= b < subs.len() && names.contains((#[trigger] subs[a]).name)
            && subs[a].name == (#[trigger] subs[b]).name ==> subs[a].inode == subs[b].inode
}

/// What other subtitle files for a mounted torrent make of the table.
proof fn lemma_resubbed(m: FsModel, id: Seq<char>, items: Seq<NewSub>)
    requires
        sound(m),
        m.next + items.len() <= u64::MAX,
        place_of(m.torrents, id) is Some,
    ensures
        ({
            let k = place_of(m.torrents, id)->0 as int;
            let was = m.torrents[k].subs;
            let r = m.resubbed(id, items);
            let is = r.torrents[k].subs;
            let names = new_names(items);
            &&& 0 <= k < m.torrents.len()
            &&& m.torrents[k].id == id
            &&& r.table.backed()
            &&& alike_but(m.table, r.table, id)
            &&& forall|i: u64| #[trigger] r.table.keys.contains_key(i) ==> i < r.next
            &&& registered(r.torrents[k], r.table)
            &&& is.len() == items.len()
            &&& forall|a: int| 0 <= a < is.len() ==> (#[trigger] is[a]).name == items[a].name
            &&& one_inode_per_name(is)
            &&& forall|a: int, b: int|
                0 <= a < was.len() && 0 <= b < is.len() && is_last(was, a) && (
                #[trigger] was[a]).name == (#[trigger] is[b]).name ==> was[a].inode == is[b].inode
            &&& forall|i: u64| #[trigger]
                r.table.keys.contains_key(i) ==> (m.table.has_key(i, r.table.keys[i]) && !(exists|
                    a: int,
                |
                    0 <= a < was.len() && (#[trigger] was[a]).inode == i && !names.contains(
                        was[a].name,
                    ))) || exists|a: int| 0 <= a < is.len() && (#[trigger] is[a]).inode == i
        }),
{
    lemma_place(m.torrents, id, 0);
    let k = place_of(m.torrents, id)->0 as int;
    let t = m.torrents[k];
    let was = t.subs;
    let r = m.resubbed(id, items);
    let is = r.torrents[k].subs;
    let names = new_names(items);
    let g = without_gone(m.table, was, names, was.len());
    let b = rebuilt(g, m.next as int, id, items, items.len());
    assert(registered(t, m.table));
    lemma_without_gone(m.table, id, was, names, was.len());
    assert forall|i: u64| #[trigger] g.keys.contains_key(i) implies i < m.next as int by {
        assert(m.table.keys.contains_key(i));
    }
    lemma_rebuilt(g, m.next as int, id, items, items.len());
    lemma_alike_trans(m.table, g, r.table, id);
    assert(is == b.subs);
    assert(g.keys.contains_key(t.dir_inode) && g.keys.contains_key(t.mkv_inode));
    assert(same_inode(m.table, g, KeyModel::TorrentDir(id)));
    assert(same_inode(m.table, g, KeyModel::MkvVirtual(id)));
    assert forall|a: int| 0 <= a < is.len() implies #[trigger] sub_registered(
        r.table,
        id,
        is,
        a,
    ) by {
        assert(is[a].name == items[a].name);
    }
    assert forall|x: int, y: int|
        0 <= x < was.len() && 0 <= y < is.len() && is_last(was, x) && (#[trigger] was[x]).name == (
        #[trigger] is[y]).name implies was[x].inode == is[y].inode by {
        let key = KeyModel::Sidecar(id, was[x].name);
        assert(sub_registered(m.table, id, was, x));
        assert(is[y].name == items[y].name);
        assert(names[y] == was[x].name);
        assert(names.contains(was[x].name));
        assert(same_inode(m.table, g, key));
    }
}

/// Other subtitle files for a torrent keep a tree sound and one inode for each name. They
/// keep its table to what is mounted where no name that stays has two inodes.
pub proof fn resubbing_keeps_sound(m: FsModel, id: Seq<char>, items: Seq<NewSub>)
    requires
        sound(m),
        m.next + items.len() <= u64::MAX,
    ensures
        sound(m.resubbed(id, items)),
        tidy(m) && (place_of(m.torrents, id) matches Some(k) ==> one_inode_for(
            m.torrents[k as int].subs,
            new_names(items),
        )) ==> tidy(m.resubbed(id, items)),
        paired(m) ==> paired(m.resubbed(id, items)),
{
    lemma_place(m.torrents, id, 0);
    let r = m.resubbed(id, items);
    if place_of(m.torrents, id) is Some {
        lemma_resubbed(m, id, items);
        let k = place_of(m.torrents, id)->0 as int;
        let t = m.torrents[k];
        let names = new_names(items);
        assert forall|a: int, c: int| 0 <= a < c < r.torrents.len() implies (
        #[trigger] r.torrents[a]).id != (#[trigger] r.torrents[c]).id by {
            assert(m.torrents[a].id != m.torrents[c].id);
        }
        assert forall|a: int| 0 <= a < r.torrents.len() implies registered(
            #[trigger] r.torrents[a],
            r.table,
        ) by {
            if a != k {
                assert(registered(m.torrents[a], m.table));
                assert(m.torrents[a].id != id) by {
                    if a < k {
                        assert(m.torrents[a].id != m.torrents[k].id);
                    } else {
                        assert(m.torrents[k].id != m.torrents[a].id);
                    }
                }
                lemma_still_registered(m.torrents[a], m.table, r.table, id);
            }
        }
        assert(m.table.keys.contains_key(1));
        assert(same_inode(m.table, r.table, KeyModel::Root));
        if paired(m) {
            assert(one_inode_per_name(t.subs));
            assert forall|a: int| 0 <= a < r.torrents.len() implies one_inode_per_name(
                (#[trigger] r.torrents[a]).subs,
            ) by {
                if a != k {
                    assert(one_inode_per_name(m.torrents[a].subs));
                }
            }
        }
        if tidy(m) && one_inode_for(t.subs, names) {
            assert forall|i: u64| #[trigger] r.table.keys.contains_key(i) implies in_use(
                r.torrents,
                i,
            ) by {
                lemma_resubbed_in_use(m, id, items, i);
            }
        }
    }
}

proof fn lemma_resubbed_in_use(m: FsModel, id: Seq<char>, items: Seq<NewSub>, i: u64)
    requires
        tidy(m),
        m.next + items.len() <= u64::MAX,
        place_of(m.torrents, id) is Some,
        one_inode_for(m.torrents[place_of(m.torrents, id)->0 as int].subs, new_names(items)),
        m.resubbed(id, items).table.keys.contains_key(i),
    ensures
        in_use(m.resubbed(id, items).torrents, i),
{
    lemma_resubbed(m, id, items);
    let r = m.resubbed(id, items);
    let k = place_of(m.torrents, id)->0 as int;
    let t = m.torrents[k];
    let n = r.torrents[k];
    let names = new_names(items);
    if exists|a: int| 0 <= a < n.subs.len() && (#[trigger] n.subs[a]).inode == i {
        assert(is_inode_of(n, i));
    } else if i != 1 {
        assert(m.table.keys.contains_key(i));
        assert(in_use(m.torrents, i));
        let j = choose|j: int| 0 <= j < m.torrents.len() && is_inode_of(#[trigger] m.torrents[j], i);
        if j != k {
            assert(is_inode_of(r.torrents[j], i));
        } else if i == t.dir_inode || i == t.mkv_inode {
            assert(is_inode_of(r.torrents[k], i));
        } else {
            let a = choose|a: int| 0 <= a < t.subs.len() && (#[trigger] t.subs[a]).inode == i;
            assert(names.contains(t.subs[a].name));
            let q = choose|q: int| 0 <= q < names.len() && names[q] == t.subs[a].name;
            let l = lemma_last(t.subs, a);
            assert(n.subs[q].name == items[q].name);
            assert(t.subs[l].inode == n.subs[q].inode);
            assert(t.subs[a].inode == t.subs[l].inode);
        }
    }
}

/// A subtitle file whose name stays keeps its inode; of several with that name, the last.
pub proof fn staying_names_keep_their_inodes(m: FsModel, id: Seq<char>, items: Seq<NewSub>)
    requires
        sound(m),
        m.next + items.len() <= u64::MAX,
        place_of(m.torrents, id) is Some,
    ensures
        ({
            let k = place_of(m.torrents, id)->0 as int;
            let was = m.torrents[k].subs;
            let is = m.resubbed(id, items).torrents[k].subs;
            forall|a: int, b: int|
                0 <= a < was.len() && 0 <= b < is.len() && is_last(was, a) && (
                #[trigger] was[a]).name == (#[trigger] is[b]).name ==> was[a].inode == is[b].inode
        }),
{
    lemma_resubbed(m, id, items);
}

proof fn lemma_sub_place(subs: Seq<SubModel>, name: Seq<char>, k: nat, i: int)
    requires
        k <= i < subs.len(),
        subs[i].name == name,
        forall|a: int, b: int| 0 <= a < b < subs.len() ==> (#[trigger] subs[a]).name != (
        #[trigger] subs[b]).name,
    ensures
        sub_place_from(subs, name, k) == Some(i as nat),
    decreases i - k,
{
    if k < i {
        assert(subs[k as int].name != subs[i].name);
        lemma_sub_place(subs, name, k + 1, i);
    }
}

/// In a sound tree each entry of a torrent's directory list is found by its name,
/// where names differ from each other and from that of the virtual file.
pub proof fn listed_names_are_found(m: FsModel, k: int)
    requires
        sound(m),
        0 <= k < m.torrents.len(),
        forall|a: int, b: int|
            0 <= a < b < m.torrents[k].subs.len() ==> (#[trigger] m.torrents[k].subs[a]).name != (
            #[trigger] m.torrents[k].subs[b]).name,
        forall|a: int|
            0 <= a < m.torrents[k].subs.len() ==> (#[trigger] m.torrents[k].subs[a]).name
                != mkv_name(m.torrents[k]),
    ensures
        forall|i: int|
            2 <= i < 3 + m.torrents[k].subs.len() ==> {
                let e = #[trigger] torrent_entry(m.torrents[k], i);
                entry_of(m, m.torrents[k].dir_inode, e.name) matches Ok(attr) && attr.ino == e.ino
                    && !attr.is_dir
            },
{
    let t = m.torrents[k];
    assert(registered(t, m.table));
    lemma_place(m.torrents, t.id, 0);
    assert(torrent_of(m, t.id) == Some(t)) by {
        lemma_unique_place(m.torrents, t.id, 0, k);
    }
    assert forall|i: int| 2 <= i < 3 + t.subs.len() implies ({
        let e = #[trigger] torrent_entry(t, i);
        entry_of(m, t.dir_inode, e.name) matches Ok(attr) && attr.ino == e.ino && !attr.is_dir
    }) by {
        if i > 2 {
            assert(t.subs[i - 3].name != mkv_name(t));
            lemma_sub_place(t.subs, t.subs[i - 3].name, 0, i - 3);
        }
    }
}

proof fn lemma_unique_place(torrents: Seq<TorrentModel>, id: Seq<char>, from: nat, k: int)
    requires
        from <= k < torrents.len(),
        torrents[k].id == id,
        forall|a: int, b: int|
            0 <= a < b < torrents.len() ==> (#[trigger] torrents[a]).id != (
            #[trigger] torrents[b]).id,
    ensures
        place_from(torrents, id, from) == Some(k as nat),
    decreases k - from,
{
    if from < k {
        assert(torrents[from as int].id != torrents[k].id);
        lemma_unique_place(torrents, id, from + 1, k);
    }
}

} // verus!
