//! Inode numbers.
use crate::fs::types::{FileKey, KeyModel};
use std::collections::HashMap;
use vstd::prelude::*;

verus! {

broadcast use vstd::std_specs::hash::group_hash_axioms;

/// Inode allocator. Inode 1 is the root.
pub struct InodeAllocator {
    next: u64,
}

impl View for InodeAllocator {
    type V = u64;

    closed spec fn view(&self) -> u64 {
        self.next
    }
}

/// The number after `n`, in 64 bits.
pub open spec fn number_after(n: u64) -> u64 {
    if n == u64::MAX {
        0
    } else {
        (n + 1) as u64
    }
}

impl InodeAllocator {
    pub fn new() -> (r: Self)
        ensures
            r@ == 2,
    {
        Self { next: 2 }
    }

    /// The next number.
    pub fn allocate(&mut self) -> (r: u64)
        ensures
            r == old(self)@,
            final(self)@ == number_after(old(self)@),
    {
        let n: u64 = self.next;
        self.next = n.wrapping_add(1);
        n
    }

    /// Whether `n` more numbers can be given out before they begin anew.
    pub fn has_room(&self, n: usize) -> (r: bool)
        ensures
            r == (self@ + n <= u64::MAX),
    {
        n as u64 <= u64::MAX - self.next
    }
}

impl Default for InodeAllocator {
    fn default() -> (r: Self)
        ensures
            r@ == 2,
    {
        Self::new()
    }
}

/// Which key an inode has, and which inode a key has.
pub ghost struct TableModel {
    pub keys: Map<u64, KeyModel>,
    pub inodes: Map<KeyModel, u64>,
}

impl TableModel {
    /// The table with `inode` and `key` for each other.
    pub open spec fn insert(self, inode: u64, key: KeyModel) -> TableModel {
        TableModel {
            keys: self.keys.insert(inode, key),
            inodes: self.inodes.insert(key, inode),
        }
    }

    /// The table without `inode` and the key that it has.
    pub open spec fn remove(self, inode: u64) -> TableModel {
        if self.keys.contains_key(inode) {
            TableModel {
                keys: self.keys.remove(inode),
                inodes: self.inodes.remove(self.keys[inode]),
            }
        } else {
            self
        }
    }

    /// Whether `inode` leads to `key`.
    pub open spec fn has_key(self, inode: u64, key: KeyModel) -> bool {
        self.keys.contains_key(inode) && self.keys[inode] == key
    }

    /// Whether `key` leads to `inode`.
    pub open spec fn has_inode(self, key: KeyModel, inode: u64) -> bool {
        self.inodes.contains_key(key) && self.inodes[key] == inode
    }

    /// Whether each key leads to an inode that leads back to it.
    pub open spec fn backed(self) -> bool {
        forall|k: KeyModel| #[trigger]
            self.inodes.contains_key(k) ==> self.has_key(self.inodes[k], k)
    }

    /// Whether inodes and keys lead to each other, each to one.
    pub open spec fn matched(self) -> bool {
        &&& forall|i: u64| #[trigger] self.keys.contains_key(i) ==> self.has_inode(self.keys[i], i)
        &&& self.backed()
    }
}

/// A new inode keeps keys backed, also for a key that has one.
pub proof fn insert_keeps_backed(t: TableModel, inode: u64, key: KeyModel)
    requires
        t.backed(),
        !t.keys.contains_key(inode),
    ensures
        t.insert(inode, key).backed(),
{
}

/// Removing an inode keeps keys backed.
pub proof fn remove_keeps_backed(t: TableModel, inode: u64)
    requires
        t.backed(),
    ensures
        t.remove(inode).backed(),
{
}

/// A new inode for a new key keeps inodes and keys matched.
pub proof fn insert_keeps_matched(t: TableModel, inode: u64, key: KeyModel)
    requires
        t.matched(),
        !t.keys.contains_key(inode),
        !t.inodes.contains_key(key),
    ensures
        t.insert(inode, key).matched(),
{
}

/// Removing an inode keeps inodes and keys matched.
pub proof fn remove_keeps_matched(t: TableModel, inode: u64)
    requires
        t.matched(),
    ensures
        t.remove(inode).matched(),
{
}

/// Bidirectional inode ↔ FileKey table.
pub struct InodeTable {
    inode_to_key: HashMap<u64, FileKey>,
    key_to_inode: Vec<(FileKey, u64)>,
}

/// The map that a list of keys and inodes stands for.
spec fn pairs_map(pairs: Seq<(FileKey, u64)>) -> Map<KeyModel, u64>
    decreases pairs.len(),
{
    if pairs.len() == 0 {
        Map::empty()
    } else {
        pairs_map(pairs.drop_last()).insert(pairs.last().0@, pairs.last().1)
    }
}

/// Whether no key occurs twice.
spec fn keys_differ(pairs: Seq<(FileKey, u64)>) -> bool {
    forall|i: int, j: int|
        0 <= i < j < pairs.len() ==> (#[trigger] pairs[i]).0@ != (#[trigger] pairs[j]).0@
}

proof fn lemma_pairs_map(pairs: Seq<(FileKey, u64)>)
    requires
        keys_differ(pairs),
    ensures
        forall|i: int|
            0 <= i < pairs.len() ==> pairs_map(pairs).contains_key((#[trigger] pairs[i]).0@)
                && pairs_map(pairs)[pairs[i].0@] == pairs[i].1,
        forall|k: KeyModel| #[trigger]
            pairs_map(pairs).contains_key(k) ==> exists|i: int|
                0 <= i < pairs.len() && (#[trigger] pairs[i]).0@ == k,
    decreases pairs.len(),
{
    if pairs.len() > 0 {
        let d = pairs.drop_last();
        assert(keys_differ(d)) by {
            assert forall|i: int, j: int| 0 <= i < j < d.len() implies (#[trigger] d[i]).0@ != (
            #[trigger] d[j]).0@ by {
                assert(d[i] == pairs[i] && d[j] == pairs[j]);
            }
        }
        lemma_pairs_map(d);
        assert forall|i: int| 0 <= i < pairs.len() implies pairs_map(pairs).contains_key(
            (#[trigger] pairs[i]).0@,
        ) && pairs_map(pairs)[pairs[i].0@] == pairs[i].1 by {
            if i < d.len() {
                assert(d[i] == pairs[i]);
                assert(pairs[i].0@ != pairs[pairs.len() - 1].0@);
            }
        }
        assert forall|k: KeyModel| #[trigger] pairs_map(pairs).contains_key(k) implies exists|i: int|
            0 <= i < pairs.len() && (#[trigger] pairs[i]).0@ == k by {
            if k == pairs.last().0@ {
                assert(pairs[pairs.len() - 1].0@ == k);
            } else {
                assert(pairs_map(d).contains_key(k));
                let i = choose|i: int| 0 <= i < d.len() && (#[trigger] d[i]).0@ == k;
                assert(pairs[i].0@ == k);
            }
        }
    }
}

/// The place of a key.
fn find_key(pairs: &Vec<(FileKey, u64)>, key: &FileKey) -> (r: Option<usize>)
    ensures
        match r {
            Some(i) => i < pairs@.len() && pairs@[i as int].0@ == key@,
            None => forall|i: int| 0 <= i < pairs@.len() ==> (#[trigger] pairs@[i]).0@ != key@,
        },
{
    let mut i: usize = 0;
    while i < pairs.len()
        invariant
            i <= pairs@.len(),
            forall|k: int| 0 <= k < i ==> (#[trigger] pairs@[k]).0@ != key@,
        decreases pairs@.len() - i,
    {
        if pairs[i].0.same(key) {
            return Some(i);
        }
        i = i + 1;
    }
    None
}

/// Two lists with the same pairs, each key once, stand for the same map.
proof fn lemma_same_map(pairs: Seq<(FileKey, u64)>, m: Map<KeyModel, u64>)
    requires
        keys_differ(pairs),
        forall|i: int|
            0 <= i < pairs.len() ==> m.contains_key((#[trigger] pairs[i]).0@) && m[pairs[i].0@]
                == pairs[i].1,
        forall|k: KeyModel| #[trigger]
            m.contains_key(k) ==> exists|i: int|
                0 <= i < pairs.len() && (#[trigger] pairs[i]).0@ == k,
    ensures
        pairs_map(pairs) == m,
{
    lemma_pairs_map(pairs);
    let p = pairs_map(pairs);
    assert forall|k: KeyModel| p.contains_key(k) <==> m.contains_key(k) by {
        if p.contains_key(k) {
            let i = choose|i: int| 0 <= i < pairs.len() && (#[trigger] pairs[i]).0@ == k;
            assert(m.contains_key(pairs[i].0@));
        }
        if m.contains_key(k) {
            let i = choose|i: int| 0 <= i < pairs.len() && (#[trigger] pairs[i]).0@ == k;
            assert(p.contains_key(pairs[i].0@));
        }
    }
    assert forall|k: KeyModel| p.contains_key(k) implies p[k] == m[k] by {
        let i = choose|i: int| 0 <= i < pairs.len() && (#[trigger] pairs[i]).0@ == k;
        assert(p[pairs[i].0@] == pairs[i].1);
        assert(m[pairs[i].0@] == pairs[i].1);
    }
    assert(p =~= m);
}

impl View for InodeTable {
    type V = TableModel;

    closed spec fn view(&self) -> TableModel {
        TableModel {
            keys: self.inode_to_key@.map_values(|k: FileKey| k@),
            inodes: pairs_map(self.key_to_inode@),
        }
    }
}

pub open spec fn empty_table() -> TableModel {
    TableModel { keys: Map::empty(), inodes: Map::empty() }
}

impl InodeTable {
    /// Each key occurs once.
    pub closed spec fn wf(&self) -> bool {
        keys_differ(self.key_to_inode@)
    }

    pub fn new() -> (r: Self)
        ensures
            r.wf(),
            r@ == empty_table(),
    {
        let r = Self { inode_to_key: HashMap::new(), key_to_inode: Vec::new() };
        assert(r@.keys =~= Map::<u64, KeyModel>::empty());
        assert(r@.inodes =~= Map::<KeyModel, u64>::empty());
        r
    }

    pub fn insert(&mut self, inode: u64, key: FileKey)
        requires
            old(self).wf(),
        ensures
            final(self).wf(),
            final(self)@ == old(self)@.insert(inode, key@),
    {
        let ghost before = *self;
        proof {
            lemma_pairs_map(before.key_to_inode@);
        }
        let found: Option<usize> = find_key(&self.key_to_inode, &key);
        let copy: FileKey = key.copy();
        match found {
            Some(i) => {
                self.key_to_inode.set(i, (copy, inode));
            },
            None => {
                self.key_to_inode.push((copy, inode));
            },
        }
        self.inode_to_key.insert(inode, key);
        proof {
            let pairs = self.key_to_inode@;
            let old_pairs = before.key_to_inode@;
            let m = pairs_map(old_pairs).insert(key@, inode);
            assert forall|i: int, j: int| 0 <= i < j < pairs.len() implies (
            #[trigger] pairs[i]).0@ != (#[trigger] pairs[j]).0@ by {
                if i < old_pairs.len() && j < old_pairs.len() {
                    assert(old_pairs[i].0@ != old_pairs[j].0@);
                    assert(pairs[i].0@ == old_pairs[i].0@);
                    assert(pairs[j].0@ == old_pairs[j].0@);
                } else {
                    assert(pairs[i].0@ == old_pairs[i].0@);
                    assert(old_pairs[i].0@ != key@);
                }
            }
            assert forall|i: int| 0 <= i < pairs.len() implies m.contains_key(
                (#[trigger] pairs[i]).0@,
            ) && m[pairs[i].0@] == pairs[i].1 by {
                if i < old_pairs.len() && found != Some(i as usize) {
                    assert(pairs[i] == old_pairs[i]);
                    if found is Some {
                        let f = found->0 as int;
                        if i < f {
                            assert(old_pairs[i].0@ != old_pairs[f].0@);
                        } else {
                            assert(old_pairs[f].0@ != old_pairs[i].0@);
                        }
                    }
                }
            }
            assert forall|k: KeyModel| #[trigger] m.contains_key(k) implies exists|i: int|
                0 <= i < pairs.len() && (#[trigger] pairs[i]).0@ == k by {
                if k == key@ {
                    let i = match found {
                        Some(f) => f as int,
                        None => old_pairs.len() as int,
                    };
                    assert(pairs[i].0@ == k);
                } else {
                    assert(pairs_map(old_pairs).contains_key(k));
                    let i = choose|i: int|
                        0 <= i < old_pairs.len() && (#[trigger] old_pairs[i]).0@ == k;
                    assert(pairs[i].0@ == k);
                }
            }
            lemma_same_map(pairs, m);
            assert(self@.keys =~= before@.keys.insert(inode, key@));
        }
    }

    pub fn get_key(&self, inode: u64) -> (r: Option<&FileKey>)
        ensures
            match r {
                Some(k) => self@.keys.contains_key(inode) && self@.keys[inode] == k@,
                None => !self@.keys.contains_key(inode),
            },
    {
        self.inode_to_key.get(&inode)
    }

    pub fn get_inode(&self, key: &FileKey) -> (r: Option<u64>)
        requires
            self.wf(),
        ensures
            match r {
                Some(i) => self@.inodes.contains_key(key@) && self@.inodes[key@] == i,
                None => !self@.inodes.contains_key(key@),
            },
    {
        proof {
            lemma_pairs_map(self.key_to_inode@);
        }
        match find_key(&self.key_to_inode, key) {
            Some(i) => Some(self.key_to_inode[i].1),
            None => None,
        }
    }

    pub fn remove_by_inode(&mut self, inode: u64)
        requires
            old(self).wf(),
        ensures
            final(self).wf(),
            final(self)@ == old(self)@.remove(inode),
    {
        let ghost before = *self;
        let removed: Option<FileKey> = self.inode_to_key.remove(&inode);
        if let Some(key) = removed {
            proof {
                lemma_pairs_map(before.key_to_inode@);
            }
            let found: Option<usize> = find_key(&self.key_to_inode, &key);
            if let Some(i) = found {
                self.key_to_inode.remove(i);
            }
            proof {
                let pairs = self.key_to_inode@;
                let old_pairs = before.key_to_inode@;
                let m = pairs_map(old_pairs).remove(key@);
                let place = |k: int|
                    if found is Some && k >= found->0 {
                        k + 1
                    } else {
                        k
                    };
                assert forall|k: int| 0 <= k < pairs.len() implies #[trigger] pairs[k]
                    == old_pairs[place(k)] by {}
                assert forall|i: int, j: int| 0 <= i < j < pairs.len() implies (
                #[trigger] pairs[i]).0@ != (#[trigger] pairs[j]).0@ by {
                    assert(old_pairs[place(i)].0@ != old_pairs[place(j)].0@);
                }
                assert forall|i: int| 0 <= i < pairs.len() implies m.contains_key(
                    (#[trigger] pairs[i]).0@,
                ) && m[pairs[i].0@] == pairs[i].1 by {
                    let o = place(i);
                    if found is Some {
                        let f = found->0 as int;
                        if o < f {
                            assert(old_pairs[o].0@ != old_pairs[f].0@);
                        } else {
                            assert(old_pairs[f].0@ != old_pairs[o].0@);
                        }
                    }
                    assert(pairs_map(old_pairs).contains_key(old_pairs[o].0@));
                }
                assert forall|k: KeyModel| #[trigger] m.contains_key(k) implies exists|i: int|
                    0 <= i < pairs.len() && (#[trigger] pairs[i]).0@ == k by {
                    assert(pairs_map(old_pairs).contains_key(k));
                    let o = choose|o: int|
                        0 <= o < old_pairs.len() && (#[trigger] old_pairs[o]).0@ == k;
                    let i = if found is Some && o > found->0 {
                        o - 1
                    } else {
                        o
                    };
                    assert(place(i) == o);
                    assert(pairs[i].0@ == k);
                }
                lemma_same_map(pairs, m);
                assert(before@.keys[inode] == key@);
            }
        }
        proof {
            if removed is Some {
                assert(self@.keys =~= before@.keys.remove(inode));
            } else {
                assert(self@.keys =~= before@.keys);
            }
        }
    }
}

impl Default for InodeTable {
    fn default() -> (r: Self)
        ensures
            r.wf(),
            r@ == empty_table(),
    {
        Self::new()
    }
}

} // verus!
