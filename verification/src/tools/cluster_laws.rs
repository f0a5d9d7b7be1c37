//! What a scan makes of the clusters of a Matroska file that is put together from elements.
use crate::bytes::{be_value, lemma_be_value_concat, lemma_pow256_values};
use crate::muxer::ebml::mkv_elem;
use crate::tools::mkv::{
    cluster_time, cluster_times, clusters_from, head_at, open_cluster, skipped, tail, with_time,
    HeadRead,
};
use crate::tools::scan_laws::{
    are_elems, elem_bytes, elems_bytes, is_elem, lemma_be_value_small, lemma_scan_ids, lemma_step,
    written_head_reads_back, Elem,
};
use crate::vint::{lemma_pow128_values, uint_value};
use vstd::prelude::*;

verus! {

/// A cluster: whether its size is known, and its children.
pub ghost struct ClusterParts {
    pub sized: bool,
    pub children: Seq<Elem>,
}

/// The id of a Cluster, and the size that is not known, in eight bytes.
pub open spec fn open_head() -> Seq<u8> {
    seq![
        0x1Fu8,
        0x43u8,
        0xB6u8,
        0x75u8,
        0x01u8,
        0xFFu8,
        0xFFu8,
        0xFFu8,
        0xFFu8,
        0xFFu8,
        0xFFu8,
        0xFFu8,
    ]
}

pub open spec fn cluster_bytes(p: ClusterParts) -> Seq<u8> {
    if p.sized {
        mkv_elem(seq![0x1Fu8, 0x43u8, 0xB6u8, 0x75u8], elems_bytes(p.children))
    } else {
        open_head() + elems_bytes(p.children)
    }
}

/// Whether a cluster can be written. One without a size ends before the next element whose
/// id takes four bytes, so that none of its children may have such an id.
pub open spec fn is_cluster(p: ClusterParts) -> bool {
    &&& are_elems(p.children)
    &&& elems_bytes(p.children).len() < 0xFF_FFFF_FFFF_FFFF
    &&& !p.sized ==> forall|i: int|
        0 <= i < p.children.len() ==> (#[trigger] p.children[i]).id.len() < 4
}

/// The number in the first Timestamp among children, if there is one.
pub open spec fn first_time(children: Seq<Elem>) -> Option<u64>
    decreases children.len(),
{
    if children.len() == 0 {
        None
    } else if children[0].id == seq![0xE7u8] {
        Some(uint_value(children[0].payload))
    } else {
        first_time(children.skip(1))
    }
}

/// The times of clusters, in order, without those that have none.
pub open spec fn times_told(clusters: Seq<ClusterParts>) -> Seq<u64>
    decreases clusters.len(),
{
    if clusters.len() == 0 {
        Seq::empty()
    } else {
        let rest = times_told(clusters.skip(1));
        match first_time(clusters[0].children) {
            Some(t) => seq![t] + rest,
            None => rest,
        }
    }
}

/// Clusters, one after the other, with `rest` behind them.
pub open spec fn clusters_bytes(clusters: Seq<ClusterParts>, rest: Seq<u8>) -> Seq<u8>
    decreases clusters.len(),
{
    if clusters.len() == 0 {
        rest
    } else {
        cluster_bytes(clusters[0]) + clusters_bytes(clusters.skip(1), rest)
    }
}

/// Whether clusters end before `rest`: with the file, or with another element whose id takes
/// four bytes.
pub open spec fn ends_clusters(rest: Seq<u8>) -> bool {
    rest.len() == 0 || (head_at(rest) matches HeadRead::Head { id, size, len } && id >= 0x0100_0000
        && id != 0x1F43B675)
}

/// [`clusters_from`] without its definition.
#[verifier::opaque]
spec fn listed_from(acc: Seq<u64>, c: Seq<u8>, pos: int) -> (Seq<u64>, Option<Seq<char>>) {
    clusters_from(acc, c, pos)
}

/// [`cluster_time`] without its definition.
#[verifier::opaque]
spec fn time_in(c: Seq<u8>, pos: int, end: int) -> Result<Option<u64>, Seq<char>> {
    cluster_time(c, pos, end)
}

/// [`open_cluster`] without its definition.
#[verifier::opaque]
spec fn open_in(c: Seq<u8>, pos: int, t: Option<u64>) -> Result<(Option<u64>, int), Seq<char>> {
    open_cluster(c, pos, t)
}

proof fn lemma_first_time(c: Seq<u8>, before: Seq<u8>, children: Seq<Elem>, rest: Seq<u8>)
    requires
        are_elems(children),
        c == before + (elems_bytes(children) + rest),
    ensures
        time_in(c, before.len() as int, before.len() as int + elems_bytes(children).len())
            == Ok::<Option<u64>, Seq<char>>(first_time(children)),
    decreases children.len(),
{
    reveal(time_in);
    if children.len() > 0 {
        let e = children[0];
        let b = elem_bytes(e);
        let pos = before.len() as int;
        assert(is_elem(e));
        lemma_step(before, children, rest);
        lemma_scan_ids(e);
        assert(tail(c, pos) == c.skip(pos));
        let start = pos + b.len() - e.payload.len();
        assert(skipped(c, start, e.payload.len() as int) == pos + b.len());
        if e.id != seq![0xE7u8] {
            lemma_first_time(c, before + b, children.skip(1), rest);
        }
    }
}

/// The timestamp that was seen, or the first among children.
spec fn time_after(t: Option<u64>, children: Seq<Elem>) -> Option<u64> {
    match t {
        Some(v) => Some(v),
        None => first_time(children),
    }
}

proof fn lemma_open(
    c: Seq<u8>,
    before: Seq<u8>,
    children: Seq<Elem>,
    rest: Seq<u8>,
    t: Option<u64>,
)
    requires
        are_elems(children),
        forall|i: int| 0 <= i < children.len() ==> (#[trigger] children[i]).id.len() < 4,
        c == before + (elems_bytes(children) + rest),
        rest.len() == 0 || (head_at(rest) matches HeadRead::Head { id, size, len } && id
            >= 0x0100_0000),
    ensures
        open_in(c, before.len() as int, t) == Ok::<(Option<u64>, int), Seq<char>>(
            (time_after(t, children), before.len() as int + elems_bytes(children).len()),
        ),
    decreases children.len(),
{
    reveal(open_in);
    let pos = before.len() as int;
    if children.len() > 0 {
        let e = children[0];
        let b = elem_bytes(e);
        assert(is_elem(e));
        lemma_step(before, children, rest);
        lemma_scan_ids(e);
        assert(tail(c, pos) == c.skip(pos));
        let start = pos + b.len() - e.payload.len();
        assert(skipped(c, start, e.payload.len() as int) == pos + b.len());
        let after = if e.id == seq![0xE7u8] && t is None {
            Some(uint_value(e.payload))
        } else {
            t
        };
        let others = children.skip(1);
        assert forall|i: int| 0 <= i < others.len() implies (#[trigger] others[i]).id.len() < 4 by {
            assert(others[i] == children[i + 1]);
        }
        lemma_open(c, before + b, others, rest, after);
    } else {
        assert(tail(c, pos) =~= rest);
    }
}

proof fn lemma_open_head(rest: Seq<u8>)
    ensures
        head_at(open_head() + rest) == (HeadRead::Head { id: 0x1F43B675, size: None, len: 12 }),
{
    let d = open_head() + rest;
    lemma_pow128_values();
    let id = seq![0x1Fu8, 0x43u8, 0xB6u8, 0x75u8];
    assert(d.take(4) =~= id);
    lemma_be_value_small(id);
    let s = d.skip(4);
    let v = seq![0x01u8, 0xFFu8, 0xFFu8, 0xFFu8, 0xFFu8, 0xFFu8, 0xFFu8, 0xFFu8];
    assert(s.take(8) =~= v);
    assert(be_value(v) == 0x01FF_FFFF_FFFF_FFFF) by {
        let a = seq![0x01u8, 0xFFu8, 0xFFu8, 0xFFu8];
        let b = seq![0xFFu8, 0xFFu8, 0xFFu8, 0xFFu8];
        assert(v =~= a + b);
        lemma_be_value_small(a);
        lemma_be_value_small(b);
        lemma_be_value_concat(a, b);
        lemma_pow256_values();
    }
    assert(s[0] == 0x01u8);
}

/// The times of the clusters of a file are those of their first Timestamps, in order, whether
/// the sizes of the clusters are known or not.
pub proof fn cluster_times_are_told(before: Seq<u8>, clusters: Seq<ClusterParts>, rest: Seq<u8>)
    requires
        forall|i: int| 0 <= i < clusters.len() ==> is_cluster(#[trigger] clusters[i]),
        ends_clusters(rest),
    ensures
        cluster_times(before + clusters_bytes(clusters, rest), before.len() as int) == (
            times_told(clusters),
            None::<Seq<char>>,
        ),
{
    lemma_times(Seq::empty(), before, clusters, rest);
    reveal(listed_from);
    assert(Seq::<u64>::empty() + times_told(clusters) =~= times_told(clusters));
}

proof fn lemma_times(
    acc: Seq<u64>,
    before: Seq<u8>,
    clusters: Seq<ClusterParts>,
    rest: Seq<u8>,
)
    requires
        forall|i: int| 0 <= i < clusters.len() ==> is_cluster(#[trigger] clusters[i]),
        ends_clusters(rest),
    ensures
        listed_from(acc, before + clusters_bytes(clusters, rest), before.len() as int) == (
            acc + times_told(clusters),
            None::<Seq<char>>,
        ),
    decreases clusters.len(),
{
    let c = before + clusters_bytes(clusters, rest);
    let pos = before.len() as int;
    if clusters.len() == 0 {
        reveal(listed_from);
        assert(tail(c, pos) =~= rest);
        assert(acc + times_told(clusters) =~= acc);
    } else {
        let p = clusters[0];
        let others = clusters.skip(1);
        let after = clusters_bytes(others, rest);
        let b = cluster_bytes(p);
        let body = elems_bytes(p.children);
        let t = first_time(p.children);
        assert(is_cluster(p));
        assert forall|i: int| 0 <= i < others.len() implies is_cluster(#[trigger] others[i]) by {
            assert(others[i] == clusters[i + 1]);
        }
        assert(c =~= (before + b) + after);
        lemma_times(with_time(acc, t), before + b, others, rest);
        assert(with_time(acc, t) + times_told(others) =~= acc + times_told(clusters));
        assert(tail(c, pos) =~= b + after);
        lemma_clusters_start(others, rest);
        lemma_one_cluster(acc, c, before, p, after);
    }
}

/// What follows a cluster without a size is the end of the file, or an element whose id takes
/// four bytes.
proof fn lemma_clusters_start(clusters: Seq<ClusterParts>, rest: Seq<u8>)
    requires
        forall|i: int| 0 <= i < clusters.len() ==> is_cluster(#[trigger] clusters[i]),
        ends_clusters(rest),
    ensures
        ({
            let d = clusters_bytes(clusters, rest);
            d.len() == 0 || (head_at(d) matches HeadRead::Head { id, size, len } && id
                >= 0x0100_0000)
        }),
{
    if clusters.len() > 0 {
        let p = clusters[0];
        let after = clusters_bytes(clusters.skip(1), rest);
        assert(is_cluster(p));
        if p.sized {
            let e = Elem {
                id: seq![0x1Fu8, 0x43u8, 0xB6u8, 0x75u8],
                payload: elems_bytes(p.children),
            };
            written_head_reads_back(e, after);
            lemma_scan_ids(e);
        } else {
            let body = elems_bytes(p.children);
            lemma_open_head(body + after);
            assert(open_head() + body + after =~= open_head() + (body + after));
        }
    }
}

/// The list goes on behind a cluster.
proof fn lemma_one_cluster(
    acc: Seq<u64>,
    c: Seq<u8>,
    before: Seq<u8>,
    p: ClusterParts,
    after: Seq<u8>,
)
    requires
        is_cluster(p),
        c == (before + cluster_bytes(p)) + after,
        tail(c, before.len() as int) == cluster_bytes(p) + after,
        after.len() == 0 || (head_at(after) matches HeadRead::Head { id, size, len } && id
            >= 0x0100_0000),
    ensures
        listed_from(acc, c, before.len() as int) == listed_from(
            with_time(acc, first_time(p.children)),
            c,
            (before + cluster_bytes(p)).len() as int,
        ),
{
    if p.sized {
        lemma_sized_cluster(acc, c, before, p, after);
    } else {
        lemma_open_cluster(acc, c, before, p, after);
    }
}

proof fn lemma_sized_cluster(
    acc: Seq<u64>,
    c: Seq<u8>,
    before: Seq<u8>,
    p: ClusterParts,
    after: Seq<u8>,
)
    requires
        is_cluster(p),
        p.sized,
        c == (before + cluster_bytes(p)) + after,
        tail(c, before.len() as int) == cluster_bytes(p) + after,
    ensures
        listed_from(acc, c, before.len() as int) == listed_from(
            with_time(acc, first_time(p.children)),
            c,
            (before + cluster_bytes(p)).len() as int,
        ),
{
    let pos = before.len() as int;
    let b = cluster_bytes(p);
    let body = elems_bytes(p.children);
    let e = Elem { id: seq![0x1Fu8, 0x43u8, 0xB6u8, 0x75u8], payload: body };
    written_head_reads_back(e, after);
    lemma_scan_ids(e);
    let n = b.len() - body.len();
    let inner = before + b.take(n);
    assert(c =~= inner + (body + after)) by {
        assert(b =~= b.take(n) + b.skip(n));
    }
    lemma_first_time(c, inner, p.children, after);
    lemma_sized_step(
        acc,
        c,
        pos,
        body.len() as u64,
        n as usize,
        first_time(p.children),
    );
}

proof fn lemma_sized_step(
    acc: Seq<u64>,
    c: Seq<u8>,
    pos: int,
    size: u64,
    len: usize,
    t: Option<u64>,
)
    requires
        pos < c.len(),
        head_at(tail(c, pos)) == (HeadRead::Head { id: 0x1F43B675, size: Some(size), len }),
        time_in(c, pos + len, pos + len + size) == Ok::<Option<u64>, Seq<char>>(t),
    ensures
        listed_from(acc, c, pos) == listed_from(with_time(acc, t), c, pos + len + size),
{
    reveal(listed_from);
    reveal(time_in);
}

proof fn lemma_open_cluster(
    acc: Seq<u64>,
    c: Seq<u8>,
    before: Seq<u8>,
    p: ClusterParts,
    after: Seq<u8>,
)
    requires
        is_cluster(p),
        !p.sized,
        c == (before + cluster_bytes(p)) + after,
        tail(c, before.len() as int) == cluster_bytes(p) + after,
        after.len() == 0 || (head_at(after) matches HeadRead::Head { id, size, len } && id
            >= 0x0100_0000),
    ensures
        listed_from(acc, c, before.len() as int) == listed_from(
            with_time(acc, first_time(p.children)),
            c,
            (before + cluster_bytes(p)).len() as int,
        ),
{
    let pos = before.len() as int;
    let b = cluster_bytes(p);
    let body = elems_bytes(p.children);
    lemma_open_head(body + after);
    assert(b + after =~= open_head() + (body + after));
    let inner = before + open_head();
    assert(c =~= inner + (body + after));
    lemma_open(c, inner, p.children, after, None);
    lemma_open_step(acc, c, pos, first_time(p.children), pos + 12 + body.len());
}

proof fn lemma_open_step(acc: Seq<u64>, c: Seq<u8>, pos: int, t: Option<u64>, next: int)
    requires
        pos < c.len(),
        pos < next,
        head_at(tail(c, pos)) == (HeadRead::Head { id: 0x1F43B675, size: None, len: 12 }),
        open_in(c, pos + 12, None) == Ok::<(Option<u64>, int), Seq<char>>((t, next)),
    ensures
        listed_from(acc, c, pos) == listed_from(with_time(acc, t), c, next),
{
    reveal(listed_from);
    reveal(open_in);
}

} // verus!
