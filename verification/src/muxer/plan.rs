//! Planning: which section stands where in the virtual file.
use crate::binstruct::{
    entry_models, BinstructFile, BinstructModel, CodecType, EntryModel, TrackEntryRecord,
};
use crate::bytes::{concat_map, lemma_be_bytes_len, lemma_concat_map_push};
use crate::ids::{ascending, contains_id, sorted_ids};
use crate::muxer::ebml::{
    lemma_mkv_elem_len, mkv_elem, mkv_uint, vint_len, write_element, write_uint_element,
};
use crate::muxer::layout::{
    block_len, entries_len, simple_block_byte_len, tracks_len, Layout, LayoutSection,
    SectionEntry, TrackMeta, TrackModel, CLUSTER_HEADER_SIZE,
};
use crate::muxer::types::{MuxerError, MuxerFault};
use crate::vint::{uint_bytes, uint_size, vint_size};
use std::collections::HashMap;
use vstd::prelude::*;
use vstd::string::*;

verus! {

broadcast use vstd::std_specs::hash::group_hash_axioms;

/// A section without its place.
pub ghost struct Piece {
    pub section: LayoutSection,
    pub len: nat,
}

/// The total length of the first `n` pieces.
pub open spec fn sum_len(pieces: Seq<Piece>, n: nat) -> nat
    decreases n,
{
    if n == 0 {
        0
    } else {
        sum_len(pieces, (n - 1) as nat) + pieces[n - 1].len
    }
}

/// The total length of `pieces`.
pub open spec fn total(pieces: Seq<Piece>) -> nat {
    sum_len(pieces, pieces.len())
}

/// The sections for `pieces`, one after the other from `offset` on.
pub open spec fn entries_of(pieces: Seq<Piece>, offset: nat) -> Seq<SectionEntry> {
    Seq::new(
        pieces.len(),
        |i: int|
            SectionEntry {
                virtual_offset: (offset + sum_len(pieces, i as nat)) as u64,
                byte_len: pieces[i].len as u64,
                section: pieces[i].section,
            },
    )
}

/// The absolute times of clusters from number `k` on, after those in `acc`, of which
/// the last is `last`; none where a time is negative. Times stop at the greatest
/// signed 64-bit number.
pub open spec fn times_from(acc: Seq<u64>, last: int, deltas: Seq<i64>, k: nat) -> Option<Seq<u64>>
    decreases deltas.len() - k,
{
    if k >= deltas.len() {
        Some(acc)
    } else {
        let sum = last + deltas[k as int];
        let next = if sum > i64::MAX {
            i64::MAX as int
        } else {
            sum
        };
        if next < 0 {
            None
        } else {
            times_from(acc.push(next as u64), next, deltas, k + 1)
        }
    }
}

/// The absolute times of the clusters of a file.
pub open spec fn plan_times(b: BinstructModel) -> Result<Seq<u64>, MuxerFault> {
    let deltas = b.cluster_timestamps.deltas;
    if deltas.len() != b.cluster_timestamps.cluster_count {
        Err(MuxerFault::InvalidBinstruct("cluster deltas length != cluster_count"@))
    } else {
        match times_from(Seq::empty(), 0, deltas, 0) {
            None => Err(MuxerFault::InvalidBinstruct("negative absolute cluster timestamp"@)),
            Some(times) => Ok(times),
        }
    }
}

/// The first frame of a track in cluster `c`.
pub open spec fn first_frame(m: TrackModel, times: Seq<u64>, c: int) -> u32 {
    if c == 0 {
        0
    } else {
        m.frame_at(times[c])
    }
}

/// The frame of a track after its last one in cluster `c`.
pub open spec fn end_frame(m: TrackModel, times: Seq<u64>, c: int) -> u32 {
    if c + 1 < times.len() {
        m.frame_at(times[c + 1])
    } else {
        m.frame_count
    }
}

/// The block of frame `f` in cluster `c`.
pub open spec fn block_piece(m: TrackModel, track_id: u32, c: int, f: u32) -> Piece {
    Piece {
        section: LayoutSection::SimpleBlock {
            cluster_index: c as u32,
            track_id,
            frame_index: f,
            payload_size: m.payload_of(f),
        },
        len: block_len(m.track_number, m.payload_of(f) as nat),
    }
}

/// The blocks of the frames from `start` up to `end` in cluster `c`.
pub open spec fn track_pieces(m: TrackModel, track_id: u32, c: int, start: u32, end: u32) -> Seq<
    Piece,
> {
    Seq::new(
        if start < end {
            (end - start) as nat
        } else {
            0
        },
        |k: int| block_piece(m, track_id, c, (start + k) as u32),
    )
}

/// The blocks of the first `n` tracks in cluster `c`.
pub open spec fn tracks_pieces(
    models: Map<u32, TrackModel>,
    ids: Seq<u32>,
    times: Seq<u64>,
    c: int,
    n: nat,
) -> Seq<Piece>
    decreases n,
{
    if n == 0 {
        Seq::empty()
    } else {
        let t = ids[n - 1];
        let m = models[t];
        tracks_pieces(models, ids, times, c, (n - 1) as nat) + track_pieces(
            m,
            t,
            c,
            first_frame(m, times, c),
            end_frame(m, times, c),
        )
    }
}

/// Cluster `c`: its header and its blocks, track by track.
pub open spec fn cluster_pieces(
    models: Map<u32, TrackModel>,
    ids: Seq<u32>,
    times: Seq<u64>,
    c: int,
) -> Seq<Piece> {
    seq![Piece { section: LayoutSection::ClusterHeader { cluster_index: c as u32 }, len: 22 }]
        + tracks_pieces(models, ids, times, c, ids.len())
}

/// The first `n` clusters.
pub open spec fn clusters_pieces(
    models: Map<u32, TrackModel>,
    ids: Seq<u32>,
    times: Seq<u64>,
    n: nat,
) -> Seq<Piece>
    decreases n,
{
    if n == 0 {
        Seq::empty()
    } else {
        clusters_pieces(models, ids, times, (n - 1) as nat) + cluster_pieces(
            models,
            ids,
            times,
            n - 1,
        )
    }
}

/// What stands before the clusters.
pub open spec fn head_pieces(b: BinstructModel, filter: Seq<u32>, default_id: u32) -> Seq<Piece> {
    seq![
        Piece {
            section: LayoutSection::PreTracksBlob,
            len: b.mkv_skeleton.pre_tracks_blob.len(),
        },
        Piece {
            section: LayoutSection::TracksElement { default_track_id: default_id },
            len: tracks_len(b.mkv_skeleton.track_entries, filter),
        },
        Piece {
            section: LayoutSection::PostTracksBlob,
            len: b.mkv_skeleton.post_tracks_blob.len(),
        },
    ]
}

pub proof fn lemma_sum_len_prefix(a: Seq<Piece>, b: Seq<Piece>, n: nat)
    requires
        n <= a.len(),
        n <= b.len(),
        forall|i: int| 0 <= i < n ==> a[i] == b[i],
    ensures
        sum_len(a, n) == sum_len(b, n),
    decreases n,
{
    if n > 0 {
        lemma_sum_len_prefix(a, b, (n - 1) as nat);
    }
}

pub proof fn lemma_sum_len_concat(a: Seq<Piece>, b: Seq<Piece>, n: nat)
    requires
        n <= b.len(),
    ensures
        sum_len(a + b, a.len() + n) == total(a) + sum_len(b, n),
    decreases n,
{
    if n == 0 {
        lemma_sum_len_prefix(a + b, a, a.len());
    } else {
        lemma_sum_len_concat(a, b, (n - 1) as nat);
        assert((a + b)[a.len() + n - 1] == b[n - 1]);
    }
}

pub proof fn lemma_total_concat(a: Seq<Piece>, b: Seq<Piece>)
    ensures
        total(a + b) == total(a) + total(b),
{
    lemma_sum_len_concat(a, b, b.len());
}

pub proof fn lemma_total_push(a: Seq<Piece>, p: Piece)
    ensures
        total(a.push(p)) == total(a) + p.len,
{
    lemma_sum_len_prefix(a.push(p), a, a.len());
}

pub proof fn lemma_sum_len_grows(a: Seq<Piece>, i: nat, j: nat)
    requires
        i <= j <= a.len(),
    ensures
        sum_len(a, i) <= sum_len(a, j),
    decreases j,
{
    if i < j {
        lemma_sum_len_grows(a, i, (j - 1) as nat);
    }
}

/// Sections after sections.
pub proof fn lemma_entries_concat(a: Seq<Piece>, b: Seq<Piece>, offset: nat)
    ensures
        entries_of(a + b, offset) == entries_of(a, offset) + entries_of(b, offset + total(a)),
{
    let l = entries_of(a + b, offset);
    let r = entries_of(a, offset) + entries_of(b, offset + total(a));
    assert forall|i: int| 0 <= i < l.len() implies l[i] == r[i] by {
        if i < a.len() {
            lemma_sum_len_prefix(a + b, a, i as nat);
        } else {
            lemma_sum_len_concat(a, b, (i - a.len()) as nat);
        }
    }
    assert(l =~= r);
}

pub proof fn lemma_entries_push(a: Seq<Piece>, p: Piece, offset: nat)
    ensures
        entries_of(a.push(p), offset) == entries_of(a, offset).push(
            SectionEntry {
                virtual_offset: (offset + total(a)) as u64,
                byte_len: p.len as u64,
                section: p.section,
            },
        ),
{
    let l = entries_of(a.push(p), offset);
    let r = entries_of(a, offset).push(
        SectionEntry {
            virtual_offset: (offset + total(a)) as u64,
            byte_len: p.len as u64,
            section: p.section,
        },
    );
    assert forall|i: int| 0 <= i < l.len() implies l[i] == r[i] by {
        lemma_sum_len_prefix(a.push(p), a, i as nat);
    }
    assert(l =~= r);
}

/// Where the next section would stand, if that fits in 64 bits.
fn advance(offset: u64, byte_len: u64) -> (r: Option<u64>)
    ensures
        match r {
            Some(o) => o == offset + byte_len,
            None => offset + byte_len > u64::MAX,
        },
{
    if byte_len > u64::MAX - offset {
        None
    } else {
        Some(offset + byte_len)
    }
}

/// Whether the payload sizes of all frames of a track are known, and, where there is
/// more than one cluster, its times.
pub open spec fn track_ready(m: TrackModel, clusters: nat) -> bool {
    &&& clusters >= 2 ==> m.cbr_frame_size is Some || m.index is Some
    &&& clusters >= 1 ==> forall|f: u32| f < m.frame_count ==> #[trigger] m.sized(f)
}

/// Appends the blocks of the frames from `start` up to `end`; gives the offset after
/// them, or nothing where a size is unknown or the offset does not fit.
fn add_track(
    sections: &mut Vec<SectionEntry>,
    offset: u64,
    meta: &TrackMeta,
    track_id: u32,
    cluster_index: u32,
    start: u32,
    end: u32,
) -> (r: Option<u64>)
    requires
        meta.wf(),
        end <= meta.frame_count,
    ensures
        ({
            let pieces = track_pieces(meta@, track_id, cluster_index as int, start, end);
            match r {
                Some(o) => {
                    &&& o == offset + total(pieces)
                    &&& final(sections)@ == old(sections)@ + entries_of(pieces, offset as nat)
                    &&& forall|f: u32| start <= f < end ==> #[trigger] meta@.sized(f)
                },
                None => offset + total(pieces) > u64::MAX || exists|f: u32|
                    f < meta.frame_count && !#[trigger] meta@.sized(f),
            }
        }),
{
    let ghost all = track_pieces(meta@, track_id, cluster_index as int, start, end);
    let mut at: u64 = offset;
    let mut f: u32 = start;
    let ghost mut done: Seq<Piece> = Seq::empty();
    proof {
        assert(sections@ =~= old(sections)@ + entries_of(done, offset as nat));
    }
    while f < end
        invariant
            meta.wf(),
            start <= f,
            f <= end || end < start && f == start,
            end <= meta.frame_count,
            all == track_pieces(meta@, track_id, cluster_index as int, start, end),
            done == all.take(f - start),
            f - start <= all.len(),
            at == offset + total(done),
            sections@ == old(sections)@ + entries_of(done, offset as nat),
            forall|g: u32| start <= g < f ==> #[trigger] meta@.sized(g),
        decreases end - f,
    {
        let payload_size: u32 = match meta.checked_payload_size(f) {
            Some(n) => n,
            None => return None,
        };
        let byte_len: u64 = simple_block_byte_len(meta.track_number, payload_size);
        let ghost p = block_piece(meta@, track_id, cluster_index as int, f);
        proof {
            assert(all[f - start] == p);
            assert(all.take(f - start + 1) =~= done.push(p));
            lemma_total_push(done, p);
            lemma_entries_push(done, p, offset as nat);
            lemma_sum_len_prefix(all, done.push(p), done.push(p).len());
            lemma_sum_len_grows(all, done.push(p).len(), all.len());
        }
        let next: u64 = match advance(at, byte_len) {
            Some(n) => n,
            None => return None,
        };
        sections.push(
            SectionEntry {
                virtual_offset: at,
                byte_len,
                section: LayoutSection::SimpleBlock {
                    cluster_index,
                    track_id,
                    frame_index: f,
                    payload_size,
                },
            },
        );
        proof {
            assert(sections@ =~= old(sections)@ + entries_of(done.push(p), offset as nat));
            done = done.push(p);
        }
        at = next;
        f = f + 1;
    }
    assert(all.take(f - start) =~= all);
    Some(at)
}

/// What the planner knows about each track.
pub open spec fn meta_models(metas: Map<u32, TrackMeta>) -> Map<u32, TrackModel> {
    metas.map_values(|m: TrackMeta| m@)
}

/// Whether every track of `ids` is known, and its index in order.
pub open spec fn metas_cover(metas: Map<u32, TrackMeta>, ids: Seq<u32>) -> bool {
    forall|i: int|
        0 <= i < ids.len() ==> metas.contains_key(#[trigger] ids[i]) && metas[ids[i]].wf()
}

/// Whether all tracks of `ids` are ready.
pub open spec fn tracks_ready(models: Map<u32, TrackModel>, ids: Seq<u32>, clusters: nat) -> bool {
    forall|i: int| 0 <= i < ids.len() ==> track_ready(models[#[trigger] ids[i]], clusters)
}

proof fn lemma_tracks_total_grows(
    models: Map<u32, TrackModel>,
    ids: Seq<u32>,
    times: Seq<u64>,
    c: int,
    i: nat,
    j: nat,
)
    requires
        i <= j,
    ensures
        total(tracks_pieces(models, ids, times, c, i)) <= total(
            tracks_pieces(models, ids, times, c, j),
        ),
    decreases j,
{
    if i < j {
        lemma_tracks_total_grows(models, ids, times, c, i, (j - 1) as nat);
        let t = ids[j - 1];
        let m = models[t];
        lemma_total_concat(
            tracks_pieces(models, ids, times, c, (j - 1) as nat),
            track_pieces(m, t, c, first_frame(m, times, c), end_frame(m, times, c)),
        );
    }
}

pub proof fn lemma_clusters_total_grows(
    models: Map<u32, TrackModel>,
    ids: Seq<u32>,
    times: Seq<u64>,
    i: nat,
    j: nat,
)
    requires
        i <= j,
    ensures
        total(clusters_pieces(models, ids, times, i)) <= total(
            clusters_pieces(models, ids, times, j),
        ),
    decreases j,
{
    if i < j {
        lemma_clusters_total_grows(models, ids, times, i, (j - 1) as nat);
        lemma_total_concat(
            clusters_pieces(models, ids, times, (j - 1) as nat),
            cluster_pieces(models, ids, times, j - 1),
        );
    }
}

/// Whether a header stands for a cluster that exists, and a block for a frame of a
/// known track, in a cluster that exists, with the size that the track tells.
pub open spec fn block_sound(
    s: LayoutSection,
    models: Map<u32, TrackModel>,
    clusters: nat,
) -> bool {
    &&& s matches LayoutSection::ClusterHeader { cluster_index } ==> cluster_index < clusters
    &&& s matches LayoutSection::SimpleBlock { cluster_index, track_id, frame_index, payload_size }
        ==> {
        &&& cluster_index < clusters
        &&& models.contains_key(track_id)
        &&& frame_index < models[track_id].frame_count
        &&& models[track_id].sized(frame_index)
        &&& payload_size == models[track_id].payload_of(frame_index)
    }
}

/// Whether all blocks among `sections` are sound.
pub open spec fn sections_sound(
    sections: Seq<SectionEntry>,
    models: Map<u32, TrackModel>,
    clusters: nat,
) -> bool {
    forall|i: int|
        0 <= i < sections.len() ==> block_sound(
            (#[trigger] sections[i]).section,
            models,
            clusters,
        )
}

/// Appends a cluster; gives the offset after it, or nothing where a track is not
/// ready or the offset does not fit.
fn add_cluster(
    sections: &mut Vec<SectionEntry>,
    offset: u64,
    metas: &HashMap<u32, TrackMeta>,
    ids: &Vec<u32>,
    times: &Vec<u64>,
    c: usize,
) -> (r: Option<u64>)
    requires
        metas_cover(metas@, ids@),
        c < times@.len() <= 0x1_0000_0000,
        sections_sound(old(sections)@, meta_models(metas@), times@.len()),
    ensures
        ({
            let models = meta_models(metas@);
            let pieces = cluster_pieces(models, ids@, times@, c as int);
            match r {
                Some(o) => {
                    &&& o == offset + total(pieces)
                    &&& final(sections)@ == old(sections)@ + entries_of(pieces, offset as nat)
                    &&& sections_sound(final(sections)@, models, times@.len())
                },
                None => offset + total(pieces) > u64::MAX || !tracks_ready(
                    models,
                    ids@,
                    times@.len(),
                ),
            }
        }),
{
    let ghost models = meta_models(metas@);
    let ghost header = Piece {
        section: LayoutSection::ClusterHeader { cluster_index: c as u32 },
        len: 22,
    };
    let ghost head = seq![header];
    let ghost all = tracks_pieces(models, ids@, times@, c as int, ids@.len());
    proof {
        assert(Seq::<Piece>::empty().push(header) =~= head);
        lemma_total_push(Seq::<Piece>::empty(), header);
        lemma_entries_push(Seq::<Piece>::empty(), header, offset as nat);
        lemma_total_concat(head, all);
    }
    let mut at: u64 = match advance(offset, CLUSTER_HEADER_SIZE) {
        Some(n) => n,
        None => return None,
    };
    sections.push(
        SectionEntry {
            virtual_offset: offset,
            byte_len: CLUSTER_HEADER_SIZE,
            section: LayoutSection::ClusterHeader { cluster_index: c as u32 },
        },
    );
    let mut i: usize = 0;
    let ghost mut done: Seq<Piece> = Seq::empty();
    proof {
        assert(head + done =~= head);
        assert(entries_of(Seq::<Piece>::empty(), offset as nat) =~= Seq::<SectionEntry>::empty());
        assert(sections@ =~= old(sections)@ + entries_of(head + done, offset as nat));
    }
    while i < ids.len()
        invariant
            metas_cover(metas@, ids@),
            c < times@.len() <= 0x1_0000_0000,
            models == meta_models(metas@),
            i <= ids@.len(),
            head == seq![header],
            header == (Piece {
                section: LayoutSection::ClusterHeader { cluster_index: c as u32 },
                len: 22,
            }),
            all == tracks_pieces(models, ids@, times@, c as int, ids@.len()),
            total(head + all) == total(head) + total(all),
            done == tracks_pieces(models, ids@, times@, c as int, i as nat),
            at == offset + total(head + done),
            sections@ == old(sections)@ + entries_of(head + done, offset as nat),
            sections_sound(sections@, models, times@.len()),
        decreases ids@.len() - i,
    {
        let track_id: u32 = ids[i];
        assert(metas@.contains_key(ids@[i as int]));
        let meta: &TrackMeta = match metas.get(&track_id) {
            Some(m) => m,
            None => return None,
        };
        let ghost m = models[track_id];
        assert(m == meta@);
        assert(times@.len() >= 2 && !(m.cbr_frame_size is Some || m.index is Some)
            ==> !tracks_ready(models, ids@, times@.len())) by {
            if tracks_ready(models, ids@, times@.len()) {
                assert(track_ready(models[ids@[i as int]], times@.len()));
            }
        }
        let timed: bool = meta.cbr_frame_size.is_some() || meta.vfr_index.is_some();
        if times.len() >= 2 && !timed {
            return None;
        }
        let start: u32 = if c == 0 {
            0
        } else {
            meta.frame_at_time(times[c])
        };
        let end: u32 = if c + 1 < times.len() {
            meta.frame_at_time(times[c + 1])
        } else {
            meta.frame_count
        };
        let ghost here = track_pieces(m, track_id, c as int, start, end);
        proof {
            assert(start == first_frame(m, times@, c as int));
            assert(end == end_frame(m, times@, c as int));
            assert(tracks_pieces(models, ids@, times@, c as int, (i + 1) as nat) == done + here);
            lemma_total_concat(head + done, here);
            lemma_total_concat(head, done);
            lemma_total_concat(done, here);
            lemma_entries_concat(head + done, here, offset as nat);
            assert(head + done + here =~= head + (done + here));
            lemma_tracks_total_grows(
                models,
                ids@,
                times@,
                c as int,
                (i + 1) as nat,
                ids@.len(),
            );
        }
        let ghost before = sections@;
        match add_track(sections, at, meta, track_id, c as u32, start, end) {
            Some(n) => {
                at = n;
            },
            None => {
                proof {
                    if offset + total(cluster_pieces(models, ids@, times@, c as int)) <= u64::MAX {
                        let f = choose|f: u32| f < meta.frame_count && !#[trigger] meta@.sized(f);
                        if tracks_ready(models, ids@, times@.len()) {
                            assert(track_ready(models[ids@[i as int]], times@.len()));
                            assert(m.sized(f));
                        }
                    }
                }
                return None;
            },
        }
        proof {
            assert(sections@ =~= old(sections)@ + entries_of(
                head + (done + here),
                offset as nat,
            ));
            assert forall|k: int| 0 <= k < sections@.len() implies block_sound(
                (#[trigger] sections@[k]).section,
                models,
                times@.len(),
            ) by {
                if k < before.len() {
                    assert(sections@[k] == before[k]);
                } else {
                    let j = k - before.len();
                    assert(sections@[k].section == here[j].section);
                    assert(m.sized((start + j) as u32));
                }
            }
            done = done + here;
        }
        i = i + 1;
    }
    Some(at)
}

/// A Seek element: which element stands where.
pub open spec fn seek_elem(id: Seq<u8>, pos: u64) -> Seq<u8> {
    mkv_elem(
        seq![0x4Du8, 0xBBu8],
        mkv_elem(seq![0x53u8, 0xABu8], id) + mkv_uint(seq![0x53u8, 0xACu8], pos),
    )
}

pub open spec fn info_id() -> Seq<u8> {
    seq![0x15u8, 0x49u8, 0xA9u8, 0x66u8]
}

pub open spec fn tracks_id() -> Seq<u8> {
    seq![0x16u8, 0x54u8, 0xAEu8, 0x6Bu8]
}

pub open spec fn cues_id() -> Seq<u8> {
    seq![0x1Cu8, 0x53u8, 0xBBu8, 0x6Bu8]
}

pub open spec fn chapters_id() -> Seq<u8> {
    seq![0x10u8, 0x43u8, 0xA7u8, 0x70u8]
}

/// The SeekHead element: where Info, Tracks, Cues and, if there are any, the elements
/// after Tracks stand.
pub open spec fn seekhead_elem(
    info_offset: u64,
    pre_size: u64,
    post_offset: u64,
    has_post: bool,
    cues_offset: u64,
) -> Seq<u8> {
    mkv_elem(
        seq![0x11u8, 0x4Du8, 0x9Bu8, 0x74u8],
        seek_elem(info_id(), info_offset) + seek_elem(tracks_id(), pre_size) + seek_elem(
            cues_id(),
            cues_offset,
        ) + (if has_post {
            seek_elem(chapters_id(), post_offset)
        } else {
            Seq::empty()
        }),
    )
}

/// The number of bytes of a number in minimal form.
fn uint_len(value: u64) -> (r: u64)
    ensures
        r == uint_bytes(value).len(),
        r == uint_size(value),
        1 <= r <= 8,
{
    proof {
        lemma_be_bytes_len(value as nat, uint_size(value));
    }
    if value <= 0xFF {
        1
    } else if value <= 0xFFFF {
        2
    } else if value <= 0xFF_FFFF {
        3
    } else if value <= 0xFFFF_FFFF {
        4
    } else if value <= 0xFF_FFFF_FFFF {
        5
    } else if value <= 0xFFFF_FFFF_FFFF {
        6
    } else if value <= 0xFF_FFFF_FFFF_FFFF {
        7
    } else {
        8
    }
}

/// The length of a Seek element for a four-byte id.
fn seek_size(pos: u64) -> (r: u64)
    ensures
        forall|id: Seq<u8>| id.len() == 4 ==> #[trigger] seek_elem(id, pos).len() == r,
        r <= 64,
{
    let seekid_size: u64 = 2 + vint_len(4) as u64 + 4;
    let n: u64 = uint_len(pos);
    let seekpos_size: u64 = 2 + vint_len(n) as u64 + n;
    let content: u64 = seekid_size + seekpos_size;
    proof {
        assert forall|id: Seq<u8>| id.len() == 4 implies #[trigger] seek_elem(id, pos).len() == 2
            + vint_size(content) + content by {
            let a = mkv_elem(seq![0x53u8, 0xABu8], id);
            let b = mkv_uint(seq![0x53u8, 0xACu8], pos);
            lemma_mkv_elem_len(seq![0x53u8, 0xABu8], id);
            lemma_mkv_elem_len(seq![0x53u8, 0xACu8], uint_bytes(pos));
            lemma_mkv_elem_len(seq![0x4Du8, 0xBBu8], a + b);
        }
    }
    2 + vint_len(content) as u64 + content
}

/// Size of the SeekHead element.
pub fn compute_seekhead_size(
    info_offset: u64,
    pre_size: u64,
    post_offset: u64,
    has_post: bool,
    cues_offset: u64,
) -> (r: u64)
    ensures
        r == seekhead_elem(info_offset, pre_size, post_offset, has_post, cues_offset).len(),
        r <= 300,
{
    let mut content: u64 = seek_size(info_offset) + seek_size(pre_size) + seek_size(cues_offset);
    if has_post {
        content = content + seek_size(post_offset);
    }
    proof {
        assert(info_id().len() == 4 && tracks_id().len() == 4 && cues_id().len() == 4
            && chapters_id().len() == 4);
        let all = seek_elem(info_id(), info_offset) + seek_elem(tracks_id(), pre_size) + seek_elem(
            cues_id(),
            cues_offset,
        ) + (if has_post {
            seek_elem(chapters_id(), post_offset)
        } else {
            Seq::empty()
        });
        lemma_mkv_elem_len(seq![0x11u8, 0x4Du8, 0x9Bu8, 0x74u8], all);
    }
    4 + vint_len(content) as u64 + content
}

/// Appends a Seek element.
fn write_seek(w: &mut Vec<u8>, id: &[u8], pos: u64)
    ensures
        final(w)@ == old(w)@ + seek_elem(id@, pos),
{
    let seekid: [u8; 2] = [0x53u8, 0xABu8];
    let seekpos: [u8; 2] = [0x53u8, 0xACu8];
    let seek: [u8; 2] = [0x4Du8, 0xBBu8];
    proof {
        assert(seekid@ =~= seq![0x53u8, 0xABu8]);
        assert(seekpos@ =~= seq![0x53u8, 0xACu8]);
        assert(seek@ =~= seq![0x4Du8, 0xBBu8]);
    }
    let mut content: Vec<u8> = Vec::new();
    write_element(&mut content, &seekid, id);
    write_uint_element(&mut content, &seekpos, pos);
    assert(content@ =~= mkv_elem(seq![0x53u8, 0xABu8], id@) + mkv_uint(
        seq![0x53u8, 0xACu8],
        pos,
    ));
    write_element(w, &seek, &content);
}

/// Build the SeekHead element bytes; as long as [`compute_seekhead_size`] says.
pub fn build_seekhead_bytes(
    info_offset: u64,
    pre_size: u64,
    post_offset: u64,
    has_post: bool,
    cues_offset: u64,
) -> (r: Vec<u8>)
    ensures
        r@ == seekhead_elem(info_offset, pre_size, post_offset, has_post, cues_offset),
{
    let info: [u8; 4] = [0x15u8, 0x49u8, 0xA9u8, 0x66u8];
    let tracks: [u8; 4] = [0x16u8, 0x54u8, 0xAEu8, 0x6Bu8];
    let cues: [u8; 4] = [0x1Cu8, 0x53u8, 0xBBu8, 0x6Bu8];
    let chapters: [u8; 4] = [0x10u8, 0x43u8, 0xA7u8, 0x70u8];
    let head: [u8; 4] = [0x11u8, 0x4Du8, 0x9Bu8, 0x74u8];
    proof {
        assert(info@ =~= info_id());
        assert(tracks@ =~= tracks_id());
        assert(cues@ =~= cues_id());
        assert(chapters@ =~= chapters_id());
        assert(head@ =~= seq![0x11u8, 0x4Du8, 0x9Bu8, 0x74u8]);
    }
    let mut content: Vec<u8> = Vec::new();
    write_seek(&mut content, &info, info_offset);
    write_seek(&mut content, &tracks, pre_size);
    write_seek(&mut content, &cues, cues_offset);
    // The id of Chapters is a generic pointer to what follows the tracks.
    if has_post {
        write_seek(&mut content, &chapters, post_offset);
    }
    let mut out: Vec<u8> = Vec::new();
    write_element(&mut out, &head, &content);
    proof {
        assert(content@ =~= seek_elem(info_id(), info_offset) + seek_elem(tracks_id(), pre_size)
            + seek_elem(cues_id(), cues_offset) + (if has_post {
            seek_elem(chapters_id(), post_offset)
        } else {
            Seq::empty()
        }));
        assert(out@ =~= mkv_elem(head@, content@));
    }
    out
}

/// The CuePoint for a keyframe: its time, its track, and where its cluster starts.
pub open spec fn cue_elem(time: u64, track_number: u64, cluster_offset: u64) -> Seq<u8> {
    mkv_elem(
        seq![0xBBu8],
        mkv_uint(seq![0xB3u8], time) + mkv_elem(
            seq![0xB7u8],
            mkv_uint(seq![0xF7u8], track_number) + mkv_uint(seq![0xF1u8], cluster_offset),
        ),
    )
}

/// Whether a section is the block of a video keyframe.
pub open spec fn has_cue(models: Map<u32, TrackModel>, s: LayoutSection) -> bool {
    match s {
        LayoutSection::SimpleBlock { cluster_index, track_id, frame_index, payload_size } => {
            &&& models.contains_key(track_id)
            &&& models[track_id].codec_type == CodecType::Video
            &&& models[track_id].is_key(frame_index)
        },
        _ => false,
    }
}

/// The CuePoint of a section; nothing where it has none.
pub open spec fn cue_of(
    models: Map<u32, TrackModel>,
    offsets: Seq<u64>,
    s: LayoutSection,
) -> Seq<u8> {
    if !has_cue(models, s) {
        Seq::empty()
    } else {
        match s {
            LayoutSection::SimpleBlock { cluster_index, track_id, frame_index, payload_size } => {
                cue_elem(
                    models[track_id].time_of(frame_index),
                    models[track_id].track_number,
                    offsets[cluster_index as int],
                )
            },
            _ => Seq::empty(),
        }
    }
}

pub open spec fn cue_coder(
    models: Map<u32, TrackModel>,
    offsets: Seq<u64>,
) -> spec_fn(SectionEntry) -> Seq<u8> {
    |e: SectionEntry| cue_of(models, offsets, e.section)
}

/// The Cues element for sections.
pub open spec fn cues_elem(
    sections: Seq<SectionEntry>,
    models: Map<u32, TrackModel>,
    offsets: Seq<u64>,
) -> Seq<u8> {
    mkv_elem(cues_id(), concat_map(sections, cue_coder(models, offsets)))
}

/// Whether the blocks among `sections` belong to clusters and frames that exist.
pub open spec fn blocks_known(
    sections: Seq<SectionEntry>,
    metas: Map<u32, TrackMeta>,
    clusters: nat,
) -> bool {
    forall|i: int| 0 <= i < sections.len() ==> block_known(#[trigger] sections[i], metas, clusters)
}

pub open spec fn block_known(e: SectionEntry, metas: Map<u32, TrackMeta>, clusters: nat) -> bool {
    e.section matches LayoutSection::SimpleBlock {
        cluster_index,
        track_id,
        frame_index,
        payload_size,
    } ==> {
        &&& cluster_index < clusters
        &&& metas.contains_key(track_id) ==> {
            &&& metas[track_id].wf()
            &&& metas[track_id].codec_type == CodecType::Video ==> (
            metas[track_id].vfr_index matches Some(x) && frame_index < x.vfr.frames@.len())
        }
    }
}

/// Time, track number and cluster offset of the CuePoint of a section, if it has one.
fn cue_parts(
    e: &SectionEntry,
    cluster_offsets: &[u64],
    tracks_meta: &HashMap<u32, TrackMeta>,
) -> (r: Option<(u64, u64, u64)>)
    requires
        block_known(*e, tracks_meta@, cluster_offsets@.len()),
    ensures
        ({
            let models = meta_models(tracks_meta@);
            match r {
                None => !has_cue(models, e.section),
                Some(p) => {
                    &&& has_cue(models, e.section)
                    &&& cue_of(models, cluster_offsets@, e.section) == cue_elem(p.0, p.1, p.2)
                },
            }
        }),
{
    match e.section {
        LayoutSection::SimpleBlock { cluster_index, track_id, frame_index, payload_size } => {
            let meta: &TrackMeta = match tracks_meta.get(&track_id) {
                Some(m) => m,
                None => return None,
            };
            if meta.codec_type == CodecType::Audio {
                return None;
            }
            if !meta.is_keyframe(frame_index) {
                return None;
            }
            let time: u64 = meta.frame_time(frame_index);
            Some((time, meta.track_number, cluster_offsets[cluster_index as usize]))
        },
        _ => None,
    }
}

/// Size of a UInt element (ID 1 byte + VINT size + minimal big-endian).
fn uint_element_size(value: u64) -> (r: u64)
    ensures
        r <= 10,
        forall|id: Seq<u8>| id.len() == 1 ==> #[trigger] mkv_uint(id, value).len() == r,
{
    let n: u64 = uint_len(value);
    proof {
        assert forall|id: Seq<u8>| id.len() == 1 implies #[trigger] mkv_uint(id, value).len() == 1
            + vint_size(n) + n by {
            lemma_mkv_elem_len(id, uint_bytes(value));
        }
    }
    1 + vint_len(n) as u64 + n
}

/// The length of a CuePoint.
fn cue_size(time: u64, track_number: u64, cluster_offset: u64) -> (r: u64)
    ensures
        r == cue_elem(time, track_number, cluster_offset).len(),
        r <= 100,
{
    let cuetime_size: u64 = uint_element_size(time);
    let cuetrack_size: u64 = uint_element_size(track_number);
    let cuepos_size: u64 = uint_element_size(cluster_offset);
    let ctp_content: u64 = cuetrack_size + cuepos_size;
    let ctp_size: u64 = 1 + vint_len(ctp_content) as u64 + ctp_content;
    let cuepoint_content: u64 = cuetime_size + ctp_size;
    proof {
        let a = mkv_uint(seq![0xF7u8], track_number);
        let b = mkv_uint(seq![0xF1u8], cluster_offset);
        let t = mkv_uint(seq![0xB3u8], time);
        assert(a.len() == cuetrack_size);
        assert(b.len() == cuepos_size);
        assert(t.len() == cuetime_size);
        lemma_mkv_elem_len(seq![0xB7u8], a + b);
        lemma_mkv_elem_len(seq![0xBBu8], t + mkv_elem(seq![0xB7u8], a + b));
    }
    1 + vint_len(cuepoint_content) as u64 + cuepoint_content
}

/// Compute the byte length of the Cues element exactly (without keeping the
/// generated bytes around); nothing where the length does not fit.
fn compute_cues_size(
    sections: &[SectionEntry],
    cluster_offsets: &[u64],
    tracks_meta: &HashMap<u32, TrackMeta>,
) -> (r: Option<u64>)
    requires
        blocks_known(sections@, tracks_meta@, cluster_offsets@.len()),
    ensures
        ({
            let models = meta_models(tracks_meta@);
            let cues = cues_elem(sections@, models, cluster_offsets@);
            match r {
                Some(n) => n == cues.len(),
                None => cues.len() > u64::MAX,
            }
        }),
{
    let ghost models = meta_models(tracks_meta@);
    let ghost coder = cue_coder(models, cluster_offsets@);
    let ghost all = concat_map(sections@, coder);
    let mut content_size: u64 = 0;
    let mut i: usize = 0;
    proof {
        lemma_mkv_elem_len(cues_id(), all);
        assert(concat_map(sections@.take(0), coder) =~= Seq::<u8>::empty());
    }
    while i < sections.len()
        invariant
            blocks_known(sections@, tracks_meta@, cluster_offsets@.len()),
            models == meta_models(tracks_meta@),
            coder == cue_coder(models, cluster_offsets@),
            all == concat_map(sections@, coder),
            cues_elem(sections@, models, cluster_offsets@).len() == 4
                + vint_size(all.len() as u64) + all.len(),
            i <= sections@.len(),
            content_size == concat_map(sections@.take(i as int), coder).len(),
        decreases sections@.len() - i,
    {
        let ghost e = sections@[i as int];
        proof {
            let t = sections@.take(i as int);
            assert(sections@.take(i + 1) =~= t.push(e));
            lemma_concat_map_push(t, e, coder);
            lemma_concat_map_prefix(sections@, coder, i + 1);
            assert(coder(e) == cue_of(models, cluster_offsets@, e.section));
        }
        match cue_parts(&sections[i], cluster_offsets, tracks_meta) {
            None => {},
            Some((time, number, position)) => {
                match advance(content_size, cue_size(time, number, position)) {
                    Some(n) => {
                        content_size = n;
                    },
                    None => return None,
                }
            },
        }
        i = i + 1;
    }
    assert(sections@.take(i as int) =~= sections@);
    advance(content_size, 4 + vint_len(content_size) as u64)
}

/// The strings of a prefix are no longer than those of the whole.
proof fn lemma_concat_map_prefix<T>(s: Seq<T>, f: spec_fn(T) -> Seq<u8>, i: int)
    requires
        0 <= i <= s.len(),
    ensures
        concat_map(s.take(i), f).len() <= concat_map(s, f).len(),
    decreases s.len(),
{
    if i == s.len() {
        assert(s.take(i) =~= s);
    } else if i == 0 {
        assert(concat_map(s.take(i), f) =~= Seq::<u8>::empty());
    } else {
        assert(s.take(i).skip(1) =~= s.skip(1).take(i - 1));
        lemma_concat_map_prefix(s.skip(1), f, i - 1);
    }
}

/// Appends a CuePoint.
fn write_cue(w: &mut Vec<u8>, time: u64, track_number: u64, cluster_offset: u64)
    ensures
        final(w)@ == old(w)@ + cue_elem(time, track_number, cluster_offset),
{
    let point: [u8; 1] = [0xBBu8];
    let cuetime: [u8; 1] = [0xB3u8];
    let positions: [u8; 1] = [0xB7u8];
    let track: [u8; 1] = [0xF7u8];
    let cluster: [u8; 1] = [0xF1u8];
    proof {
        assert(point@ =~= seq![0xBBu8]);
        assert(cuetime@ =~= seq![0xB3u8]);
        assert(positions@ =~= seq![0xB7u8]);
        assert(track@ =~= seq![0xF7u8]);
        assert(cluster@ =~= seq![0xF1u8]);
    }
    let mut ctp: Vec<u8> = Vec::new();
    write_uint_element(&mut ctp, &track, track_number);
    write_uint_element(&mut ctp, &cluster, cluster_offset);
    assert(ctp@ =~= mkv_uint(track@, track_number) + mkv_uint(cluster@, cluster_offset));
    let mut cp: Vec<u8> = Vec::new();
    write_uint_element(&mut cp, &cuetime, time);
    write_element(&mut cp, &positions, &ctp);
    assert(cp@ =~= mkv_uint(cuetime@, time) + mkv_elem(positions@, ctp@));
    write_element(w, &point, &cp);
}

/// Build the Cues element bytes; as long as planned.
pub(crate) fn build_cues_bytes(
    sections: &[SectionEntry],
    cluster_offsets: &[u64],
    tracks_meta: &HashMap<u32, TrackMeta>,
) -> (r: Vec<u8>)
    requires
        blocks_known(sections@, tracks_meta@, cluster_offsets@.len()),
    ensures
        r@ == cues_elem(sections@, meta_models(tracks_meta@), cluster_offsets@),
{
    let ghost models = meta_models(tracks_meta@);
    let ghost coder = cue_coder(models, cluster_offsets@);
    let mut content: Vec<u8> = Vec::new();
    let mut i: usize = 0;
    proof {
        assert(content@ =~= concat_map(sections@.take(0), coder));
    }
    while i < sections.len()
        invariant
            blocks_known(sections@, tracks_meta@, cluster_offsets@.len()),
            models == meta_models(tracks_meta@),
            coder == cue_coder(models, cluster_offsets@),
            i <= sections@.len(),
            content@ == concat_map(sections@.take(i as int), coder),
        decreases sections@.len() - i,
    {
        let ghost e = sections@[i as int];
        proof {
            let t = sections@.take(i as int);
            assert(sections@.take(i + 1) =~= t.push(e));
            lemma_concat_map_push(t, e, coder);
            assert(coder(e) == cue_of(models, cluster_offsets@, e.section));
        }
        if let Some((time, number, position)) = cue_parts(
            &sections[i],
            cluster_offsets,
            tracks_meta,
        ) {
            write_cue(&mut content, time, number, position);
        } else {
            assert(content@ + Seq::<u8>::empty() =~= content@);
        }
        i = i + 1;
    }
    let id: [u8; 4] = [0x1Cu8, 0x53u8, 0xBBu8, 0x6Bu8];
    let mut out: Vec<u8> = Vec::new();
    write_element(&mut out, &id, &content);
    proof {
        assert(id@ =~= cues_id());
        assert(sections@.take(i as int) =~= sections@);
        assert(out@ =~= mkv_elem(id@, content@));
    }
    out
}

/// A plan for a virtual file: what it is made from, and when its clusters start.
pub ghost struct Plan {
    pub source: BinstructModel,
    pub filter: Seq<u32>,
    pub models: Map<u32, TrackModel>,
    pub default_id: u32,
    pub times: Seq<u64>,
}

impl Plan {
    /// The wanted tracks in ascending order.
    pub open spec fn ids(self) -> Seq<u32> {
        ascending(self.filter)
    }

    pub open spec fn head(self) -> Seq<Piece> {
        head_pieces(self.source, self.filter, self.default_id)
    }

    /// What stands before cluster `n`.
    pub open spec fn before_cluster(self, n: nat) -> Seq<Piece> {
        self.head() + clusters_pieces(self.models, self.ids(), self.times, n)
    }

    /// What stands before the Cues.
    pub open spec fn body(self) -> Seq<Piece> {
        self.before_cluster(self.times.len())
    }

    /// Where the clusters start.
    pub open spec fn cluster_offsets(self) -> Seq<u64> {
        Seq::new(self.times.len(), |c: int| total(self.before_cluster(c as nat)) as u64)
    }

    pub open spec fn cues(self) -> Seq<u8> {
        cues_elem(entries_of(self.body(), 0), self.models, self.cluster_offsets())
    }

    pub open spec fn seekhead(self) -> Seq<u8> {
        let pre = self.source.mkv_skeleton.pre_tracks_blob.len();
        let tracks = tracks_len(self.source.mkv_skeleton.track_entries, self.filter);
        seekhead_elem(
            0,
            pre as u64,
            (pre + tracks) as u64,
            self.source.mkv_skeleton.post_tracks_blob.len() > 0,
            total(self.body()) as u64,
        )
    }

    /// All sections, in order.
    #[verifier::opaque]
    pub open spec fn pieces(self) -> Seq<Piece> {
        self.body().push(Piece { section: LayoutSection::Cues, len: self.cues().len() }).push(
            Piece { section: LayoutSection::SeekHead, len: self.seekhead().len() },
        )
    }

    /// Whether the plan can be carried out: all sizes are known, and all offsets fit.
    pub open spec fn feasible(self) -> bool {
        &&& self.times.len() <= 0x1_0000_0000
        &&& tracks_ready(self.models, self.ids(), self.times.len())
        &&& total(self.pieces()) <= u64::MAX
    }
}

proof fn lemma_track_kinds(
    models: Map<u32, TrackModel>,
    ids: Seq<u32>,
    times: Seq<u64>,
    c: int,
    n: nat,
    i: int,
)
    requires
        n <= ids.len(),
        0 <= i < tracks_pieces(models, ids, times, c, n).len(),
    ensures
        ({
            let p = tracks_pieces(models, ids, times, c, n)[i];
            p.section matches LayoutSection::SimpleBlock {
                cluster_index,
                track_id,
                frame_index,
                payload_size,
            } && p.len == block_len(models[track_id].track_number, payload_size as nat)
        }),
    decreases n,
{
    let before = tracks_pieces(models, ids, times, c, (n - 1) as nat);
    if i < before.len() {
        lemma_track_kinds(models, ids, times, c, (n - 1) as nat, i);
    }
}

proof fn lemma_cluster_kinds(plan: Plan, n: nat, i: int)
    requires
        n <= plan.times.len(),
        0 <= i < clusters_pieces(plan.models, plan.ids(), plan.times, n).len(),
    ensures
        piece_fits(plan, clusters_pieces(plan.models, plan.ids(), plan.times, n)[i]),
    decreases n,
{
    let before = clusters_pieces(plan.models, plan.ids(), plan.times, (n - 1) as nat);
    if i < before.len() {
        lemma_cluster_kinds(plan, (n - 1) as nat, i);
    } else if i > before.len() {
        lemma_track_kinds(
            plan.models,
            plan.ids(),
            plan.times,
            n - 1,
            plan.ids().len(),
            i - before.len() - 1,
        );
    }
}

/// Whether a piece is as long as its kind asks.
pub open spec fn piece_fits(plan: Plan, p: Piece) -> bool {
    let skeleton = plan.source.mkv_skeleton;
    match p.section {
        LayoutSection::PreTracksBlob => p.len == skeleton.pre_tracks_blob.len(),
        LayoutSection::TracksElement { default_track_id } => default_track_id == plan.default_id
            && p.len == tracks_len(skeleton.track_entries, plan.filter),
        LayoutSection::PostTracksBlob => p.len == skeleton.post_tracks_blob.len(),
        LayoutSection::ClusterHeader { cluster_index } => p.len == 22,
        LayoutSection::SimpleBlock { cluster_index, track_id, frame_index, payload_size } => p.len
            == block_len(plan.models[track_id].track_number, payload_size as nat),
        LayoutSection::Cues => p.len == plan.cues().len(),
        LayoutSection::SeekHead => p.len == plan.seekhead().len(),
    }
}

/// Every piece of a plan is as long as its kind asks.
pub proof fn lemma_piece_kinds(plan: Plan, i: int)
    requires
        0 <= i < plan.pieces().len(),
    ensures
        piece_fits(plan, plan.pieces()[i]),
{
    reveal(Plan::pieces);
    let clusters = clusters_pieces(plan.models, plan.ids(), plan.times, plan.times.len());
    if 3 <= i < 3 + clusters.len() {
        assert(plan.pieces()[i] == clusters[i - 3]);
        lemma_cluster_kinds(plan, plan.times.len(), i - 3);
    }
}

/// The first of the wanted tracks from number `k` on that is not known.
pub open spec fn first_missing(models: Map<u32, TrackModel>, ids: Seq<u32>, k: nat) -> Option<u32>
    decreases ids.len() - k,
{
    if k >= ids.len() {
        None
    } else if !models.contains_key(ids[k as int]) {
        Some(ids[k as int])
    } else {
        first_missing(models, ids, k + 1)
    }
}

/// The plan for the tracks of `filter`, or why there is none.
pub open spec fn plan_of(
    source: BinstructModel,
    filter: Seq<u32>,
    models: Map<u32, TrackModel>,
    default_id: u32,
) -> Result<Plan, MuxerFault> {
    match plan_times(source) {
        Err(e) => Err(e),
        Ok(times) => match first_missing(models, ascending(filter), 0) {
            Some(t) if times.len() > 0 => Err(MuxerFault::MissingTrack(t)),
            _ => Ok(Plan { source, filter, models, default_id, times }),
        },
    }
}

/// Whether a layout is that of a plan.
pub open spec fn follows(l: Layout, plan: Plan) -> bool {
    &&& l.sections@ == entries_of(plan.pieces(), 0)
    &&& l.cluster_offsets@ == plan.cluster_offsets()
    &&& l.total_size == total(plan.pieces())
    &&& l.cues_offset == total(plan.body())
    &&& l.seekhead_offset == total(plan.body()) + plan.cues().len()
    &&& l.cluster_timestamps@ == plan.times
    &&& plan.times.len() <= 0x1_0000_0000
    &&& sections_sound(l.sections@, plan.models, plan.times.len())
}

/// Whether the indexes of all tracks are in order.
pub open spec fn metas_wf(metas: Map<u32, TrackMeta>) -> bool {
    forall|t: u32| metas.contains_key(t) ==> (#[trigger] metas[t]).wf()
}

/// The sections of a layout follow each other without a gap, from zero to its end.
pub proof fn layout_is_contiguous(l: Layout, plan: Plan)
    requires
        follows(l, plan),
    ensures
        l.sections@.len() > 0,
        l.sections@[0].virtual_offset == 0,
        forall|i: int|
            0 <= i < l.sections@.len() - 1 ==> (#[trigger] l.sections@[i]).virtual_offset
                + l.sections@[i].byte_len == l.sections@[i + 1].virtual_offset,
        l.sections@.last().virtual_offset + l.sections@.last().byte_len == l.total_size,
{
    reveal(Plan::pieces);
    let p = plan.pieces();
    assert forall|i: int| 0 <= i < l.sections@.len() - 1 implies (
    #[trigger] l.sections@[i]).virtual_offset + l.sections@[i].byte_len == l.sections@[i
        + 1].virtual_offset by {
        lemma_sum_len_grows(p, (i + 1) as nat, p.len());
        assert(sum_len(p, (i + 1) as nat) == sum_len(p, i as nat) + p[i].len);
    }
    lemma_sum_len_grows(p, (p.len() - 1) as nat, p.len());
}

/// The sections after the body have no CuePoints.
pub proof fn lemma_cues_of_layout(l: Layout, plan: Plan)
    requires
        follows(l, plan),
    ensures
        cues_elem(l.sections@, plan.models, plan.cluster_offsets()) == plan.cues(),
{
    reveal(Plan::pieces);
    let coder = cue_coder(plan.models, plan.cluster_offsets());
    let cues_piece = Piece { section: LayoutSection::Cues, len: plan.cues().len() };
    let seek_piece = Piece { section: LayoutSection::SeekHead, len: plan.seekhead().len() };
    let body = entries_of(plan.body(), 0);
    let more = entries_of(plan.body().push(cues_piece), 0);
    lemma_entries_push(plan.body(), cues_piece, 0);
    lemma_entries_push(plan.body().push(cues_piece), seek_piece, 0);
    let a = more.last();
    let b = l.sections@.last();
    assert(more =~= body.push(a));
    assert(l.sections@ =~= more.push(b));
    lemma_concat_map_push(body, a, coder);
    lemma_concat_map_push(more, b, coder);
    assert(coder(a) =~= Seq::<u8>::empty());
    assert(coder(b) =~= Seq::<u8>::empty());
    assert(concat_map(l.sections@, coder) =~= concat_map(body, coder));
}

/// The length of the wanted track entries, where it fits.
fn wanted_entries_len(entries: &Vec<TrackEntryRecord>, filter: &[u32]) -> (r: Option<u64>)
    ensures
        match r {
            Some(n) => n == entries_len(entry_models(entries@), filter@, entries@.len()),
            None => entries_len(entry_models(entries@), filter@, entries@.len()) > u64::MAX,
        },
{
    let ghost models = entry_models(entries@);
    let mut sum: u64 = 0;
    let mut k: usize = 0;
    while k < entries.len()
        invariant
            models == entry_models(entries@),
            k <= entries@.len(),
            sum == entries_len(models, filter@, k as nat),
        decreases entries@.len() - k,
    {
        proof {
            lemma_entries_len_grows(models, filter@, (k + 1) as nat, entries@.len());
        }
        if contains_id(filter, entries[k].track_id as u32) {
            match advance(sum, entries[k].bytes.len() as u64) {
                Some(n) => {
                    sum = n;
                },
                None => return None,
            }
        }
        k = k + 1;
    }
    Some(sum)
}

proof fn lemma_entries_len_grows(entries: Seq<EntryModel>, filter: Seq<u32>, i: nat, j: nat)
    requires
        i <= j,
    ensures
        entries_len(entries, filter, i) <= entries_len(entries, filter, j),
    decreases j,
{
    if i < j {
        lemma_entries_len_grows(entries, filter, i, (j - 1) as nat);
    }
}

/// The absolute times of the clusters.
fn absolute_times(binstruct: &BinstructFile) -> (r: Result<Vec<u64>, MuxerError>)
    ensures
        match plan_times(binstruct@) {
            Ok(times) => r matches Ok(v) && v@ == times,
            Err(fault) => r matches Err(e) && e@ == fault,
        },
{
    let deltas: &Vec<i64> = &binstruct.cluster_timestamps.deltas;
    if deltas.len() as u64 != binstruct.cluster_timestamps.cluster_count {
        return Err(
            MuxerError::InvalidBinstruct("cluster deltas length != cluster_count".to_owned()),
        );
    }
    let mut times: Vec<u64> = Vec::new();
    let mut acc: i64 = 0;
    let mut k: usize = 0;
    assert(times@ =~= Seq::<u64>::empty());
    while k < deltas.len()
        invariant
            deltas@ == binstruct@.cluster_timestamps.deltas,
            deltas@.len() == binstruct@.cluster_timestamps.cluster_count,
            k <= deltas@.len(),
            acc >= 0,
            times_from(Seq::empty(), 0, deltas@, 0) == times_from(
                times@,
                acc as int,
                deltas@,
                k as nat,
            ),
        decreases deltas@.len() - k,
    {
        let d: i64 = deltas[k];
        acc = if d > i64::MAX - acc {
            i64::MAX
        } else {
            acc + d
        };
        if acc < 0 {
            return Err(
                MuxerError::InvalidBinstruct("negative absolute cluster timestamp".to_owned()),
            );
        }
        times.push(acc as u64);
        k = k + 1;
    }
    Ok(times)
}

/// The first wanted track that is not known.
fn missing_track(metas: &HashMap<u32, TrackMeta>, ids: &Vec<u32>) -> (r: Option<u32>)
    ensures
        r == first_missing(meta_models(metas@), ids@, 0),
        r is None ==> forall|i: int|
            0 <= i < ids@.len() ==> metas@.contains_key(#[trigger] ids@[i]),
{
    let mut k: usize = 0;
    while k < ids.len()
        invariant
            k <= ids@.len(),
            first_missing(meta_models(metas@), ids@, 0) == first_missing(
                meta_models(metas@),
                ids@,
                k as nat,
            ),
            forall|i: int| 0 <= i < k ==> metas@.contains_key(#[trigger] ids@[i]),
        decreases ids@.len() - k,
    {
        if !metas.contains_key(&ids[k]) {
            return Some(ids[k]);
        }
        k = k + 1;
    }
    None
}

/// Produce a deterministic layout for the given filter, or nothing where a size or a
/// time is not known or does not fit.
pub fn try_plan_layout(
    binstruct: &BinstructFile,
    filter: &[u32],
    tracks_meta: &HashMap<u32, TrackMeta>,
    default_audio_track_id: u32,
) -> (r: Option<Result<Layout, MuxerError>>)
    requires
        metas_wf(tracks_meta@),
    ensures
        match plan_of(
            binstruct@,
            filter@,
            meta_models(tracks_meta@),
            default_audio_track_id,
        ) {
            Err(fault) => r matches Some(Err(e)) && e@ == fault,
            Ok(plan) => match r {
                Some(Ok(l)) => follows(l, plan),
                Some(Err(e)) => false,
                None => !plan.feasible(),
            },
        },
{
    let ghost models = meta_models(tracks_meta@);
    let times: Vec<u64> = match absolute_times(binstruct) {
        Ok(v) => v,
        Err(e) => return Some(Err(e)),
    };
    let ids: Vec<u32> = sorted_ids(filter);
    let missing: Option<u32> = missing_track(tracks_meta, &ids);
    if times.len() > 0 {
        if let Some(t) = missing {
            return Some(Err(MuxerError::MissingTrack(t)));
        }
    }
    let ghost plan = Plan {
        source: binstruct@,
        filter: filter@,
        models,
        default_id: default_audio_track_id,
        times: times@,
    };
    proof {
        lemma_plan_totals(plan);
    }
    if times.len() as u64 > 0x1_0000_0000 {
        return None;
    }
    let pre_size: u64 = binstruct.mkv_skeleton.pre_tracks_blob.len() as u64;
    let post_size: u64 = binstruct.mkv_skeleton.post_tracks_blob.len() as u64;
    let content_size: u64 = match wanted_entries_len(
        &binstruct.mkv_skeleton.track_entries,
        filter,
    ) {
        Some(n) => n,
        None => return None,
    };
    let tracks_size: u64 = match advance(content_size, 4 + vint_len(content_size) as u64) {
        Some(n) => n,
        None => return None,
    };
    let post_offset: u64 = match advance(pre_size, tracks_size) {
        Some(n) => n,
        None => return None,
    };
    let mut offset: u64 = match advance(post_offset, post_size) {
        Some(n) => n,
        None => return None,
    };
    let mut sections: Vec<SectionEntry> = Vec::new();
    sections.push(
        SectionEntry {
            virtual_offset: 0,
            byte_len: pre_size,
            section: LayoutSection::PreTracksBlob,
        },
    );
    sections.push(
        SectionEntry {
            virtual_offset: pre_size,
            byte_len: tracks_size,
            section: LayoutSection::TracksElement { default_track_id: default_audio_track_id },
        },
    );
    sections.push(
        SectionEntry {
            virtual_offset: post_offset,
            byte_len: post_size,
            section: LayoutSection::PostTracksBlob,
        },
    );
    let mut cluster_offsets: Vec<u64> = Vec::new();
    let mut c: usize = 0;
    proof {
        reveal_with_fuel(sum_len, 4);
        assert(plan.before_cluster(0) =~= plan.head());
        assert(sections@ =~= entries_of(plan.before_cluster(0), 0));
    }
    while c < times.len()
        invariant
            times@.len() <= 0x1_0000_0000,
            plan.models == meta_models(tracks_meta@),
            plan.times == times@,
            plan.ids() == ids@,
            times@.len() > 0 ==> metas_cover(tracks_meta@, ids@),
            plan_of(binstruct@, filter@, plan.models, default_audio_track_id) == Ok::<
                Plan,
                MuxerFault,
            >(plan),
            forall|n: nat|
                n <= times@.len() ==> #[trigger] total(plan.before_cluster(n)) <= total(
                    plan.pieces(),
                ),
            c <= times@.len(),
            offset == total(plan.before_cluster(c as nat)),
            sections@ == entries_of(plan.before_cluster(c as nat), 0),
            sections_sound(sections@, plan.models, times@.len()),
            cluster_offsets@.len() == c,
            forall|k: int|
                0 <= k < c ==> #[trigger] cluster_offsets@[k] == total(
                    plan.before_cluster(k as nat),
                ),
        decreases times@.len() - c,
    {
        cluster_offsets.push(offset);
        proof {
            let a = plan.before_cluster(c as nat);
            let b = cluster_pieces(plan.models, ids@, times@, c as int);
            lemma_total_concat(a, b);
            lemma_entries_concat(a, b, 0);
            assert(plan.before_cluster((c + 1) as nat) =~= a + b);
        }
        match add_cluster(&mut sections, offset, tracks_meta, &ids, &times, c) {
            Some(n) => {
                offset = n;
            },
            None => return None,
        }
        c = c + 1;
    }
    let cues_offset: u64 = offset;
    proof {
        assert(cluster_offsets@ =~= plan.cluster_offsets());
        assert(blocks_known(sections@, tracks_meta@, times@.len())) by {
            assert forall|i: int| 0 <= i < sections@.len() implies block_known(
                #[trigger] sections@[i],
                tracks_meta@,
                times@.len(),
            ) by {
                assert(block_sound(sections@[i].section, plan.models, times@.len()));
            }
        }
    }
    let cues_size: u64 = match compute_cues_size(&sections, &cluster_offsets, tracks_meta) {
        Some(n) => n,
        None => return None,
    };
    let seekhead_offset: u64 = match advance(cues_offset, cues_size) {
        Some(n) => n,
        None => return None,
    };
    let seekhead_size: u64 = compute_seekhead_size(
        0,
        pre_size,
        post_offset,
        post_size > 0,
        cues_offset,
    );
    let total_size: u64 = match advance(seekhead_offset, seekhead_size) {
        Some(n) => n,
        None => return None,
    };
    let ghost body = sections@;
    reveal(Plan::pieces);
    sections.push(
        SectionEntry {
            virtual_offset: cues_offset,
            byte_len: cues_size,
            section: LayoutSection::Cues,
        },
    );
    sections.push(
        SectionEntry {
            virtual_offset: seekhead_offset,
            byte_len: seekhead_size,
            section: LayoutSection::SeekHead,
        },
    );
    proof {
        let cues_piece = Piece { section: LayoutSection::Cues, len: plan.cues().len() };
        let seek_piece = Piece { section: LayoutSection::SeekHead, len: plan.seekhead().len() };
        lemma_entries_push(plan.body(), cues_piece, 0);
        lemma_entries_push(plan.body().push(cues_piece), seek_piece, 0);
        lemma_total_push(plan.body(), cues_piece);
        lemma_total_push(plan.body().push(cues_piece), seek_piece);
        assert(sections@ =~= entries_of(plan.pieces(), 0));
        assert forall|i: int| 0 <= i < sections@.len() implies block_sound(
            (#[trigger] sections@[i]).section,
            plan.models,
            times@.len(),
        ) by {
            if i < body.len() {
                assert(sections@[i] == body[i]);
            }
        }
    }
    Some(
        Ok(
            Layout {
                sections,
                cluster_offsets,
                total_size,
                cues_offset,
                seekhead_offset,
                cluster_timestamps: times,
            },
        ),
    )
}

/// No part of a plan is longer than the whole.
pub proof fn lemma_plan_totals(plan: Plan)
    ensures
        total(plan.head()) <= total(plan.pieces()),
        forall|n: nat|
            n <= plan.times.len() ==> #[trigger] total(plan.before_cluster(n)) <= total(
                plan.pieces(),
            ),
        total(plan.body()) + plan.cues().len() + plan.seekhead().len() == total(plan.pieces()),
        total(plan.head()) == plan.source.mkv_skeleton.pre_tracks_blob.len() + tracks_len(
            plan.source.mkv_skeleton.track_entries,
            plan.filter,
        ) + plan.source.mkv_skeleton.post_tracks_blob.len(),
{
    reveal(Plan::pieces);
    let cues_piece = Piece { section: LayoutSection::Cues, len: plan.cues().len() };
    let seek_piece = Piece { section: LayoutSection::SeekHead, len: plan.seekhead().len() };
    lemma_total_push(plan.body(), cues_piece);
    lemma_total_push(plan.body().push(cues_piece), seek_piece);
    reveal_with_fuel(sum_len, 4);
    assert forall|n: nat| n <= plan.times.len() implies #[trigger] total(plan.before_cluster(n))
        <= total(plan.pieces()) by {
        let count = plan.times.len();
        lemma_total_concat(
            plan.head(),
            clusters_pieces(plan.models, plan.ids(), plan.times, n),
        );
        lemma_total_concat(
            plan.head(),
            clusters_pieces(plan.models, plan.ids(), plan.times, count),
        );
        lemma_clusters_total_grows(plan.models, plan.ids(), plan.times, n, count);
    }
    assert(plan.before_cluster(0) =~= plan.head());
    assert(total(plan.before_cluster(0)) <= total(plan.pieces()));
}

/// Produce a deterministic layout for the given filter.
pub fn plan_layout(
    binstruct: &BinstructFile,
    filter: &[u32],
    tracks_meta: &HashMap<u32, TrackMeta>,
    default_audio_track_id: u32,
) -> (r: Result<Layout, MuxerError>)
    requires
        metas_wf(tracks_meta@),
        plan_of(binstruct@, filter@, meta_models(tracks_meta@), default_audio_track_id) matches Ok(
            plan,
        ) ==> plan.feasible(),
    ensures
        match plan_of(
            binstruct@,
            filter@,
            meta_models(tracks_meta@),
            default_audio_track_id,
        ) {
            Err(fault) => r matches Err(e) && e@ == fault,
            Ok(plan) => r matches Ok(l) && follows(l, plan),
        },
{
    match try_plan_layout(binstruct, filter, tracks_meta, default_audio_track_id) {
        Some(r) => r,
        None => Err(MuxerError::Shutdown),
    }
}

} // verus!
