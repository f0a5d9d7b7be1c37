//! What holds of every plan for a virtual file.
use crate::ids::ascending_is_sorted_set;
use crate::muxer::coordinator::{
    lemma_decided, lemma_file_len, lemma_file_section, lemma_first_fault, lemma_section_len,
    MuxModel,
};
use crate::muxer::ebml::{
    child_from, flag_default_at, id_at_pos, lemma_child_bounds, lemma_flag_default_bounds,
    mkv_elem, vint_at_pos,
};
use crate::muxer::layout::{
    block_bytes, block_bytes_len, cbr_frame_at_is_least, default_flag, i16_be, patched,
    tracks_len, Layout, LayoutSection, TrackModel,
};
use crate::muxer::plan::{
    block_piece, cluster_pieces, clusters_pieces, end_frame, first_frame, follows,
    lemma_sum_len_grows, lemma_sum_len_prefix, lemma_total_concat, lemma_total_push, sum_len,
    total, track_pieces, track_ready, tracks_pieces, Piece, Plan,
};
use crate::muxer::types::{MuxerFault, ReadPolicy};
use crate::muxer::vfr_index::{
    first_from, first_from_grows, first_from_is_least, time_at, times_ascend,
};
use crate::vfr::length_bytes;
use crate::vint::{lemma_vint_at_value, vint_width};
use vstd::arithmetic::div_mod::{lemma_div_is_ordered, lemma_fundamental_div_mod};
use vstd::prelude::*;

verus! {

/// The frames of a track that have a block among pieces, in order.
pub open spec fn frames_of(pieces: Seq<Piece>, t: u32) -> Seq<u32>
    decreases pieces.len(),
{
    if pieces.len() == 0 {
        Seq::empty()
    } else {
        let before = frames_of(pieces.drop_last(), t);
        match pieces.last().section {
            LayoutSection::SimpleBlock { cluster_index, track_id, frame_index, payload_size } => {
                if track_id == t {
                    before.push(frame_index)
                } else {
                    before
                }
            },
            _ => before,
        }
    }
}

/// The numbers from `a` up to `b`.
pub open spec fn numbers(a: u32, b: u32) -> Seq<u32> {
    Seq::new(
        if a < b {
            (b - a) as nat
        } else {
            0
        },
        |k: int| (a + k) as u32,
    )
}

/// Whether the clusters start in order.
pub open spec fn times_in_order(times: Seq<u64>) -> bool {
    forall|i: int, j: int| 0 <= i < j < times.len() ==> #[trigger] times[i] <= #[trigger] times[j]
}

/// Whether the frames of a track can be counted in 32 bits.
pub open spec fn countable(m: TrackModel) -> bool {
    m.index matches Some(x) ==> x.frames.len() <= u32::MAX
}

/// Each frame of a wanted track has exactly one block, and the blocks stand in the order
/// of the frames, where the clusters start in order.
pub proof fn each_frame_has_one_block(plan: Plan, t: u32)
    requires
        plan.feasible(),
        plan.filter.contains(t),
        plan.times.len() > 0,
        times_in_order(plan.times),
        countable(plan.models[t]),
    ensures
        frames_of(plan.pieces(), t) == numbers(0, plan.models[t].frame_count),
{
    let ids = plan.ids();
    ascending_is_sorted_set(plan.filter);
    assert(ids.contains(t));
    let n = plan.times.len();
    let k = choose|k: int| 0 <= k < ids.len() && ids[k] == t;
    assert(track_ready(plan.models[ids[k]], n));
    lemma_clusters_frames(plan.models, ids, plan.times, n, t);
    lemma_frames_of_plan(plan, t);
}

/// A track that is not wanted has no block.
pub proof fn unwanted_tracks_have_no_blocks(plan: Plan, t: u32)
    requires
        !plan.filter.contains(t),
    ensures
        frames_of(plan.pieces(), t) == Seq::<u32>::empty(),
{
    ascending_is_sorted_set(plan.filter);
    assert(!plan.ids().contains(t));
    lemma_clusters_without(plan.models, plan.ids(), plan.times, plan.times.len(), t);
    lemma_frames_of_plan(plan, t);
}

/// Whether the starts of the frames of a track are known and ascend: with one duration
/// for all, or by an index that has all its frames.
pub open spec fn frames_ascend(m: TrackModel) -> bool {
    if m.is_cbr() {
        m.frame_duration > 0 && m.frame_count * m.frame_duration <= u64::MAX
    } else {
        m.index matches Some(x) && m.frame_count <= x.frames.len() <= u32::MAX && times_ascend(
            x.frames,
            x.base,
        )
    }
}

/// The frames that have their blocks in a cluster start before the next cluster, and,
/// but for the first cluster, not before their own.
pub proof fn frames_fall_in_their_cluster(m: TrackModel, times: Seq<u64>, c: int, f: u32)
    requires
        frames_ascend(m),
        0 <= c < times.len(),
        first_frame(m, times, c) <= f < end_frame(m, times, c),
    ensures
        c > 0 ==> times[c] <= m.time_of(f),
        c + 1 < times.len() ==> m.time_of(f) < times[c + 1],
{
    if m.is_cbr() {
        let d = m.frame_duration as int;
        assert(f * d <= u64::MAX) by (nonlinear_arith)
            requires
                0 <= f <= m.frame_count,
                0 < d,
                d == m.frame_duration,
                m.frame_count * m.frame_duration <= u64::MAX,
        ;
        assert(m.time_of(f) == m.even_time(f));
        if c + 1 < times.len() {
            cbr_frame_at_is_least(m, times[c + 1]);
        }
        if c > 0 {
            cbr_frame_at_is_least(m, times[c]);
            let g = m.frame_at(times[c]);
            assert(g * d <= f * d) by (nonlinear_arith)
                requires
                    g <= f,
                    0 < d,
            ;
            assert(m.even_time(g) <= m.even_time(f));
        }
    } else {
        let x = m.index->0;
        if c + 1 < times.len() {
            first_from_is_least(x.frames, x.base, times[c + 1], 0);
        }
        if c > 0 {
            first_from_is_least(x.frames, x.base, times[c], 0);
            let g = first_from(x.frames, x.base, times[c], 0);
            assert(time_at(x.frames, x.base, g) <= time_at(x.frames, x.base, f as nat));
        }
    }
}

/// The lengths of the clusters from the first to number `n`.
pub open spec fn clusters_len(plan: Plan, n: nat) -> nat
    decreases n,
{
    if n == 0 {
        0
    } else {
        clusters_len(plan, (n - 1) as nat) + total(
            cluster_pieces(plan.models, plan.ids(), plan.times, n - 1),
        )
    }
}

/// The virtual file is as long as the blob before the tracks, the Tracks element, the
/// blob after them, the clusters, the Cues and the SeekHead together.
pub proof fn total_size_is_sum_of_parts(plan: Plan)
    ensures
        total(plan.pieces()) == plan.source.mkv_skeleton.pre_tracks_blob.len() + tracks_len(
            plan.source.mkv_skeleton.track_entries,
            plan.filter,
        ) + plan.source.mkv_skeleton.post_tracks_blob.len() + clusters_len(plan, plan.times.len())
            + plan.cues().len() + plan.seekhead().len(),
{
    reveal(Plan::pieces);
    let body = plan.body();
    let cues = Piece { section: LayoutSection::Cues, len: plan.cues().len() };
    let seek = Piece { section: LayoutSection::SeekHead, len: plan.seekhead().len() };
    lemma_total_push(body, cues);
    lemma_total_push(body.push(cues), seek);
    lemma_total_concat(
        plan.head(),
        clusters_pieces(plan.models, plan.ids(), plan.times, plan.times.len()),
    );
    reveal_with_fuel(sum_len, 4);
    lemma_clusters_len(plan, plan.times.len());
}

proof fn lemma_clusters_len(plan: Plan, n: nat)
    ensures
        total(clusters_pieces(plan.models, plan.ids(), plan.times, n)) == clusters_len(plan, n),
    decreases n,
{
    if n > 0 {
        lemma_clusters_len(plan, (n - 1) as nat);
        lemma_total_concat(
            clusters_pieces(plan.models, plan.ids(), plan.times, (n - 1) as nat),
            cluster_pieces(plan.models, plan.ids(), plan.times, n - 1),
        );
    }
}

/// Whether section `i` of a layout is `section`, and starts at `offset`.
pub open spec fn stands_at(l: Layout, i: int, section: LayoutSection, offset: u64) -> bool {
    &&& 0 <= i < l.sections@.len()
    &&& l.sections@[i].section == section
    &&& l.sections@[i].virtual_offset == offset
}

/// Whether the header of cluster `c` starts at its offset.
pub open spec fn cluster_stands(l: Layout, c: nat) -> bool {
    exists|i: int| #[trigger]
        stands_at(
            l,
            i,
            LayoutSection::ClusterHeader { cluster_index: c as u32 },
            l.cluster_offsets@[c as int],
        )
}

/// What the SeekHead and the Cues point at stands there: the Tracks element after the
/// first blob, the Cues where the layout tells, and each cluster at its offset.
pub proof fn pointers_lead_to_their_elements(l: Layout, plan: Plan)
    requires
        follows(l, plan),
    ensures
        stands_at(
            l,
            1,
            LayoutSection::TracksElement { default_track_id: plan.default_id },
            plan.source.mkv_skeleton.pre_tracks_blob.len() as u64,
        ),
        stands_at(l, l.sections@.len() - 2, LayoutSection::Cues, l.cues_offset),
        forall|c: nat| c < plan.times.len() ==> #[trigger] cluster_stands(l, c),
{
    reveal(Plan::pieces);
    let p = plan.pieces();
    let body = plan.body();
    let cues = Piece { section: LayoutSection::Cues, len: plan.cues().len() };
    reveal_with_fuel(sum_len, 2);
    lemma_sum_len_prefix(p, body, body.len());
    assert(p[1] == plan.head()[1]);
    assert(p[0] == plan.head()[0]);
    assert(sum_len(p, 1) == p[0].len);
    assert(p[p.len() - 2] == cues);
    assert forall|c: nat| c < plan.times.len() implies #[trigger] cluster_stands(l, c) by {
        let ids = plan.ids();
        let before = plan.before_cluster(c);
        let k = before.len() as int;
        lemma_clusters_prefix(plan.models, ids, plan.times, c + 1, plan.times.len());
        lemma_clusters_prefix(plan.models, ids, plan.times, c, plan.times.len());
        let all = clusters_pieces(plan.models, ids, plan.times, plan.times.len());
        let some = clusters_pieces(plan.models, ids, plan.times, c);
        let more = clusters_pieces(plan.models, ids, plan.times, c + 1);
        assert(more[some.len() as int] == all[some.len() as int]);
        assert(p[k] == all[some.len() as int]);
        assert(more[some.len() as int] == cluster_pieces(
            plan.models,
            ids,
            plan.times,
            c as int,
        )[0]);
        assert forall|j: int| 0 <= j < k implies p[j] == before[j] by {
            if j >= 3 {
                assert(some[j - 3] == all[j - 3]);
            }
        }
        lemma_sum_len_prefix(p, before, before.len());
        assert(stands_at(
            l,
            k,
            LayoutSection::ClusterHeader { cluster_index: c as u32 },
            l.cluster_offsets@[c as int],
        ));
    }
}

/// Fewer clusters are the beginning of more.
proof fn lemma_clusters_prefix(
    models: Map<u32, TrackModel>,
    ids: Seq<u32>,
    times: Seq<u64>,
    a: nat,
    b: nat,
)
    requires
        a <= b,
    ensures
        clusters_pieces(models, ids, times, a).len() <= clusters_pieces(
            models,
            ids,
            times,
            b,
        ).len(),
        forall|i: int|
            0 <= i < clusters_pieces(models, ids, times, a).len() ==> #[trigger] clusters_pieces(
                models,
                ids,
                times,
                a,
            )[i] == clusters_pieces(models, ids, times, b)[i],
    decreases b,
{
    if a < b {
        lemma_clusters_prefix(models, ids, times, a, (b - 1) as nat);
    }
}

proof fn lemma_frames_concat(a: Seq<Piece>, b: Seq<Piece>, t: u32)
    ensures
        frames_of(a + b, t) == frames_of(a, t) + frames_of(b, t),
    decreases b.len(),
{
    if b.len() == 0 {
        assert(a + b =~= a);
        assert(frames_of(a, t) + frames_of(b, t) =~= frames_of(a, t));
    } else {
        lemma_frames_concat(a, b.drop_last(), t);
        assert((a + b).drop_last() =~= a + b.drop_last());
        assert((a + b).last() == b.last());
        assert(frames_of(a + b, t) =~= frames_of(a, t) + frames_of(b, t));
    }
}

/// Only the clusters of a plan hold blocks.
proof fn lemma_frames_of_plan(plan: Plan, t: u32)
    ensures
        frames_of(plan.pieces(), t) == frames_of(
            clusters_pieces(plan.models, plan.ids(), plan.times, plan.times.len()),
            t,
        ),
{
    reveal(Plan::pieces);
    let body = plan.body();
    let cues = Piece { section: LayoutSection::Cues, len: plan.cues().len() };
    let seek = Piece { section: LayoutSection::SeekHead, len: plan.seekhead().len() };
    assert(body.push(cues).push(seek).drop_last() =~= body.push(cues));
    assert(body.push(cues).drop_last() =~= body);
    let clusters = clusters_pieces(plan.models, plan.ids(), plan.times, plan.times.len());
    lemma_frames_concat(plan.head(), clusters, t);
    reveal_with_fuel(frames_of, 4);
    assert(frames_of(plan.head(), t) =~= Seq::<u32>::empty());
    assert(Seq::<u32>::empty() + frames_of(clusters, t) =~= frames_of(clusters, t));
}

proof fn lemma_track_frames(m: TrackModel, id: u32, c: int, start: u32, end: u32, t: u32)
    ensures
        frames_of(track_pieces(m, id, c, start, end), t) == if id == t {
            numbers(start, end)
        } else {
            Seq::<u32>::empty()
        },
    decreases end,
{
    let all = track_pieces(m, id, c, start, end);
    if start < end {
        let e = (end - 1) as u32;
        lemma_track_frames(m, id, c, start, e, t);
        assert(all.drop_last() =~= track_pieces(m, id, c, start, e));
        assert(all.last() == block_piece(m, id, c, e));
        if id == t {
            assert(numbers(start, end) =~= numbers(start, e).push(e));
        }
    } else {
        assert(numbers(start, end) =~= Seq::<u32>::empty());
    }
}

/// A cluster holds no block of a track that is not among the first `n` tracks.
proof fn lemma_tracks_without(
    models: Map<u32, TrackModel>,
    ids: Seq<u32>,
    times: Seq<u64>,
    c: int,
    n: nat,
    t: u32,
)
    requires
        n <= ids.len(),
        forall|k: int| 0 <= k < n ==> #[trigger] ids[k] != t,
    ensures
        frames_of(tracks_pieces(models, ids, times, c, n), t) == Seq::<u32>::empty(),
    decreases n,
{
    if n > 0 {
        let id = ids[n - 1];
        let m = models[id];
        lemma_tracks_without(models, ids, times, c, (n - 1) as nat, t);
        lemma_track_frames(m, id, c, first_frame(m, times, c), end_frame(m, times, c), t);
        lemma_frames_concat(
            tracks_pieces(models, ids, times, c, (n - 1) as nat),
            track_pieces(m, id, c, first_frame(m, times, c), end_frame(m, times, c)),
            t,
        );
        assert(frames_of(tracks_pieces(models, ids, times, c, n), t) =~= Seq::<u32>::empty());
    }
}

proof fn lemma_clusters_without(
    models: Map<u32, TrackModel>,
    ids: Seq<u32>,
    times: Seq<u64>,
    n: nat,
    t: u32,
)
    requires
        !ids.contains(t),
    ensures
        frames_of(clusters_pieces(models, ids, times, n), t) == Seq::<u32>::empty(),
    decreases n,
{
    if n > 0 {
        lemma_clusters_without(models, ids, times, (n - 1) as nat, t);
        lemma_tracks_without(models, ids, times, n - 1, ids.len(), t);
        lemma_cluster_frames(models, ids, times, n - 1, t);
        lemma_frames_concat(
            clusters_pieces(models, ids, times, (n - 1) as nat),
            cluster_pieces(models, ids, times, n - 1),
            t,
        );
        assert(frames_of(clusters_pieces(models, ids, times, n), t) =~= Seq::<u32>::empty());
    }
}

/// The header of a cluster is no block.
proof fn lemma_cluster_frames(
    models: Map<u32, TrackModel>,
    ids: Seq<u32>,
    times: Seq<u64>,
    c: int,
    t: u32,
)
    ensures
        frames_of(cluster_pieces(models, ids, times, c), t) == frames_of(
            tracks_pieces(models, ids, times, c, ids.len()),
            t,
        ),
{
    let head = seq![
        Piece { section: LayoutSection::ClusterHeader { cluster_index: c as u32 }, len: 22 },
    ];
    let rest = tracks_pieces(models, ids, times, c, ids.len());
    lemma_frames_concat(head, rest, t);
    reveal_with_fuel(frames_of, 2);
    assert(head.drop_last() =~= Seq::<Piece>::empty());
    assert(frames_of(head, t) =~= Seq::<u32>::empty());
    assert(Seq::<u32>::empty() + frames_of(rest, t) =~= frames_of(rest, t));
}

/// What one cluster holds of a wanted track.
proof fn lemma_tracks_frames(
    models: Map<u32, TrackModel>,
    ids: Seq<u32>,
    times: Seq<u64>,
    c: int,
    n: nat,
    k: int,
)
    requires
        0 <= k < n <= ids.len(),
        forall|i: int, j: int| 0 <= i < j < ids.len() ==> #[trigger] ids[i] < #[trigger] ids[j],
    ensures
        frames_of(tracks_pieces(models, ids, times, c, n), ids[k]) == numbers(
            first_frame(models[ids[k]], times, c),
            end_frame(models[ids[k]], times, c),
        ),
    decreases n,
{
    let t = ids[k];
    let id = ids[n - 1];
    let m = models[id];
    let before = tracks_pieces(models, ids, times, c, (n - 1) as nat);
    let here = track_pieces(m, id, c, first_frame(m, times, c), end_frame(m, times, c));
    lemma_track_frames(m, id, c, first_frame(m, times, c), end_frame(m, times, c), t);
    lemma_frames_concat(before, here, t);
    if k == n - 1 {
        lemma_tracks_without(models, ids, times, c, (n - 1) as nat, t);
        assert(Seq::<u32>::empty() + frames_of(here, t) =~= frames_of(here, t));
    } else {
        lemma_tracks_frames(models, ids, times, c, (n - 1) as nat, k);
        assert(frames_of(before, t) + Seq::<u32>::empty() =~= frames_of(before, t));
    }
}

/// The first frame at or after a time comes no later than that for a later time.
proof fn lemma_frame_at_grows(m: TrackModel, a: u64, b: u64)
    requires
        a <= b,
        countable(m),
        m.is_cbr() || m.index is Some,
    ensures
        m.frame_at(a) <= m.frame_at(b) <= m.frame_count,
{
    if m.is_cbr() {
        let d = m.frame_duration as int;
        if d > 0 {
            lemma_div_is_ordered(a as int, b as int, d);
            lemma_fundamental_div_mod(a as int, d);
            lemma_fundamental_div_mod(b as int, d);
            if a as int / d == b as int / d && b as int % d == 0 {
                assert(a % m.frame_duration == 0);
            }
        }
    } else {
        let x = m.index->0;
        first_from_grows(x.frames, x.base, a, b);
        first_from_is_least(x.frames, x.base, a, 0);
        first_from_is_least(x.frames, x.base, b, 0);
    }
}

/// What the first `n` clusters hold of a wanted track.
proof fn lemma_clusters_frames(
    models: Map<u32, TrackModel>,
    ids: Seq<u32>,
    times: Seq<u64>,
    n: nat,
    t: u32,
)
    requires
        n <= times.len(),
        ids.contains(t),
        forall|i: int, j: int| 0 <= i < j < ids.len() ==> #[trigger] ids[i] < #[trigger] ids[j],
        times_in_order(times),
        countable(models[t]),
        track_ready(models[t], times.len()),
    ensures
        frames_of(clusters_pieces(models, ids, times, n), t) == numbers(
            0,
            if n == 0 {
                0
            } else {
                end_frame(models[t], times, n - 1)
            },
        ),
    decreases n,
{
    if n == 0 {
        assert(frames_of(clusters_pieces(models, ids, times, 0), t) =~= numbers(0, 0));
    } else {
        let m = models[t];
        let k = choose|k: int| 0 <= k < ids.len() && ids[k] == t;
        lemma_clusters_frames(models, ids, times, (n - 1) as nat, t);
        lemma_tracks_frames(models, ids, times, n - 1, ids.len(), k);
        lemma_cluster_frames(models, ids, times, n - 1, t);
        lemma_frames_concat(
            clusters_pieces(models, ids, times, (n - 1) as nat),
            cluster_pieces(models, ids, times, n - 1),
            t,
        );
        let start = first_frame(m, times, n - 1);
        let end = end_frame(m, times, n - 1);
        if n >= 2 {
            if n < times.len() {
                lemma_frame_at_grows(m, times[n - 1], times[n as int]);
            } else {
                lemma_frame_at_grows(m, times[n - 1], times[n - 1]);
            }
        }
        assert(start <= end);
        assert(numbers(0, start) + numbers(start, end) =~= numbers(0, end));
    }
}

/// A VINT that ends before a changed byte reads the same.
proof fn lemma_vint_before(blob: Seq<u8>, pos: int, at: int, value: u8)
    requires
        0 <= pos,
        0 <= at < blob.len(),
        vint_at_pos(blob, pos) matches Ok(p) && pos + p.1 <= at,
    ensures
        vint_at_pos(blob.update(at, value), pos) == vint_at_pos(blob, pos),
{
    let a = blob.skip(pos);
    let b = blob.update(at, value).skip(pos);
    let n = vint_width(a[0]);
    lemma_vint_at_value(a);
    assert(a[0] == blob[pos]);
    assert(b[0] == blob[pos]);
    assert(a.take(n as int) =~= b.take(n as int));
}

/// A child is found again after a change of its first byte.
proof fn lemma_child_after_patch(blob: Seq<u8>, id: Seq<u8>, pos: int, value: u8)
    requires
        0 <= pos,
        child_from(blob, id, pos) matches Ok(Some(p)) && p.1 >= 1,
    ensures
        ({
            let p = child_from(blob, id, pos)->Ok_0->0;
            child_from(blob.update(p.0, value), id, pos) == child_from(blob, id, pos)
        }),
    decreases blob.len() - pos,
{
    let p = child_from(blob, id, pos)->Ok_0->0;
    lemma_child_bounds(blob, id, pos);
    let idn = id_at_pos(blob, pos)->Ok_0;
    let (size, sn) = vint_at_pos(blob, pos + idn)->Ok_0;
    lemma_vint_at_value(blob.skip(pos + idn));
    let start = pos + idn + sn;
    let new = blob.update(p.0, value);
    if blob.subrange(pos, pos + idn) == id {
        assert(p.0 == start);
    } else {
        lemma_child_bounds(blob, id, start + size);
        lemma_child_after_patch(blob, id, start + size, value);
        assert(p.0 >= start);
    }
    lemma_vint_before(blob, pos + idn, p.0, value);
    assert(new[pos] == blob[pos]);
    assert(new.subrange(pos, pos + idn) =~= blob.subrange(pos, pos + idn));
}

/// The FlagDefault of a patched track entry is found where it was, with the value that
/// was asked for: 1 for the default track, 0 for every other.
pub proof fn patched_flag_reads_back(bytes: Seq<u8>, track_id: u64, default_id: u32)
    requires
        flag_default_at(bytes) matches Ok(Some(_)),
    ensures
        patched(bytes, default_flag(track_id, default_id)) matches Ok(out) && flag_default_at(out)
            == flag_default_at(bytes) && out[flag_default_at(bytes)->Ok_0->0] == (if track_id as u32
            == default_id {
            1u8
        } else {
            0u8
        }),
{
    let value = default_flag(track_id, default_id);
    let off = flag_default_at(bytes)->Ok_0->0;
    let out = bytes.update(off, value);
    lemma_flag_default_bounds(bytes);
    let head: int = if bytes[0] == 0xAE {
        1 + vint_at_pos(bytes, 1)->Ok_0.1
    } else {
        0
    };
    if bytes[0] == 0xAE {
        lemma_vint_at_value(bytes.skip(1));
    }
    let body = bytes.skip(head);
    let id = seq![0x88u8];
    lemma_child_bounds(body, id, 0);
    lemma_child_after_patch(body, id, 0, value);
    assert(out.skip(head) =~= body.update(off - head, value));
    if bytes[0] == 0xAE {
        lemma_vint_before(bytes, 1, off, value);
    }
    assert(out[0] == bytes[0]);
}

/// The section in which a place of the file lies.
pub open spec fn lies_in(pieces: Seq<Piece>, at: int, i: int) -> bool {
    0 <= i < pieces.len() && sum_len(pieces, i as nat) <= at < sum_len(pieces, (i + 1) as nat)
}

proof fn lemma_lies_in(pieces: Seq<Piece>, at: int, n: nat)
    requires
        n <= pieces.len(),
        0 <= at < sum_len(pieces, n),
    ensures
        exists|i: int| 0 <= i < n && #[trigger] lies_in(pieces, at, i),
    decreases n,
{
    if at < sum_len(pieces, (n - 1) as nat) {
        lemma_lies_in(pieces, at, (n - 1) as nat);
        let i = choose|i: int| 0 <= i < n - 1 && #[trigger] lies_in(pieces, at, i);
        assert(0 <= i < n && lies_in(pieces, at, i));
    } else {
        assert(lies_in(pieces, at, n - 1));
    }
}

/// What is read where it is decided which blocks are there is that part of the file.
proof fn lemma_decided_read(mm: MuxModel, offset: u64, len: u32, out: Seq<u8>)
    requires
        mm.wf(),
        mm.decided(),
        offset < total(mm.plan.pieces()),
        out.len() == mm.read_end(offset, len) - offset,
        mm.assembled(offset as int, out),
    ensures
        mm.read_of(offset, len) == Ok::<Seq<u8>, MuxerFault>(out),
{
    let p = mm.plan.pieces();
    let from = offset as int;
    let to = mm.read_end(offset, len);
    lemma_file_len(mm, p.len());
    assert forall|i: int|
        0 <= i < p.len() && #[trigger] mm.touched(i, from, to) implies mm.section_now(
        p[i].section,
    ) is Ok by {
        assert(mm.touched(i, from, from + out.len()));
        assert(mm.part_allowed(i, from, out));
        let bytes = choose|bytes: Seq<u8>| #[trigger]
            mm.allows(p[i].section, bytes) && bytes.len() == p[i].len && forall|k: int|
                0 <= k < p[i].len && from <= sum_len(p, i as nat) + k < from + out.len()
                    ==> #[trigger] bytes[k] == out[sum_len(p, i as nat) + k - from];
        lemma_decided(mm, p[i].section, bytes);
    }
    lemma_first_fault(mm, 0, p.len(), from, to);
    assert forall|k: int| 0 <= k < out.len() implies out[k] == mm.file()[from + k] by {
        lemma_lies_in(p, from + k, p.len());
        let i = choose|i: int| 0 <= i < p.len() && #[trigger] lies_in(p, from + k, i);
        let start = sum_len(p, i as nat) as int;
        assert(mm.touched(i, from, to));
        assert(mm.touched(i, from, from + out.len()));
        assert(mm.part_allowed(i, from, out));
        let bytes = choose|bytes: Seq<u8>| #[trigger]
            mm.allows(p[i].section, bytes) && bytes.len() == p[i].len && forall|j: int|
                0 <= j < p[i].len && from <= start + j < from + out.len() ==> #[trigger] bytes[j]
                    == out[start + j - from];
        lemma_decided(mm, p[i].section, bytes);
        assert(sum_len(p, (i + 1) as nat) == start + p[i].len);
        let j = from + k - start;
        assert(bytes[j] == out[start + j - from]);
        lemma_file_section(mm, i, j);
    }
    assert(out =~= mm.file().subrange(from, to));
}

/// A reader that blocks never gives zeros for missing bytes: no block is missing to it, and
/// what it reads is that part of the whole file.
pub proof fn blocking_reads_are_whole(mm: MuxModel, offset: u64, len: u32, out: Seq<u8>)
    requires
        mm.wf(),
        mm.policy == ReadPolicy::Block,
        offset < total(mm.plan.pieces()),
        out.len() == mm.read_end(offset, len) - offset,
        mm.assembled(offset as int, out),
    ensures
        mm.complete(),
        forall|s: LayoutSection| #[trigger] mm.section_now(s) == mm.section_bytes(s),
        mm.read_of(offset, len) == Ok::<Seq<u8>, MuxerFault>(out),
{
    lemma_decided_read(mm, offset, len, out);
}

/// The payload of a block begins after this many of its bytes.
pub open spec fn payload_start(p: Piece) -> int {
    match p.section {
        LayoutSection::SimpleBlock { cluster_index, track_id, frame_index, payload_size } => p.len
            - payload_size,
        _ => p.len as int,
    }
}

/// Whether byte `k` of a section is one of the payload of a block whose raw bytes are
/// missing.
pub open spec fn is_padding(mm: MuxModel, p: Piece, k: int) -> bool {
    mm.is_lacking(p.section) && payload_start(p) <= k
}

/// Whether the byte at place `at` of the file is such a byte.
pub open spec fn padding_at(mm: MuxModel, at: int) -> bool {
    exists|i: int| #[trigger]
        lies_in(mm.plan.pieces(), at, i) && is_padding(
            mm,
            mm.plan.pieces()[i],
            at - sum_len(mm.plan.pieces(), i as nat),
        )
}

/// Where one reader has all blocks and reads without an error, another that differs in what
/// is missing to it reads as many bytes: zeros in the whole payload of each block whose own
/// raw bytes are missing, and the same bytes everywhere else.
pub proof fn only_missing_frames_are_zeros(a: MuxModel, b: MuxModel, offset: u64, len: u32)
    requires
        a.wf(),
        a.complete(),
        b.plan == a.plan,
        b.raws == a.raws,
        a.read_of(offset, len) is Ok,
    ensures
        b.read_of(offset, len) is Ok,
        ({
            let x = a.read_of(offset, len)->Ok_0;
            let y = b.read_of(offset, len)->Ok_0;
            &&& y.len() == x.len()
            &&& forall|k: int|
                0 <= k < x.len() ==> #[trigger] y[k] == (if padding_at(b, offset + k) {
                    0u8
                } else {
                    x[k]
                })
        }),
{
    let p = a.plan.pieces();
    if offset < total(p) {
        let from = offset as int;
        let to = a.read_end(offset, len);
        lemma_file_len(a, p.len());
        lemma_file_len(b, p.len());
        lemma_no_fault(a, 0, from, to);
        assert forall|i: int|
            0 <= i < p.len() && #[trigger] b.touched(i, from, to) implies b.section_now(
            p[i].section,
        ) is Ok by {
            assert(a.touched(i, from, to));
            lemma_padded(a, b, i);
        }
        lemma_first_fault(b, 0, p.len(), from, to);
        let x = a.read_of(offset, len)->Ok_0;
        let y = b.read_of(offset, len)->Ok_0;
        assert forall|k: int| 0 <= k < x.len() implies #[trigger] y[k] == (if padding_at(
            b,
            offset + k,
        ) {
            0u8
        } else {
            x[k]
        }) by {
            lemma_lies_in(p, from + k, p.len());
            let i = choose|i: int| 0 <= i < p.len() && #[trigger] lies_in(p, from + k, i);
            let start = sum_len(p, i as nat) as int;
            assert(sum_len(p, (i + 1) as nat) == start + p[i].len);
            assert(a.touched(i, from, to));
            lemma_padded(a, b, i);
            lemma_file_section(a, i, from + k - start);
            lemma_file_section(b, i, from + k - start);
            if padding_at(b, offset + k) {
                let j = choose|j: int| #[trigger]
                    lies_in(p, from + k, j) && is_padding(
                        b,
                        p[j],
                        from + k - sum_len(p, j as nat),
                    );
                lemma_one_section(p, from + k, i, j);
            } else {
                assert(lies_in(p, from + k, i));
                assert(!is_padding(b, p[i], from + k - start));
            }
        }
    }
}

/// A place lies in one section.
proof fn lemma_one_section(pieces: Seq<Piece>, at: int, i: int, j: int)
    requires
        lies_in(pieces, at, i),
        lies_in(pieces, at, j),
    ensures
        i == j,
{
    if i < j {
        lemma_sum_len_grows(pieces, (i + 1) as nat, j as nat);
    } else if j < i {
        lemma_sum_len_grows(pieces, (j + 1) as nat, i as nat);
    }
}

/// A range without a fault touches no section that cannot be built.
proof fn lemma_no_fault(mm: MuxModel, i: nat, from: int, to: int)
    requires
        mm.first_fault(i, from, to) is None,
    ensures
        forall|k: int|
            i <= k < mm.plan.pieces().len() && #[trigger] mm.touched(k, from, to)
                ==> mm.section_now(mm.plan.pieces()[k].section) is Ok,
    decreases mm.plan.pieces().len() - i,
{
    if i < mm.plan.pieces().len() {
        lemma_no_fault(mm, i + 1, from, to);
    }
}

/// A section as two readers have it, the first with all blocks.
proof fn lemma_padded(a: MuxModel, b: MuxModel, i: int)
    requires
        a.wf(),
        a.complete(),
        b.plan == a.plan,
        b.raws == a.raws,
        0 <= i < a.plan.pieces().len(),
        a.section_now(a.plan.pieces()[i].section) is Ok,
    ensures
        b.section_now(a.plan.pieces()[i].section) is Ok,
        ({
            let p = a.plan.pieces()[i];
            let x = a.section_now(p.section)->Ok_0;
            let y = b.section_now(p.section)->Ok_0;
            &&& x.len() == p.len
            &&& y.len() == p.len
            &&& forall|k: int|
                0 <= k < p.len ==> #[trigger] y[k] == (if is_padding(b, p, k) {
                    0u8
                } else {
                    x[k]
                })
        }),
{
    let p = a.plan.pieces()[i];
    assert(!a.is_lacking(p.section));
    lemma_section_len(a, i);
    lemma_section_len(b, i);
    reveal(MuxModel::section_bytes);
    reveal(MuxModel::padded_block);
    assert(b.section_bytes(p.section) == a.section_bytes(p.section));
    if b.is_lacking(p.section) {
        match p.section {
            LayoutSection::SimpleBlock { cluster_index, track_id, frame_index, payload_size } => {
                let payload = a.payload(track_id, frame_index)->Ok_0;
                let zeros = Seq::new(payload_size as nat, |i: int| 0u8);
                assert(payload.len() == payload_size);
                lemma_block_payload(
                    a.plan.models[track_id].track_number,
                    a.relative_time(cluster_index, track_id, frame_index),
                    a.keyframe(track_id, frame_index),
                    payload,
                    zeros,
                );
            },
            _ => {},
        }
    }
}

/// Blocks with payloads of one length differ in the payload alone, which stands at the end.
proof fn lemma_block_payload(
    track_number: u64,
    relative: int,
    keyframe: bool,
    one: Seq<u8>,
    two: Seq<u8>,
)
    requires
        one.len() == two.len(),
    ensures
        ({
            let x = block_bytes(track_number, relative, keyframe, one);
            let y = block_bytes(track_number, relative, keyframe, two);
            &&& x.len() == y.len()
            &&& x.len() >= one.len()
            &&& forall|k: int| 0 <= k < x.len() - one.len() ==> #[trigger] y[k] == x[k]
            &&& forall|k: int|
                x.len() - one.len() <= k < x.len() ==> #[trigger] y[k] == two[k - (x.len()
                    - one.len())]
        }),
{
    reveal(mkv_elem);
    block_bytes_len(track_number, relative, keyframe, one);
    block_bytes_len(track_number, relative, keyframe, two);
    let head = length_bytes(track_number) + i16_be(relative) + seq![
        if keyframe {
            0x80u8
        } else {
            0x00u8
        },
    ];
    assert((head + one).len() == (head + two).len());
    let size = length_bytes((head + one).len() as u64);
    assert(block_bytes(track_number, relative, keyframe, one) =~= seq![0xA3u8] + size + head
        + one);
    assert(block_bytes(track_number, relative, keyframe, two) =~= seq![0xA3u8] + size + head
        + two);
}

} // verus!
