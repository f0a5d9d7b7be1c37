//! What a reader is made of and what it gives: tracks as their policies tell, clusters with
//! their own blocks, and reads of the whole file.
use crate::binstruct::{BinstructModel, CodecType};
use crate::bytes::be_value;
use crate::ids::{ascending_is_sorted_set, is_ascending};
use crate::muxer::coordinator::{
    first_without_policy, lacks_index, lemma_file_len, lemma_file_section, mux_plan, number_of,
    track_model, MuxModel,
};
use crate::muxer::ebml::track_number_of;
use crate::muxer::layout::{
    cluster_header, entry_ids, id_index, lemma_cluster_header_len, policy_ids, LayoutSection,
    TrackModel,
};
use crate::muxer::materializer::frame_place;
use crate::muxer::plan::{
    cluster_pieces, clusters_pieces, sum_len, total, tracks_pieces, Piece, Plan,
};
use crate::muxer::read_back::cluster_header_tells_its_time;
use crate::muxer::types::{MuxerFault, ReadPolicy, TrackSource};
use vstd::prelude::*;

verus! {

/// Whether number `k` is the first of ids that is `track_id` in 32 bits.
pub open spec fn is_first_id(ids: Seq<u64>, track_id: u32, k: int) -> bool {
    &&& 0 <= k < ids.len()
    &&& ids[k] as u32 == track_id
    &&& forall|j: int| 0 <= j < k ==> (#[trigger] ids[j]) as u32 != track_id
}

proof fn lemma_first_id(ids: Seq<u64>, track_id: u32, from: nat)
    requires
        forall|j: int| 0 <= j < from ==> (#[trigger] ids[j]) as u32 != track_id,
    ensures
        match id_index(ids, track_id, from) {
            Some(k) => is_first_id(ids, track_id, k as int),
            None => forall|j: int| 0 <= j < ids.len() ==> (#[trigger] ids[j]) as u32 != track_id,
        },
    decreases ids.len() - from,
{
    if from < ids.len() && ids[from as int] as u32 != track_id {
        lemma_first_id(ids, track_id, from + 1);
    }
}

proof fn lemma_is_index(ids: Seq<u64>, track_id: u32, k: int)
    requires
        is_first_id(ids, track_id, k),
    ensures
        id_index(ids, track_id, 0) == Some(k as nat),
{
    lemma_first_id(ids, track_id, 0);
    if let Some(j) = id_index(ids, track_id, 0) {
        if j < k {
            assert(ids[j as int] as u32 != track_id);
        } else if k < j {
            assert(ids[k] as u32 != track_id);
        }
    } else {
        assert(ids[k] as u32 != track_id);
    }
}

/// A reader knows of a track what its first policy tells, and of its frames what its index
/// tells, with the duration of the policy for the basis of their times.
pub proof fn readers_go_by_the_policies(
    b: BinstructModel,
    sources: Map<u32, TrackSource>,
    t: u32,
    k: int,
)
    requires
        is_first_id(policy_ids(b.track_policies), t, k),
    ensures
        ({
            let p = b.track_policies[k];
            let m = track_model(b, sources, t);
            &&& m.codec_type == p.codec_type
            &&& p.frame_count <= u32::MAX ==> m.frame_count == p.frame_count
            &&& m.frame_duration == p.frame_duration
            &&& p.cbr_frame_size matches Some(c) ==> c <= u32::MAX ==> m.cbr_frame_size == Some(
                c as u32,
            )
            &&& p.cbr_frame_size is None ==> m.cbr_frame_size is None
            &&& match m.index {
                Some(x) => sources.contains_key(t) && (sources[t].vfr matches Some(v) && x.frames
                    == v.frames@ && x.nal_lengths == v.nal_lengths@) && x.base == p.frame_duration,
                None => !sources.contains_key(t) || sources[t].vfr is None,
            }
            &&& lacks_index(b, sources, t) <==> (p.codec_type == CodecType::Video
                || p.cbr_frame_size is None) && (!sources.contains_key(t) || sources[t].vfr is None)
        }),
{
    lemma_is_index(policy_ids(b.track_policies), t, k);
}

/// The number of a track in its blocks is the one in its first entry; its own id where no
/// entry tells one.
pub proof fn blocks_use_the_number_of_the_entry(b: BinstructModel, t: u32, k: int)
    ensures
        is_first_id(entry_ids(b.mkv_skeleton.track_entries), t, k) ==> number_of(b, t) == match
        track_number_of(b.mkv_skeleton.track_entries[k].bytes) {
            Ok(Some(v)) => v,
            _ => t as u64,
        },
        (forall|j: int|
            0 <= j < b.mkv_skeleton.track_entries.len() ==> (
            #[trigger] b.mkv_skeleton.track_entries[j]).track_id as u32 != t) ==> number_of(b, t)
            == t,
{
    let ids = entry_ids(b.mkv_skeleton.track_entries);
    if is_first_id(ids, t, k) {
        lemma_is_index(ids, t, k);
    }
    lemma_first_id(ids, t, 0);
    if forall|j: int|
        0 <= j < b.mkv_skeleton.track_entries.len() ==> (
        #[trigger] b.mkv_skeleton.track_entries[j]).track_id as u32 != t {
        if let Some(i) = id_index(ids, t, 0) {
            assert(b.mkv_skeleton.track_entries[i as int].track_id as u32 != t);
        }
    }
}

/// A wanted track without a policy is an error, that of the first one.
pub proof fn tracks_without_a_policy_are_refused(
    b: BinstructModel,
    sources: Map<u32, TrackSource>,
    filter: Seq<u32>,
    default_id: u32,
    i: int,
)
    requires
        0 <= i < filter.len(),
        forall|k: int|
            0 <= k < b.track_policies.len() ==> (#[trigger] b.track_policies[k]).track_id as u32
                != filter[i],
        forall|j: int|
            0 <= j < i ==> exists|k: int|
                0 <= k < b.track_policies.len() && (#[trigger] b.track_policies[k]).track_id as u32
                    == #[trigger] filter[j],
    ensures
        mux_plan(b, sources, filter, default_id) == Err::<Plan, MuxerFault>(
            MuxerFault::MissingTrack(filter[i]),
        ),
{
    lemma_first_without(b, filter, 0, i);
}

proof fn lemma_first_without(b: BinstructModel, filter: Seq<u32>, from: nat, i: int)
    requires
        from <= i < filter.len(),
        forall|k: int|
            0 <= k < b.track_policies.len() ==> (#[trigger] b.track_policies[k]).track_id as u32
                != filter[i],
        forall|j: int|
            0 <= j < i ==> exists|k: int|
                0 <= k < b.track_policies.len() && (#[trigger] b.track_policies[k]).track_id as u32
                    == #[trigger] filter[j],
    ensures
        first_without_policy(b, filter, from) == Some(filter[i]),
    decreases i - from,
{
    let ids = policy_ids(b.track_policies);
    lemma_first_id(ids, filter[from as int], 0);
    if from < i {
        let t = filter[from as int];
        let k = choose|k: int|
            0 <= k < b.track_policies.len() && (#[trigger] b.track_policies[k]).track_id as u32
                == t;
        assert(ids[k] as u32 == t);
        assert(id_index(ids, t, 0) is Some);
        lemma_first_without(b, filter, from + 1, i);
    } else {
        if let Some(k) = id_index(ids, filter[i], 0) {
            assert(b.track_policies[k as int].track_id as u32 != filter[i]);
        }
    }
}

/// Whether a piece is a block of a cluster.
pub open spec fn is_block_of(p: Piece, c: int) -> bool {
    p.section matches LayoutSection::SimpleBlock {
        cluster_index,
        track_id,
        frame_index,
        payload_size,
    } && cluster_index == c as u32
}

/// A cluster is its own header, and behind it its own blocks and nothing else.
pub proof fn clusters_hold_their_own_blocks(plan: Plan, c: int, i: int)
    requires
        0 <= c < plan.times.len(),
    ensures
        ({
            let pieces = cluster_pieces(plan.models, plan.ids(), plan.times, c);
            &&& pieces.len() > 0
            &&& pieces[0].section == LayoutSection::ClusterHeader { cluster_index: c as u32 }
            &&& pieces[0].len == cluster_header(plan.times[c]).len()
            &&& 0 < i < pieces.len() ==> is_block_of(pieces[i], c)
        }),
{
    lemma_cluster_header_len(plan.times[c]);
    let pieces = cluster_pieces(plan.models, plan.ids(), plan.times, c);
    if 0 < i < pieces.len() {
        lemma_blocks(plan.models, plan.ids(), plan.times, c, plan.ids().len(), i - 1);
    }
}

proof fn lemma_blocks(
    models: Map<u32, TrackModel>,
    ids: Seq<u32>,
    times: Seq<u64>,
    c: int,
    n: nat,
    i: int,
)
    requires
        n <= ids.len(),
        0 <= i < tracks_pieces(models, ids, times, c, n).len(),
    ensures
        is_block_of(tracks_pieces(models, ids, times, c, n)[i], c),
    decreases n,
{
    let before = tracks_pieces(models, ids, times, c, (n - 1) as nat);
    if i < before.len() {
        lemma_blocks(models, ids, times, c, (n - 1) as nat, i);
    }
}

/// The clusters follow each other: those up to a number, and then that cluster.
pub proof fn clusters_follow_each_other(plan: Plan, n: nat)
    ensures
        clusters_pieces(plan.models, plan.ids(), plan.times, 0).len() == 0,
        clusters_pieces(plan.models, plan.ids(), plan.times, n + 1) == clusters_pieces(
            plan.models,
            plan.ids(),
            plan.times,
            n,
        ) + cluster_pieces(plan.models, plan.ids(), plan.times, n as int),
{
}

/// A read that succeeds gives the bytes of the file from the offset on: as many as asked for,
/// or as are left.
pub proof fn reads_give_the_bytes_of_the_file(mm: MuxModel, offset: u64, len: u32, k: int)
    requires
        mm.wf(),
    ensures
        mm.file().len() == total(mm.plan.pieces()),
        mm.read_of(offset, len) matches Ok(out) ==> {
            let left = mm.file().len() - offset;
            &&& out.len() == if left <= 0 {
                0
            } else if left < len {
                left
            } else {
                len as int
            }
            &&& 0 <= k < out.len() ==> out[k] == mm.file()[offset + k]
        },
{
    lemma_file_len(mm, mm.plan.pieces().len());
}

/// The header of a cluster in the file tells the time that was planned for the cluster.
pub proof fn file_tells_the_cluster_times(mm: MuxModel, i: int, c: u32)
    requires
        mm.wf(),
        0 <= i < mm.plan.pieces().len(),
        mm.plan.pieces()[i].section == (LayoutSection::ClusterHeader { cluster_index: c }),
        mm.plan.pieces()[i].len == 22,
    ensures
        ({
            let at = sum_len(mm.plan.pieces(), i as nat) as int;
            &&& at + 22 <= mm.file().len()
            &&& be_value(mm.file().subrange(at + 14, at + 22)) == mm.plan.times[c as int]
        }),
{
    reveal(MuxModel::section_bytes);
    reveal(MuxModel::padded_block);
    let s = mm.plan.pieces()[i].section;
    let at = sum_len(mm.plan.pieces(), i as nat) as int;
    let h = cluster_header(mm.plan.times[c as int]);
    assert(mm.section_now(s) == Ok::<Seq<u8>, MuxerFault>(h));
    cluster_header_tells_its_time(mm.plan.times[c as int]);
    lemma_file_section(mm, i, 21);
    assert forall|k: int| 0 <= k < 22 implies #[trigger] mm.file()[at + k] == h[k] by {
        lemma_file_section(mm, i, k);
    }
    assert(mm.file().subrange(at + 14, at + 22) =~= h.subrange(14, 22)) by {
        assert forall|k: int| 0 <= k < 8 implies mm.file().subrange(at + 14, at + 22)[k]
            == h.subrange(14, 22)[k] by {
            assert(mm.file()[at + (14 + k)] == h[14 + k]);
        }
    }
}

/// Whether one block comes before another: of a track with a lower id, or of an earlier frame
/// of the same track.
pub open spec fn comes_first(a: Piece, b: Piece) -> bool {
    match (a.section, b.section) {
        (
            LayoutSection::SimpleBlock {
                cluster_index: _,
                track_id: t,
                frame_index: f,
                payload_size: _,
            },
            LayoutSection::SimpleBlock {
                cluster_index: _,
                track_id: u,
                frame_index: g,
                payload_size: _,
            },
        ) => t < u || (t == u && f < g),
        _ => false,
    }
}

/// The blocks of a cluster stand in the order of their tracks, by id, and for each track in
/// that of its frames.
pub proof fn blocks_of_a_cluster_are_in_order(plan: Plan, c: int, i: int, j: int)
    requires
        0 <= c < plan.times.len(),
        0 < i < j < cluster_pieces(plan.models, plan.ids(), plan.times, c).len(),
    ensures
        ({
            let pieces = cluster_pieces(plan.models, plan.ids(), plan.times, c);
            comes_first(pieces[i], pieces[j])
        }),
{
    ascending_is_sorted_set(plan.filter);
    lemma_block_order(
        plan.models,
        plan.ids(),
        plan.times,
        c,
        plan.ids().len(),
        i - 1,
        j - 1,
    );
}

/// Whether a piece is a block of one of the first `n` tracks.
spec fn is_block_among(p: Piece, ids: Seq<u32>, n: nat) -> bool {
    p.section matches LayoutSection::SimpleBlock {
        cluster_index,
        track_id,
        frame_index,
        payload_size,
    } && exists|k: int| 0 <= k < n && #[trigger] ids[k] == track_id
}

proof fn lemma_block_among(
    models: Map<u32, TrackModel>,
    ids: Seq<u32>,
    times: Seq<u64>,
    c: int,
    n: nat,
    i: int,
)
    requires
        n <= ids.len(),
        0 <= i < tracks_pieces(models, ids, times, c, n).len(),
    ensures
        is_block_among(tracks_pieces(models, ids, times, c, n)[i], ids, n),
    decreases n,
{
    let before = tracks_pieces(models, ids, times, c, (n - 1) as nat);
    if i < before.len() {
        lemma_block_among(models, ids, times, c, (n - 1) as nat, i);
    } else {
        assert(ids[n - 1] == ids[n - 1]);
    }
}

proof fn lemma_block_order(
    models: Map<u32, TrackModel>,
    ids: Seq<u32>,
    times: Seq<u64>,
    c: int,
    n: nat,
    i: int,
    j: int,
)
    requires
        n <= ids.len(),
        is_ascending(ids),
        0 <= i < j < tracks_pieces(models, ids, times, c, n).len(),
    ensures
        comes_first(
            tracks_pieces(models, ids, times, c, n)[i],
            tracks_pieces(models, ids, times, c, n)[j],
        ),
    decreases n,
{
    let m = (n - 1) as nat;
    let before = tracks_pieces(models, ids, times, c, m);
    if j < before.len() {
        lemma_block_order(models, ids, times, c, m, i, j);
    } else if i < before.len() {
        lemma_block_among(models, ids, times, c, m, i);
        let p = before[i];
        if let LayoutSection::SimpleBlock { cluster_index, track_id, frame_index, payload_size } =
            p.section {
            let k = choose|k: int| 0 <= k < m && #[trigger] ids[k] == track_id;
            assert(ids[k] < ids[n - 1]);
        }
    }
}

/// A reader waits for the very bytes of a frame: those at its place in the raw file of its
/// track, as many as the frame has.
pub proof fn waits_are_for_the_bytes_of_the_frame(
    mm: MuxModel,
    cluster_index: u32,
    track_id: u32,
    frame_index: u32,
    payload_size: u32,
)
    requires
        mm.raws.contains_key(track_id),
    ensures
        ({
            let raw = mm.raws[track_id];
            let s = LayoutSection::SimpleBlock {
                cluster_index,
                track_id,
                frame_index,
                payload_size,
            };
            frame_place(
                raw.cbr_frame_size,
                mm.plan.models[track_id].index,
                raw.track_id,
                frame_index,
            ) matches Ok(p) ==> {
                &&& mm.range_of(s) == Some((raw.track_id, p.0, p.1))
                &&& mm.is_held(s) == (mm.waits.held)(raw.track_id, p.0, p.1)
                &&& mm.is_lacking(s) == (mm.policy != ReadPolicy::Block && (mm.waits.lacks)(
                    raw.track_id,
                    p.0,
                    p.1,
                ))
            }
        }),
{
}

} // verus!
