//! The reader of a virtual file.
use crate::binstruct::{BinstructFile, BinstructModel, CodecType, TrackPolicy};
use crate::bytes::append_bytes;
use crate::muxer::ebml::{find_track_number, track_number_of};
use crate::muxer::layout::{
    block_bytes, block_bytes_len, block_len, build_cluster_header_bytes,
    build_simple_block_bytes, build_tracks_element_bytes, cluster_header, entry_ids,
    find_track_entry, find_track_policy, id_index, lemma_cluster_header_len, policy_ids,
    tracks_element, tracks_element_len, Layout, LayoutSection, SectionEntry, TrackMeta,
    TrackModel,
};
use crate::muxer::materializer::{
    compute_offset_and_len, frame_place, index_model, materialize_frame, placeable, raw_frame,
    MaterializedFrame,
};
use crate::muxer::plan::{
    block_known, block_sound, blocks_known, build_cues_bytes, build_seekhead_bytes, entries_of,
    follows, meta_models, metas_wf, plan_of, sections_sound, sum_len, total, try_plan_layout,
    Plan,
};
use crate::muxer::transformer::{avcc, transform_avcc, transform_raw};
use crate::muxer::types::{DownloadState, MuxerError, MuxerFault, RawFile, ReadPolicy, TrackSource};
use crate::muxer::vfr_index::{indexable, is_indexable, IndexModel, LazyVfrIndex};
use crate::text::{decimal, push_decimal, push_signed_decimal, signed_decimal};
use std::collections::HashMap;
use std::sync::Arc;
use vstd::prelude::*;
use vstd::string::*;

verus! {

broadcast use vstd::std_specs::hash::group_hash_axioms;

/// What a source tells about the raw file of a track.
pub ghost struct RawModel {
    pub track_id: u32,
    pub content: Seq<u8>,
    pub reliable: bool,
    pub cbr_frame_size: Option<u64>,
}

pub open spec fn raw_model(s: TrackSource) -> RawModel {
    RawModel {
        track_id: s.track_id,
        content: s.raw_file.content(),
        reliable: s.raw_file.reliable(),
        cbr_frame_size: s.policy.cbr_frame_size,
    }
}

pub open spec fn raw_models(sources: Map<u32, TrackSource>) -> Map<u32, RawModel> {
    sources.map_values(|s: TrackSource| raw_model(s))
}

/// What waits for ranges of raw files may come to: which ranges, each of a track from an
/// offset on with a length, may be found there, which may be missed, and whether a wait
/// may be cut off.
pub ghost struct Waits {
    pub held: spec_fn(u32, u64, u32) -> bool,
    pub lacks: spec_fn(u32, u64, u32) -> bool,
    pub stopping: bool,
}

/// What waits under a policy may come to.
pub open spec fn waits_of<D: DownloadState + ?Sized>(
    download: Arc<D>,
    policy: ReadPolicy,
) -> Waits {
    Waits {
        held: |t: u32, offset: u64, len: u32| download.held(t, offset, len),
        lacks: |t: u32, offset: u64, len: u32| download.lacks(t, offset, len, policy),
        stopping: download.stopping(),
    }
}

/// What a reader reads: a plan and raw files, and how it waits for their bytes.
pub ghost struct MuxModel {
    pub plan: Plan,
    pub raws: Map<u32, RawModel>,
    pub policy: ReadPolicy,
    pub waits: Waits,
}

/// The number that a 64-bit pattern means in two's complement.
pub open spec fn signed64(v: u64) -> int {
    if v > i64::MAX {
        v - 0x1_0000_0000_0000_0000
    } else {
        v as int
    }
}

pub open spec fn time_overflow(relative: int, track_id: u32, frame_index: u32) -> MuxerFault {
    MuxerFault::InvalidBinstruct(
        "SimpleBlock relative timestamp "@ + signed_decimal(relative)
            + " overflows i16 for track "@ + decimal(track_id as nat) + " frame "@ + decimal(
            frame_index as nat,
        ),
    )
}

pub open spec fn size_mismatch(
    expected: u32,
    got: nat,
    track_id: u32,
    frame_index: u32,
) -> MuxerFault {
    MuxerFault::InvalidBitstream(
        "transformed payload size mismatch: expected "@ + decimal(expected as nat) + " got "@
            + decimal(got) + " for track "@ + decimal(track_id as nat) + " frame "@ + decimal(
            frame_index as nat,
        ),
    )
}

impl MuxModel {
    /// The time of a frame relative to its cluster.
    pub open spec fn relative_time(
        self,
        cluster_index: u32,
        track_id: u32,
        frame_index: u32,
    ) -> int {
        signed64(self.plan.models[track_id].time_of(frame_index)) - signed64(
            self.plan.times[cluster_index as int],
        )
    }

    /// Whether a block carries the keyframe flag: audio always does.
    pub open spec fn keyframe(self, track_id: u32, frame_index: u32) -> bool {
        let m = self.plan.models[track_id];
        m.codec_type == CodecType::Audio || m.is_key(frame_index)
    }

    /// The payload of a frame: its raw bytes, for video in length-prefixed form.
    pub open spec fn payload(self, track_id: u32, frame_index: u32) -> Result<
        Seq<u8>,
        MuxerFault,
    > {
        let m = self.plan.models[track_id];
        let raw = self.raws[track_id];
        match frame_place(raw.cbr_frame_size, m.index, raw.track_id, frame_index) {
            Err(e) => Err(e),
            Ok((offset, len)) => match raw_frame(
                raw.content,
                offset,
                len,
                raw.track_id,
                frame_index,
            ) {
                Err(e) => Err(e),
                Ok(bytes) => match m.codec_type {
                    CodecType::Audio => Ok(bytes),
                    CodecType::Video => avcc(bytes, m.index->0.nals_of(frame_index as int)),
                },
            },
        }
    }

    /// A block with a given payload, or why there is none.
    pub open spec fn block_with(
        self,
        cluster_index: u32,
        track_id: u32,
        frame_index: u32,
        payload_size: u32,
        payload: Result<Seq<u8>, MuxerFault>,
    ) -> Result<Seq<u8>, MuxerFault> {
        let relative = self.relative_time(cluster_index, track_id, frame_index);
        if !self.raws.contains_key(track_id) {
            Err(MuxerFault::MissingTrack(track_id))
        } else if !(-32768 <= relative <= 32767) {
            Err(time_overflow(relative, track_id, frame_index))
        } else {
            match payload {
                Err(e) => Err(e),
                Ok(p) => if p.len() != payload_size {
                    Err(size_mismatch(payload_size, p.len(), track_id, frame_index))
                } else {
                    Ok(
                        block_bytes(
                            self.plan.models[track_id].track_number,
                            relative,
                            self.keyframe(track_id, frame_index),
                            p,
                        ),
                    )
                },
            }
        }
    }

    /// What a section holds, once all raw bytes are there; or why it cannot be built.
    #[verifier::opaque]
    pub open spec fn section_bytes(self, s: LayoutSection) -> Result<Seq<u8>, MuxerFault> {
        let skeleton = self.plan.source.mkv_skeleton;
        match s {
            LayoutSection::PreTracksBlob => Ok(skeleton.pre_tracks_blob),
            LayoutSection::TracksElement { default_track_id } => tracks_element(
                skeleton.track_entries,
                self.plan.filter,
                self.plan.default_id,
            ),
            LayoutSection::PostTracksBlob => Ok(skeleton.post_tracks_blob),
            LayoutSection::ClusterHeader { cluster_index } => Ok(
                cluster_header(self.plan.times[cluster_index as int]),
            ),
            LayoutSection::SimpleBlock { cluster_index, track_id, frame_index, payload_size } => {
                self.block_with(
                    cluster_index,
                    track_id,
                    frame_index,
                    payload_size,
                    self.payload(track_id, frame_index),
                )
            },
            LayoutSection::Cues => Ok(self.plan.cues()),
            LayoutSection::SeekHead => Ok(self.plan.seekhead()),
        }
    }

    /// What a block holds while its raw bytes are missing: zeros for the payload.
    #[verifier::opaque]
    pub open spec fn padded_block(self, s: LayoutSection) -> Result<Seq<u8>, MuxerFault> {
        match s {
            LayoutSection::SimpleBlock { cluster_index, track_id, frame_index, payload_size } => {
                self.block_with(
                    cluster_index,
                    track_id,
                    frame_index,
                    payload_size,
                    Ok(Seq::new(payload_size as nat, |i: int| 0u8)),
                )
            },
            _ => self.section_bytes(s),
        }
    }

    /// Where the frame of a block stands in its raw file: track, offset and length.
    pub open spec fn range_of(self, s: LayoutSection) -> Option<(u32, u64, u32)> {
        match s {
            LayoutSection::SimpleBlock { cluster_index, track_id, frame_index, payload_size } => {
                if !self.raws.contains_key(track_id) {
                    None
                } else {
                    let raw = self.raws[track_id];
                    match frame_place(
                        raw.cbr_frame_size,
                        self.plan.models[track_id].index,
                        raw.track_id,
                        frame_index,
                    ) {
                        Err(_) => None,
                        Ok((offset, len)) => Some((raw.track_id, offset, len)),
                    }
                }
            },
            _ => None,
        }
    }

    /// Whether the raw bytes of a block may be there.
    pub open spec fn is_held(self, s: LayoutSection) -> bool {
        self.range_of(s) matches Some(x) && (self.waits.held)(x.0, x.1, x.2)
    }

    /// Whether the raw bytes of a block may be missing. A reader that blocks never goes on
    /// without them.
    pub open spec fn is_lacking(self, s: LayoutSection) -> bool {
        self.policy != ReadPolicy::Block && (self.range_of(s) matches Some(x) && (
        self.waits.lacks)(x.0, x.1, x.2))
    }

    /// The error of a block that comes before any wait: a track without a source, a time
    /// too far from that of the cluster, a frame without a place.
    pub open spec fn early_fault(self, s: LayoutSection) -> Option<MuxerFault> {
        match s {
            LayoutSection::SimpleBlock { cluster_index, track_id, frame_index, payload_size } => {
                let relative = self.relative_time(cluster_index, track_id, frame_index);
                if !self.raws.contains_key(track_id) {
                    Some(MuxerFault::MissingTrack(track_id))
                } else if !(-32768 <= relative <= 32767) {
                    Some(time_overflow(relative, track_id, frame_index))
                } else {
                    match frame_place(
                        self.raws[track_id].cbr_frame_size,
                        self.plan.models[track_id].index,
                        self.raws[track_id].track_id,
                        frame_index,
                    ) {
                        Err(e) => Some(e),
                        Ok(_) => None,
                    }
                }
            },
            _ => None,
        }
    }

    /// Whether a section may be read as `bytes`: what it holds, or, for a block whose own
    /// raw bytes are missing, zeros in their place.
    pub open spec fn allows(self, s: LayoutSection, bytes: Seq<u8>) -> bool {
        if s is SimpleBlock {
            ||| self.is_held(s) && self.section_bytes(s) == Ok::<Seq<u8>, MuxerFault>(bytes)
            ||| self.is_lacking(s) && self.padded_block(s) == Ok::<Seq<u8>, MuxerFault>(bytes)
        } else {
            self.section_bytes(s) == Ok::<Seq<u8>, MuxerFault>(bytes)
        }
    }

    /// Whether a section may be refused with an error: that which comes before any wait,
    /// if there is one; else any where a wait may be cut off or a read of the raw file may
    /// fail, or that of bytes that are there and do not make a block.
    pub open spec fn refuses(self, s: LayoutSection, e: MuxerFault) -> bool {
        match s {
            LayoutSection::SimpleBlock { cluster_index, track_id, frame_index, payload_size } => {
                match self.early_fault(s) {
                    Some(fault) => e == fault,
                    None => self.waits.stopping || (self.is_held(s) && (
                    self.raws[track_id].reliable ==> self.section_bytes(s) == Err::<
                        Seq<u8>,
                        MuxerFault,
                    >(e))),
                }
            },
            _ => false,
        }
    }

    /// What a section holds now: zeros for the raw bytes of a block where they are missing.
    pub open spec fn section_now(self, s: LayoutSection) -> Result<Seq<u8>, MuxerFault> {
        if self.is_lacking(s) {
            self.padded_block(s)
        } else {
            self.section_bytes(s)
        }
    }

    /// Whether no block may be both there and missing.
    pub open spec fn decided(self) -> bool {
        forall|s: LayoutSection| #[trigger] self.is_held(s) ==> !self.is_lacking(s)
    }

    /// Whether it is decided which blocks are there, and neither a wait is cut off nor a
    /// read of a raw file fails.
    pub open spec fn settled(self) -> bool {
        &&& self.decided()
        &&& !self.waits.stopping
        &&& forall|t: u32| self.raws.contains_key(t) ==> (#[trigger] self.raws[t]).reliable
    }

    /// Whether no block is missing.
    pub open spec fn complete(self) -> bool {
        forall|s: LayoutSection| !#[trigger] self.is_lacking(s)
    }

    /// The first `n` sections, one after the other; zeros for one that cannot be built.
    pub open spec fn file_upto(self, n: nat) -> Seq<u8>
        decreases n,
    {
        if n == 0 {
            Seq::empty()
        } else {
            let p = self.plan.pieces()[n - 1];
            self.file_upto((n - 1) as nat) + match self.section_now(p.section) {
                Ok(b) => b,
                Err(_) => Seq::new(p.len, |i: int| 0u8),
            }
        }
    }

    /// The whole virtual file.
    pub open spec fn file(self) -> Seq<u8> {
        self.file_upto(self.plan.pieces().len())
    }

    /// Whether section `i` shares a byte with the range from `from` up to `to`.
    pub open spec fn touched(self, i: int, from: int, to: int) -> bool {
        let start = sum_len(self.plan.pieces(), i as nat);
        let end = sum_len(self.plan.pieces(), (i + 1) as nat);
        from < to && start < to && end > from && start < end
    }

    /// The error of the first section from number `i` on that the range touches and that
    /// cannot be built.
    pub open spec fn first_fault(self, i: nat, from: int, to: int) -> Option<MuxerFault>
        decreases self.plan.pieces().len() - i,
    {
        if i >= self.plan.pieces().len() {
            None
        } else {
            match self.section_now(self.plan.pieces()[i as int].section) {
                Err(e) if self.touched(i as int, from, to) => Some(e),
                _ => self.first_fault(i + 1, from, to),
            }
        }
    }

    /// The end of a read of `len` bytes from `offset` on.
    pub open spec fn read_end(self, offset: u64, len: u32) -> int {
        if offset + len < total(self.plan.pieces()) {
            offset + len
        } else {
            total(self.plan.pieces()) as int
        }
    }

    /// What a read gives where it is settled what is there: that part of the file, or the
    /// error of the first section in it that cannot be built.
    pub open spec fn read_of(self, offset: u64, len: u32) -> Result<Seq<u8>, MuxerFault> {
        if offset >= total(self.plan.pieces()) {
            Ok(Seq::empty())
        } else {
            match self.first_fault(0, offset as int, self.read_end(offset, len)) {
                Some(e) => Err(e),
                None => Ok(
                    self.file().subrange(offset as int, self.read_end(offset, len)),
                ),
            }
        }
    }

    /// Whether the range touches a block.
    pub open spec fn touches_block(self, from: int, to: int) -> bool {
        exists|i: int|
            0 <= i < self.plan.pieces().len() && #[trigger] self.touched(i, from, to)
                && self.plan.pieces()[i].section is SimpleBlock
    }

    /// Whether `out` is made of parts of what the sections from `offset` on may hold.
    pub open spec fn assembled(self, offset: int, out: Seq<u8>) -> bool {
        forall|i: int|
            0 <= i < self.plan.pieces().len() && #[trigger] self.touched(
                i,
                offset,
                offset + out.len(),
            ) ==> self.part_allowed(i, offset, out)
    }

    /// Whether the part of `out` that stands for section `i` is such a part.
    pub open spec fn part_allowed(self, i: int, offset: int, out: Seq<u8>) -> bool {
        let p = self.plan.pieces()[i];
        let start = sum_len(self.plan.pieces(), i as nat);
        exists|bytes: Seq<u8>| #[trigger]
            self.allows(p.section, bytes) && bytes.len() == p.len && forall|k: int|
                0 <= k < p.len && offset <= start + k < offset + out.len() ==> #[trigger] bytes[k]
                    == out[start + k - offset]
    }

    /// Whether a read of the range may fail with `e`: a section in it may be refused so, and
    /// none before it must be refused before any wait.
    pub open spec fn fails(self, from: int, to: int, e: MuxerFault) -> bool {
        exists|i: int|
            0 <= i < self.plan.pieces().len() && #[trigger] self.touched(i, from, to)
                && self.refuses(self.plan.pieces()[i].section, e) && self.unfaulted(i, from, to)
    }

    /// Whether no section before number `i` in the range has an error that comes before
    /// any wait.
    pub open spec fn unfaulted(self, i: int, from: int, to: int) -> bool {
        forall|j: int|
            0 <= j < i && #[trigger] self.touched(j, from, to) ==> self.early_fault(
                self.plan.pieces()[j].section,
            ) is None
    }

    /// Whether blocks are sound and can be timed and placed.
    pub open spec fn wf(self) -> bool {
        &&& total(self.plan.pieces()) <= u64::MAX
        &&& self.plan.times.len() <= 0x1_0000_0000
        &&& tracks_element(
            self.plan.source.mkv_skeleton.track_entries,
            self.plan.filter,
            self.plan.default_id,
        ) is Ok
        &&& sections_sound(
            entries_of(self.plan.pieces(), 0),
            self.plan.models,
            self.plan.times.len(),
        )
        &&& forall|t: u32| #[trigger]
            self.plan.models.contains_key(t) ==> track_readable(
                self.plan.models[t],
                if self.raws.contains_key(t) {
                    self.raws[t].cbr_frame_size
                } else {
                    None
                },
            )
    }
}

/// Whether the time and the place of every frame of a track can be computed in 64 bits.
pub open spec fn track_readable(m: TrackModel, cbr: Option<u64>) -> bool {
    m.frame_count > 0 ==> match m.index {
        Some(x) => m.frame_count <= x.frames.len(),
        None => {
            &&& m.cbr_frame_size is Some
            &&& (m.frame_count - 1) * m.frame_duration <= u64::MAX
            &&& cbr matches Some(c) ==> (m.frame_count - 1) * c <= u64::MAX
        },
    }
}

proof fn lemma_product_grows(a: int, b: int, c: int)
    requires
        0 <= a <= b,
        0 <= c,
    ensures
        a * c <= b * c,
{
    assert(a * c <= b * c) by (nonlinear_arith)
        requires
            0 <= a <= b,
            0 <= c,
    ;
}

/// The frames of a readable track can be timed and placed.
proof fn lemma_readable(m: TrackModel, cbr: Option<u64>, f: u32)
    requires
        track_readable(m, cbr),
        f < m.frame_count,
    ensures
        m.timed(f),
        placeable(cbr, m.index, f),
{
    if m.index is None {
        lemma_product_grows(f as int, m.frame_count - 1, m.frame_duration as int);
        if let Some(c) = cbr {
            lemma_product_grows(f as int, m.frame_count - 1, c as int);
        }
    }
}

/// A section that can be built is as long as planned.
pub proof fn lemma_section_len(mm: MuxModel, i: int)
    requires
        mm.wf(),
        0 <= i < mm.plan.pieces().len(),
    ensures
        mm.section_bytes(mm.plan.pieces()[i].section) matches Ok(b) ==> b.len()
            == mm.plan.pieces()[i].len,
        mm.padded_block(mm.plan.pieces()[i].section) matches Ok(b) ==> b.len()
            == mm.plan.pieces()[i].len,
{
    reveal(MuxModel::section_bytes);
    reveal(MuxModel::padded_block);
    let plan = mm.plan;
    crate::muxer::plan::lemma_piece_kinds(plan, i);
    let p = plan.pieces()[i];
    match p.section {
        LayoutSection::TracksElement { default_track_id } => {
            tracks_element_len(
                plan.source.mkv_skeleton.track_entries,
                plan.filter,
                plan.default_id,
            );
        },
        LayoutSection::ClusterHeader { cluster_index } => {
            lemma_cluster_header_len(plan.times[cluster_index as int]);
        },
        LayoutSection::SimpleBlock { cluster_index, track_id, frame_index, payload_size } => {
            assert(entries_of(plan.pieces(), 0)[i].section == p.section);
            assert(block_sound(p.section, plan.models, plan.times.len()));
            let relative = mm.relative_time(cluster_index, track_id, frame_index);
            let key = mm.keyframe(track_id, frame_index);
            let number = plan.models[track_id].track_number;
            if let Ok(payload) = mm.payload(track_id, frame_index) {
                block_bytes_len(number, relative, key, payload);
            }
            block_bytes_len(number, relative, key, Seq::new(payload_size as nat, |i: int| 0u8));
        },
        _ => {},
    }
}

/// Where the file up to section `n` ends.
pub proof fn lemma_file_len(mm: MuxModel, n: nat)
    requires
        mm.wf(),
        n <= mm.plan.pieces().len(),
    ensures
        mm.file_upto(n).len() == sum_len(mm.plan.pieces(), n),
    decreases n,
{
    if n > 0 {
        lemma_file_len(mm, (n - 1) as nat);
        lemma_section_len(mm, n - 1);
    }
}

/// The file up to a section begins as the file up to an earlier one.
proof fn lemma_file_prefix(mm: MuxModel, i: nat, n: nat)
    requires
        mm.wf(),
        i <= n <= mm.plan.pieces().len(),
    ensures
        mm.file_upto(i).len() <= mm.file_upto(n).len(),
        forall|k: int|
            0 <= k < mm.file_upto(i).len() ==> mm.file_upto(n)[k] == #[trigger] mm.file_upto(i)[k],
    decreases n,
{
    if i < n {
        lemma_file_prefix(mm, i, (n - 1) as nat);
    }
}

/// The bytes of a section stand at its place in the file.
pub proof fn lemma_file_section(mm: MuxModel, i: int, k: int)
    requires
        mm.wf(),
        0 <= i < mm.plan.pieces().len(),
        mm.section_now(mm.plan.pieces()[i].section) is Ok,
        0 <= k < mm.plan.pieces()[i].len,
    ensures
        sum_len(mm.plan.pieces(), i as nat) + k < mm.file().len(),
        mm.file()[sum_len(mm.plan.pieces(), i as nat) + k] == mm.section_now(
            mm.plan.pieces()[i].section,
        )->Ok_0[k],
{
    let n = mm.plan.pieces().len();
    lemma_section_len(mm, i);
    lemma_file_len(mm, i as nat);
    lemma_file_len(mm, (i + 1) as nat);
    lemma_file_len(mm, n);
    lemma_file_prefix(mm, (i + 1) as nat, n);
    let at = sum_len(mm.plan.pieces(), i as nat) + k;
    assert(mm.file_upto((i + 1) as nat)[at] == mm.section_now(
        mm.plan.pieces()[i].section,
    )->Ok_0[k]);
}

/// A section that is not a block can always be built.
proof fn lemma_plain_section(mm: MuxModel, i: int)
    requires
        mm.wf(),
        0 <= i < mm.plan.pieces().len(),
        !(mm.plan.pieces()[i].section is SimpleBlock),
    ensures
        mm.section_now(mm.plan.pieces()[i].section) is Ok,
{
    reveal(MuxModel::section_bytes);
    reveal(MuxModel::padded_block);
}

/// Where it is decided what is there, what is allowed is what a section holds now.
pub proof fn lemma_decided(mm: MuxModel, s: LayoutSection, bytes: Seq<u8>)
    requires
        mm.decided() || !(s is SimpleBlock),
        mm.allows(s, bytes),
    ensures
        mm.section_now(s) == Ok::<Seq<u8>, MuxerFault>(bytes),
{
    if s is SimpleBlock {
        assert(mm.is_held(s) ==> !mm.is_lacking(s));
    }
}

/// Where all is settled, a block is refused with the error of what it holds now.
proof fn lemma_settled(mm: MuxModel, s: LayoutSection, e: MuxerFault)
    requires
        mm.settled(),
        mm.refuses(s, e),
    ensures
        mm.section_now(s) == Err::<Seq<u8>, MuxerFault>(e),
{
    reveal(MuxModel::section_bytes);
    reveal(MuxModel::padded_block);
    assert(mm.is_held(s) ==> !mm.is_lacking(s));
    match s {
        LayoutSection::SimpleBlock { cluster_index, track_id, frame_index, payload_size } => {
            if mm.raws.contains_key(track_id) {
                assert(mm.raws[track_id].reliable);
            }
        },
        _ => {},
    }
}

/// A block that may be read has no error that comes before any wait.
proof fn lemma_allowed_unfaulted(mm: MuxModel, s: LayoutSection, bytes: Seq<u8>)
    requires
        mm.allows(s, bytes),
    ensures
        mm.early_fault(s) is None,
{
    reveal(MuxModel::section_bytes);
    reveal(MuxModel::padded_block);
}

/// The first fault of a range is that of the first section in it that cannot be built.
pub proof fn lemma_first_fault(mm: MuxModel, i: nat, j: nat, from: int, to: int)
    requires
        i <= j <= mm.plan.pieces().len(),
        forall|k: int|
            i <= k < j && #[trigger] mm.touched(k, from, to) ==> mm.section_now(
                mm.plan.pieces()[k].section,
            ) is Ok,
    ensures
        mm.first_fault(i, from, to) == mm.first_fault(j, from, to),
    decreases j - i,
{
    if i < j {
        assert(mm.touched(i as int, from, to) ==> mm.section_now(
            mm.plan.pieces()[i as int].section,
        ) is Ok);
        lemma_first_fault(mm, i + 1, j, from, to);
    }
}

/// Two reads of adjacent ranges give what one read of both gives.
pub proof fn reads_concatenate(mm: MuxModel, offset: u64, first: u32, second: u32)
    requires
        mm.wf(),
        offset + first <= total(mm.plan.pieces()),
        first + second <= u32::MAX,
        mm.read_of(offset, (first + second) as u32) is Ok,
    ensures
        mm.read_of(offset, first) is Ok,
        mm.read_of((offset + first) as u64, second) is Ok,
        mm.read_of(offset, (first + second) as u32)->Ok_0 == mm.read_of(offset, first)->Ok_0
            + mm.read_of((offset + first) as u64, second)->Ok_0,
{
    let size = total(mm.plan.pieces());
    let middle = (offset + first) as u64;
    let whole = mm.read_end(offset, (first + second) as u32);
    let n = mm.plan.pieces().len();
    lemma_file_len(mm, n);
    if offset < size {
        lemma_fault_free(mm, 0, offset as int, whole, offset as int, mm.read_end(offset, first));
        if middle < size {
            lemma_fault_free(
                mm,
                0,
                offset as int,
                whole,
                middle as int,
                mm.read_end(middle, second),
            );
        }
        assert(mm.file().subrange(offset as int, whole) =~= mm.file().subrange(
            offset as int,
            middle as int,
        ) + mm.file().subrange(middle as int, whole));
        if middle >= size {
            assert(mm.file().subrange(middle as int, whole) =~= Seq::<u8>::empty());
        }
    } else {
        assert(Seq::<u8>::empty() + Seq::<u8>::empty() =~= Seq::<u8>::empty());
    }
}

/// A range without a fault has none in a part of it.
proof fn lemma_fault_free(mm: MuxModel, i: nat, from: int, to: int, a: int, b: int)
    requires
        from <= a,
        b <= to,
        mm.first_fault(i, from, to) is None,
    ensures
        mm.first_fault(i, a, b) is None,
    decreases mm.plan.pieces().len() - i,
{
    if i < mm.plan.pieces().len() {
        lemma_fault_free(mm, i + 1, from, to, a, b);
    }
}

/// A shared value of a type that need not be sized.
struct Shared<T: ?Sized> {
    inner: Arc<T>,
}

fn share<T: ?Sized>(inner: Arc<T>) -> (r: Shared<T>)
    ensures
        r.inner == inner,
{
    Shared { inner }
}

/// Stateless MKV virtual reconstruction engine.
///
/// The muxer is constructed once with a given `(binstruct, sources, filter,
/// default_audio_track_id)` tuple. Each `read()` call is fully self-contained
/// and may be issued concurrently from multiple threads.
pub struct Muxer {
    binstruct: Arc<BinstructFile>,
    sources: HashMap<u32, TrackSource>,
    tracks_meta: HashMap<u32, TrackMeta>,
    layout: Layout,
    tracks_element_bytes: Vec<u8>,
    cues_bytes: Vec<u8>,
    seekhead_bytes: Vec<u8>,
    policy: ReadPolicy,
    download: Shared<dyn DownloadState>,
    plan: Ghost<Plan>,
}

impl View for Muxer {
    type V = MuxModel;

    closed spec fn view(&self) -> MuxModel {
        MuxModel {
            plan: self.plan@,
            raws: raw_models(self.sources@),
            policy: self.policy,
            waits: waits_of(self.download.inner, self.policy),
        }
    }
}

/// The number of a track: that of its entry, else its id.
pub open spec fn number_of(b: BinstructModel, track_id: u32) -> u64 {
    match id_index(entry_ids(b.mkv_skeleton.track_entries), track_id, 0) {
        None => track_id as u64,
        Some(k) => match track_number_of(b.mkv_skeleton.track_entries[k as int].bytes) {
            Ok(Some(v)) => v,
            _ => track_id as u64,
        },
    }
}

/// The frame index that a source gives for a track.
pub open spec fn index_of(sources: Map<u32, TrackSource>, track_id: u32, base: u64) -> Option<
    IndexModel,
> {
    if sources.contains_key(track_id) {
        match sources[track_id].vfr {
            Some(v) => Some(
                IndexModel { frames: v.frames@, nal_lengths: v.nal_lengths@, base },
            ),
            None => None,
        }
    } else {
        None
    }
}

/// What is known about a track that has a policy.
pub open spec fn track_model(
    b: BinstructModel,
    sources: Map<u32, TrackSource>,
    track_id: u32,
) -> TrackModel {
    let p = b.track_policies[id_index(policy_ids(b.track_policies), track_id, 0)->0 as int];
    TrackModel {
        track_number: number_of(b, track_id),
        codec_type: p.codec_type,
        frame_count: p.frame_count as u32,
        frame_duration: p.frame_duration,
        cbr_frame_size: match p.cbr_frame_size {
            Some(v) => Some(v as u32),
            None => None,
        },
        index: index_of(sources, track_id, p.frame_duration),
    }
}

/// What is known about the tracks of `filter`.
pub open spec fn track_models(
    b: BinstructModel,
    sources: Map<u32, TrackSource>,
    filter: Seq<u32>,
) -> Map<u32, TrackModel> {
    filter.to_set().mk_map(|t: u32| track_model(b, sources, t))
}

/// The first track of `filter`, from number `k` on, that has no policy.
pub open spec fn first_without_policy(b: BinstructModel, filter: Seq<u32>, k: nat) -> Option<u32>
    decreases filter.len() - k,
{
    if k >= filter.len() {
        None
    } else if id_index(policy_ids(b.track_policies), filter[k as int], 0) is None {
        Some(filter[k as int])
    } else {
        first_without_policy(b, filter, k + 1)
    }
}

/// Whether a track cannot be told without a frame index that its source does not have
/// yet: video, and audio without one size for all frames.
pub open spec fn lacks_index(
    b: BinstructModel,
    sources: Map<u32, TrackSource>,
    track_id: u32,
) -> bool {
    match id_index(policy_ids(b.track_policies), track_id, 0) {
        None => false,
        Some(k) => {
            let p = b.track_policies[k as int];
            &&& p.codec_type == CodecType::Video || p.cbr_frame_size is None
            &&& index_of(sources, track_id, p.frame_duration) is None
        },
    }
}

/// The first `n` tracks of `filter` without those that lack their index.
pub open spec fn ready_upto(
    b: BinstructModel,
    sources: Map<u32, TrackSource>,
    filter: Seq<u32>,
    n: nat,
) -> Seq<u32>
    decreases n,
{
    if n == 0 {
        Seq::empty()
    } else {
        let before = ready_upto(b, sources, filter, (n - 1) as nat);
        if lacks_index(b, sources, filter[n - 1]) {
            before
        } else {
            before.push(filter[n - 1])
        }
    }
}

/// The tracks of `filter` that a reader serves: those that lack their index are left out
/// until it is there.
pub open spec fn ready(
    b: BinstructModel,
    sources: Map<u32, TrackSource>,
    filter: Seq<u32>,
) -> Seq<u32> {
    ready_upto(b, sources, filter, filter.len())
}

/// A reader serves exactly those wanted tracks that do not lack their index.
pub proof fn ready_tracks_have_their_index(
    b: BinstructModel,
    sources: Map<u32, TrackSource>,
    filter: Seq<u32>,
    t: u32,
)
    ensures
        ready(b, sources, filter).contains(t) <==> filter.contains(t) && !lacks_index(
            b,
            sources,
            t,
        ),
{
    lemma_ready(b, sources, filter, filter.len(), t);
    assert(filter.take(filter.len() as int) =~= filter);
}

proof fn lemma_ready(
    b: BinstructModel,
    sources: Map<u32, TrackSource>,
    filter: Seq<u32>,
    n: nat,
    t: u32,
)
    requires
        n <= filter.len(),
    ensures
        ready_upto(b, sources, filter, n).contains(t) <==> filter.take(n as int).contains(t)
            && !lacks_index(b, sources, t),
    decreases n,
{
    if n > 0 {
        lemma_ready(b, sources, filter, (n - 1) as nat, t);
        let x = filter[n - 1];
        let before = ready_upto(b, sources, filter, (n - 1) as nat);
        let all = ready_upto(b, sources, filter, n);
        assert(filter.take(n as int) =~= filter.take(n - 1).push(x));
        lemma_push_contains(filter.take(n - 1), x, t);
        lemma_push_contains(before, x, t);
    }
}

proof fn lemma_push_contains(s: Seq<u32>, x: u32, t: u32)
    ensures
        s.push(x).contains(t) <==> s.contains(t) || t == x,
{
    if s.contains(t) {
        let i = choose|i: int| 0 <= i < s.len() && s[i] == t;
        assert(s.push(x)[i] == t);
    }
    if t == x {
        assert(s.push(x)[s.len() as int] == t);
    }
}

/// The plan of a reader, or why there is none.
pub open spec fn mux_plan(
    b: BinstructModel,
    sources: Map<u32, TrackSource>,
    filter: Seq<u32>,
    default_id: u32,
) -> Result<Plan, MuxerFault> {
    match first_without_policy(b, filter, 0) {
        Some(t) => Err(MuxerFault::MissingTrack(t)),
        None => match plan_of(b, filter, track_models(b, sources, filter), default_id) {
            Err(e) => Err(e),
            Ok(plan) => match tracks_element(b.mkv_skeleton.track_entries, filter, default_id) {
                Err(e) => Err(e),
                Ok(_) => Ok(plan),
            },
        },
    }
}

/// Whether all numbers that planning and reading compute are known and fit.
pub open spec fn muxable(
    b: BinstructModel,
    sources: Map<u32, TrackSource>,
    filter: Seq<u32>,
    default_id: u32,
) -> bool {
    &&& forall|t: u32|
        filter.contains(t) && sources.contains_key(t) ==> (
        #[trigger] sources[t].vfr matches Some(v) ==> indexable(v.frames@))
    &&& first_without_policy(b, filter, 0) is None ==> (plan_of(
        b,
        filter,
        track_models(b, sources, filter),
        default_id,
    ) matches Ok(plan) ==> plan.feasible() && forall|t: u32|
        filter.contains(t) ==> track_readable(
            #[trigger] track_model(b, sources, t),
            source_frame_size(sources, t),
        ))
}

/// The plan of a reader for those tracks of `filter` that have their index.
pub open spec fn reader_plan(
    b: BinstructModel,
    sources: Map<u32, TrackSource>,
    filter: Seq<u32>,
    default_id: u32,
) -> Result<Plan, MuxerFault> {
    mux_plan(b, sources, ready(b, sources, filter), default_id)
}

/// Whether all numbers are known and fit for those tracks of `filter` that have their
/// index.
pub open spec fn servable(
    b: BinstructModel,
    sources: Map<u32, TrackSource>,
    filter: Seq<u32>,
    default_id: u32,
) -> bool {
    muxable(b, sources, ready(b, sources, filter), default_id)
}

/// What a reader for `filter` reads, or why there is none.
pub open spec fn reader_model<D: DownloadState + ?Sized>(
    b: BinstructModel,
    sources: Map<u32, TrackSource>,
    filter: Seq<u32>,
    default_id: u32,
    policy: ReadPolicy,
    download: Arc<D>,
) -> Result<MuxModel, MuxerFault> {
    match reader_plan(b, sources, filter, default_id) {
        Err(e) => Err(e),
        Ok(plan) => Ok(
            MuxModel {
                plan,
                raws: raw_models(sources),
                policy,
                waits: waits_of(download, policy),
            },
        ),
    }
}

/// `filter` without a track.
pub open spec fn without(filter: Seq<u32>, t: u32) -> Seq<u32>
    decreases filter.len(),
{
    if filter.len() == 0 {
        Seq::empty()
    } else if filter.last() == t {
        without(filter.drop_last(), t)
    } else {
        without(filter.drop_last(), t).push(filter.last())
    }
}

/// A reader for tracks of which one lacks its index is the reader for the others: it has
/// the same plan, and so the same size, cluster offsets and reads.
pub proof fn unready_track_is_left_out<D: DownloadState + ?Sized>(
    b: BinstructModel,
    sources: Map<u32, TrackSource>,
    filter: Seq<u32>,
    default_id: u32,
    policy: ReadPolicy,
    download: Arc<D>,
    t: u32,
)
    requires
        lacks_index(b, sources, t),
    ensures
        servable(b, sources, filter, default_id) == servable(
            b,
            sources,
            without(filter, t),
            default_id,
        ),
        reader_model(b, sources, filter, default_id, policy, download) == reader_model(
            b,
            sources,
            without(filter, t),
            default_id,
            policy,
            download,
        ),
        reader_plan(b, sources, filter, default_id) matches Ok(plan) ==> !plan.filter.contains(t),
{
    lemma_ready_without(b, sources, filter, filter.len(), t);
    assert(filter.take(filter.len() as int) =~= filter);
    ready_tracks_have_their_index(b, sources, filter, t);
}

proof fn lemma_ready_without(
    b: BinstructModel,
    sources: Map<u32, TrackSource>,
    filter: Seq<u32>,
    n: nat,
    t: u32,
)
    requires
        n <= filter.len(),
        lacks_index(b, sources, t),
    ensures
        ready_upto(b, sources, filter, n) == ready(b, sources, without(filter.take(n as int), t)),
    decreases n,
{
    if n > 0 {
        lemma_ready_without(b, sources, filter, (n - 1) as nat, t);
        let x = filter[n - 1];
        let rest = without(filter.take(n - 1), t);
        assert(filter.take(n as int).drop_last() =~= filter.take(n - 1));
        if x != t {
            lemma_ready_prefix(b, sources, rest.push(x), rest, rest.len());
        }
    }
}

proof fn lemma_ready_prefix(
    b: BinstructModel,
    sources: Map<u32, TrackSource>,
    one: Seq<u32>,
    two: Seq<u32>,
    n: nat,
)
    requires
        n <= one.len(),
        n <= two.len(),
        forall|i: int| 0 <= i < n ==> one[i] == two[i],
    ensures
        ready_upto(b, sources, one, n) == ready_upto(b, sources, two, n),
    decreases n,
{
    if n > 0 {
        lemma_ready_prefix(b, sources, one, two, (n - 1) as nat);
    }
}

/// The one size of all frames that the source of a track tells.
pub open spec fn source_frame_size(sources: Map<u32, TrackSource>, t: u32) -> Option<u64> {
    if sources.contains_key(t) {
        sources[t].policy.cbr_frame_size
    } else {
        None
    }
}

/// The meta data of a track with a policy; nothing where its index does not fit.
fn meta_of(
    binstruct: &BinstructFile,
    sources: &HashMap<u32, TrackSource>,
    track_id: u32,
    policy: &TrackPolicy,
) -> (r: Option<TrackMeta>)
    requires
        id_index(policy_ids(binstruct@.track_policies), track_id, 0) matches Some(k) && k
            < binstruct.track_policies@.len() && *policy == binstruct.track_policies@[k as int],
    ensures
        match r {
            Some(m) => m.wf() && m@ == track_model(binstruct@, sources@, track_id),
            None => sources@.contains_key(track_id) && (sources@[track_id].vfr matches Some(v)
                && !indexable(v.frames@)),
        },
{
    let mut track_number: u64 = track_id as u64;
    if let Some(te) = find_track_entry(binstruct, track_id) {
        if let Ok(Some(v)) = find_track_number(&te.bytes) {
            track_number = v;
        }
    }
    assert(track_number == number_of(binstruct@, track_id));
    let mut vfr_index: Option<Arc<LazyVfrIndex>> = None;
    if let Some(source) = sources.get(&track_id) {
        if let Some(v) = &source.vfr {
            if !is_indexable(&v.frames) {
                return None;
            }
            vfr_index = Some(Arc::new(LazyVfrIndex::new(v.clone(), policy.frame_duration)));
        }
    }
    Some(
        TrackMeta {
            track_id,
            track_number,
            codec_type: policy.codec_type,
            frame_count: policy.frame_count as u32,
            frame_duration: policy.frame_duration,
            cbr_frame_size: match policy.cbr_frame_size {
                Some(v) => Some(v as u32),
                None => None,
            },
            vfr_index,
        },
    )
}

/// Whether `(count - 1) * factor` fits in 64 bits, for `count` above zero.
fn last_product_fits(count: u32, factor: u64) -> (r: bool)
    requires
        count > 0,
    ensures
        r == ((count - 1) * factor <= u64::MAX),
{
    proof {
        lemma_product_grows(0, count - 1, factor as int);
        assert((count - 1) * factor <= 0xFFFF_FFFF * 0xFFFF_FFFF_FFFF_FFFF) by (nonlinear_arith)
            requires
                0 <= count - 1 <= 0xFFFF_FFFF,
                0 <= factor <= 0xFFFF_FFFF_FFFF_FFFF,
        ;
    }
    let product: u128 = (count - 1) as u128 * factor as u128;
    product <= u64::MAX as u128
}

/// Whether the time and the place of every frame of a track can be computed in 64 bits.
fn is_readable(meta: &TrackMeta, cbr: Option<u64>) -> (r: bool)
    ensures
        r == track_readable(meta@, cbr),
{
    if meta.frame_count == 0 {
        return true;
    }
    match &meta.vfr_index {
        Some(x) => meta.frame_count as u64 <= x.vfr.frames.len() as u64,
        None => {
            let time_ok: bool = last_product_fits(meta.frame_count, meta.frame_duration);
            let place_ok: bool = match cbr {
                Some(c) => last_product_fits(meta.frame_count, c),
                None => true,
            };
            meta.cbr_frame_size.is_some() && time_ok && place_ok
        },
    }
}

/// The meta data of the tracks of `filter`; nothing where an index does not fit.
fn gather_metas(
    binstruct: &BinstructFile,
    sources: &HashMap<u32, TrackSource>,
    filter: &Vec<u32>,
) -> (r: Option<Result<HashMap<u32, TrackMeta>, MuxerError>>)
    ensures
        match r {
            None => exists|t: u32|
                filter@.contains(t) && sources@.contains_key(t) && (
                #[trigger] sources@[t].vfr matches Some(v) && !indexable(v.frames@)),
            Some(Err(e)) => first_without_policy(binstruct@, filter@, 0) matches Some(t) && e@
                == MuxerFault::MissingTrack(t),
            Some(Ok(m)) => {
                &&& first_without_policy(binstruct@, filter@, 0) is None
                &&& metas_wf(m@)
                &&& meta_models(m@) == track_models(binstruct@, sources@, filter@)
            },
        },
{
    let ghost b = binstruct@;
    let mut tracks_meta: HashMap<u32, TrackMeta> = HashMap::new();
    let mut k: usize = 0;
    while k < filter.len()
        invariant
            b == binstruct@,
            k <= filter@.len(),
            first_without_policy(b, filter@, 0) == first_without_policy(b, filter@, k as nat),
            metas_wf(tracks_meta@),
            forall|t: u32|
                #[trigger] tracks_meta@.contains_key(t) <==> filter@.take(k as int).contains(t),
            forall|t: u32| #[trigger]
                tracks_meta@.contains_key(t) ==> tracks_meta@[t]@ == track_model(b, sources@, t),
        decreases filter@.len() - k,
    {
        let tid: u32 = filter[k];
        let policy: &TrackPolicy = match find_track_policy(binstruct, tid) {
            Some(p) => p,
            None => return Some(Err(MuxerError::MissingTrack(tid))),
        };
        assert(filter@.contains(tid));
        let meta: TrackMeta = match meta_of(binstruct, sources, tid, policy) {
            Some(m) => m,
            None => return None,
        };
        let ghost before = tracks_meta@;
        tracks_meta.insert(tid, meta);
        proof {
            let prefix = filter@.take(k as int);
            let next = filter@.take(k + 1);
            assert(next =~= prefix.push(tid));
            assert forall|t: u32| #[trigger] tracks_meta@.contains_key(t) <==> next.contains(t) by {
                if prefix.contains(t) {
                    let j = choose|j: int| 0 <= j < prefix.len() && prefix[j] == t;
                    assert(next[j] == t);
                }
                if next.contains(t) {
                    let j = choose|j: int| 0 <= j < next.len() && next[j] == t;
                    if j < prefix.len() {
                        assert(prefix[j] == t);
                        assert(before.contains_key(t));
                    }
                }
                if t == tid {
                    assert(next[k as int] == t);
                } else {
                    assert(before.contains_key(t) <==> prefix.contains(t));
                }
            }
        }
        k = k + 1;
    }
    proof {
        assert(filter@.take(k as int) =~= filter@);
        assert(meta_models(tracks_meta@) =~= track_models(b, sources@, filter@)) by {
            assert forall|t: u32| meta_models(tracks_meta@).contains_key(t) == track_models(
                b,
                sources@,
                filter@,
            ).contains_key(t) by {
                assert(tracks_meta@.contains_key(t) <==> filter@.contains(t));
            }
        }
    }
    Some(Ok(tracks_meta))
}

/// The tracks of `filter` that a reader serves.
fn ready_tracks(
    binstruct: &BinstructFile,
    sources: &HashMap<u32, TrackSource>,
    filter: &Vec<u32>,
) -> (r: Vec<u32>)
    ensures
        r@ == ready(binstruct@, sources@, filter@),
{
    let mut kept: Vec<u32> = Vec::new();
    let mut k: usize = 0;
    assert(kept@ =~= Seq::<u32>::empty());
    while k < filter.len()
        invariant
            k <= filter@.len(),
            kept@ == ready_upto(binstruct@, sources@, filter@, k as nat),
        decreases filter@.len() - k,
    {
        let tid: u32 = filter[k];
        let has_index: bool = match sources.get(&tid) {
            Some(source) => source.vfr.is_some(),
            None => false,
        };
        let lacking: bool = match find_track_policy(binstruct, tid) {
            None => false,
            Some(p) => (p.codec_type == CodecType::Video || p.cbr_frame_size.is_none())
                && !has_index,
        };
        assert(lacking == lacks_index(binstruct@, sources@, tid));
        if !lacking {
            kept.push(tid);
        }
        k = k + 1;
    }
    kept
}

/// Whether all tracks of `filter` are readable.
fn all_readable(
    sources: &HashMap<u32, TrackSource>,
    filter: &Vec<u32>,
    tracks_meta: &HashMap<u32, TrackMeta>,
) -> (r: bool)
    requires
        forall|t: u32| filter@.contains(t) ==> #[trigger] tracks_meta@.contains_key(t),
    ensures
        r == forall|t: u32|
            filter@.contains(t) ==> track_readable(
                #[trigger] meta_models(tracks_meta@)[t],
                source_frame_size(sources@, t),
            ),
{
    let ghost models = meta_models(tracks_meta@);
    let mut k: usize = 0;
    while k < filter.len()
        invariant
            k <= filter@.len(),
            models == meta_models(tracks_meta@),
            forall|t: u32| filter@.contains(t) ==> #[trigger] tracks_meta@.contains_key(t),
            forall|j: int|
                0 <= j < k ==> track_readable(
                    models[#[trigger] filter@[j]],
                    source_frame_size(sources@, filter@[j]),
                ),
        decreases filter@.len() - k,
    {
        let tid: u32 = filter[k];
        assert(filter@.contains(tid));
        assert(tracks_meta@.contains_key(tid));
        let cbr: Option<u64> = match sources.get(&tid) {
            Some(s) => s.policy.cbr_frame_size,
            None => None,
        };
        if let Some(meta) = tracks_meta.get(&tid) {
            assert(models[tid] == meta@);
            if !is_readable(meta, cbr) {
                return false;
            }
        }
        k = k + 1;
    }
    assert forall|t: u32| filter@.contains(t) implies track_readable(
        #[trigger] models[t],
        source_frame_size(sources@, t),
    ) by {
        let j = choose|j: int| 0 <= j < filter@.len() && filter@[j] == t;
        assert(track_readable(models[filter@[j]], source_frame_size(sources@, filter@[j])));
    }
    true
}

/// The blocks of a layout belong to clusters and frames that exist.
proof fn lemma_layout_blocks(l: Layout, plan: Plan, metas: Map<u32, TrackMeta>)
    requires
        follows(l, plan),
        metas_wf(metas),
        plan.models == meta_models(metas),
    ensures
        blocks_known(l.sections@, metas, plan.times.len()),
{
    assert forall|i: int| 0 <= i < l.sections@.len() implies block_known(
        #[trigger] l.sections@[i],
        metas,
        plan.times.len(),
    ) by {
        assert(block_sound(l.sections@[i].section, plan.models, plan.times.len()));
    }
}

/// The number that a 64-bit pattern means in two's complement.
pub(crate) fn to_signed(v: u64) -> (r: i128)
    ensures
        r == signed64(v),
        i64::MIN <= r <= i64::MAX,
{
    if v > i64::MAX as u64 {
        v as i128 - 0x1_0000_0000_0000_0000i128
    } else {
        v as i128
    }
}

/// The payload that the raw bytes of a frame become: for video in length-prefixed form.
pub open spec fn payload_from(
    codec_type: CodecType,
    index: Option<IndexModel>,
    track_id: u32,
    frame_index: u32,
    raw: Seq<u8>,
) -> Result<Seq<u8>, MuxerFault> {
    match (codec_type, index) {
        (CodecType::Audio, _) => Ok(raw),
        (CodecType::Video, Some(x)) => avcc(raw, x.nals_of(frame_index as int)),
        (CodecType::Video, None) => Err(
            MuxerFault::InvalidBinstruct(
                "video track "@ + decimal(track_id as nat) + " requires VFR for AVCC transform"@,
            ),
        ),
    }
}

/// The payload of a block: zeros while the frame is not available, else its bytes, which
/// must have the planned size.
pub open spec fn planned_payload(
    codec_type: CodecType,
    index: Option<IndexModel>,
    track_id: u32,
    frame_index: u32,
    payload_size: u32,
    frame: MaterializedFrame,
) -> Result<Seq<u8>, MuxerFault> {
    match frame {
        MaterializedFrame::Unavailable { frame_offset, frame_len } => Ok(
            Seq::new(payload_size as nat, |i: int| 0u8),
        ),
        MaterializedFrame::Bytes(raw) => match payload_from(
            codec_type,
            index,
            track_id,
            frame_index,
            raw@,
        ) {
            Err(e) => Err(e),
            Ok(p) => if p.len() == payload_size {
                Ok(p)
            } else {
                Err(size_mismatch(payload_size, p.len(), track_id, frame_index))
            },
        },
    }
}

/// Makes the payload of a block from what a frame gave.
pub fn block_payload(
    codec_type: CodecType,
    vfr_index: Option<&LazyVfrIndex>,
    track_id: u32,
    frame_index: u32,
    payload_size: u32,
    frame: MaterializedFrame,
) -> (r: Result<Vec<u8>, MuxerError>)
    requires
        vfr_index matches Some(x) ==> x.wf() && (codec_type == CodecType::Video ==> x@.has_nals(
            frame_index as int,
        )),
    ensures
        match planned_payload(
            codec_type,
            index_model(vfr_index),
            track_id,
            frame_index,
            payload_size,
            frame,
        ) {
            Ok(p) => r matches Ok(v) && v@ == p,
            Err(fault) => r matches Err(e) && e@ == fault,
        },
{
    let payload: Vec<u8> = match frame {
        MaterializedFrame::Bytes(raw) => match codec_type {
            CodecType::Audio => transform_raw(&raw),
            CodecType::Video => match vfr_index {
                Some(idx) => {
                    let lens: &[u64] = idx.nal_lengths_of_frame(frame_index);
                    match transform_avcc(&raw, lens) {
                        Ok(v) => v,
                        Err(e) => return Err(e),
                    }
                },
                None => {
                    let mut s: String = "video track ".to_owned();
                    push_decimal(&mut s, track_id as u128);
                    s.append(" requires VFR for AVCC transform");
                    return Err(MuxerError::InvalidBinstruct(s));
                },
            },
        },
        MaterializedFrame::Unavailable { frame_offset, frame_len } => {
            let zeros: Vec<u8> = vec![0u8; payload_size as usize];
            assert(zeros@ =~= Seq::new(payload_size as nat, |i: int| 0u8));
            zeros
        },
    };
    if payload.len() != payload_size as usize {
        let mut s: String = "transformed payload size mismatch: expected ".to_owned();
        push_decimal(&mut s, payload_size as u128);
        s.append(" got ");
        push_decimal(&mut s, payload.len() as u128);
        s.append(" for track ");
        push_decimal(&mut s, track_id as u128);
        s.append(" frame ");
        push_decimal(&mut s, frame_index as u128);
        return Err(MuxerError::InvalidBitstream(s));
    }
    Ok(payload)
}

/// Appends the bytes from `from` up to `to` of `src`.
fn append_part(out: &mut Vec<u8>, src: &[u8], from: u64, to: u64)
    requires
        from <= to <= src@.len(),
    ensures
        final(out)@ == old(out)@ + src@.subrange(from as int, to as int),
{
    let size: usize = src.len();
    append_bytes(out, &src[from as usize..to as usize]);
}

impl Muxer {
    /// What the parts of a reader have to do with each other.
    #[verifier::type_invariant]
    closed spec fn inv(&self) -> bool {
        &&& self@.wf()
        &&& self.plan@.source == self.binstruct@
        &&& self.plan@.models == meta_models(self.tracks_meta@)
        &&& metas_wf(self.tracks_meta@)
        &&& follows(self.layout, self.plan@)
        &&& tracks_element(
            self.plan@.source.mkv_skeleton.track_entries,
            self.plan@.filter,
            self.plan@.default_id,
        ) == Ok::<Seq<u8>, MuxerFault>(self.tracks_element_bytes@)
        &&& self.cues_bytes@ == self.plan@.cues()
        &&& self.seekhead_bytes@ == self.plan@.seekhead()
    }

    /// A reader for the tracks of `filter`; nothing where a number that planning or
    /// reading computes is not known or does not fit. Tracks that lack their frame index
    /// are left out until it is there.
    pub fn try_new(
        binstruct: Arc<BinstructFile>,
        sources: HashMap<u32, TrackSource>,
        filter: Vec<u32>,
        default_audio_track_id: u32,
        policy: ReadPolicy,
        download: Arc<dyn DownloadState>,
    ) -> (r: Option<Result<Self, MuxerError>>)
        ensures
            match r {
                None => !servable(binstruct@, sources@, filter@, default_audio_track_id),
                Some(Err(e)) => reader_model(
                    binstruct@,
                    sources@,
                    filter@,
                    default_audio_track_id,
                    policy,
                    download,
                ) == Err::<MuxModel, MuxerFault>(e@),
                Some(Ok(m)) => {
                    &&& reader_model(
                        binstruct@,
                        sources@,
                        filter@,
                        default_audio_track_id,
                        policy,
                        download,
                    ) == Ok::<MuxModel, MuxerFault>(m@)
                    &&& m@.wf()
                },
            },
    {
        let shared = share(download);
        let kept: Vec<u32> = ready_tracks(&binstruct, &sources, &filter);
        Self::build(binstruct, sources, kept, default_audio_track_id, policy, shared)
    }

    /// A reader for exactly the tracks of `filter`.
    fn build(
        binstruct: Arc<BinstructFile>,
        sources: HashMap<u32, TrackSource>,
        filter: Vec<u32>,
        default_audio_track_id: u32,
        policy: ReadPolicy,
        shared: Shared<dyn DownloadState>,
    ) -> (r: Option<Result<Self, MuxerError>>)
        ensures
            match r {
                None => !muxable(binstruct@, sources@, filter@, default_audio_track_id),
                Some(Err(e)) => mux_plan(binstruct@, sources@, filter@, default_audio_track_id)
                    == Err::<Plan, MuxerFault>(e@),
                Some(Ok(m)) => {
                    &&& mux_plan(binstruct@, sources@, filter@, default_audio_track_id) == Ok::<
                        Plan,
                        MuxerFault,
                    >(m@.plan)
                    &&& m@.raws == raw_models(sources@)
                    &&& m@.policy == policy
                    &&& m@.waits == waits_of(shared.inner, policy)
                    &&& m@.wf()
                },
            },
    {
        let ghost b = binstruct@;
        let tracks_meta: HashMap<u32, TrackMeta> = match gather_metas(
            &binstruct,
            &sources,
            &filter,
        ) {
            None => return None,
            Some(Err(e)) => return Some(Err(e)),
            Some(Ok(m)) => m,
        };
        let layout: Layout = match try_plan_layout(
            &binstruct,
            &filter,
            &tracks_meta,
            default_audio_track_id,
        ) {
            None => return None,
            Some(Err(e)) => return Some(Err(e)),
            Some(Ok(l)) => l,
        };
        let ghost models = meta_models(tracks_meta@);
        assert forall|t: u32| filter@.contains(t) implies #[trigger] tracks_meta@.contains_key(
            t,
        ) by {
            assert(models.contains_key(t));
        }
        if !all_readable(&sources, &filter, &tracks_meta) {
            proof {
                if muxable(b, sources@, filter@, default_audio_track_id) {
                    let t = choose|t: u32|
                        filter@.contains(t) && !track_readable(
                            #[trigger] models[t],
                            source_frame_size(sources@, t),
                        );
                    assert(models[t] == track_model(b, sources@, t));
                }
            }
            return None;
        }
        let tracks_element_bytes: Vec<u8> = match build_tracks_element_bytes(
            &binstruct,
            &filter,
            default_audio_track_id,
        ) {
            Ok(v) => v,
            Err(e) => return Some(Err(e)),
        };
        let ghost plan = plan_of(
            b,
            filter@,
            meta_models(tracks_meta@),
            default_audio_track_id,
        )->Ok_0;
        proof {
            lemma_layout_blocks(layout, plan, tracks_meta@);
            crate::muxer::plan::lemma_cues_of_layout(layout, plan);
            crate::muxer::plan::lemma_plan_totals(plan);
        }
        let cues_bytes: Vec<u8> = build_cues_bytes(
            &layout.sections,
            &layout.cluster_offsets,
            &tracks_meta,
        );
        let pre_size: u64 = binstruct.mkv_skeleton.pre_tracks_blob.len() as u64;
        let post_size: u64 = binstruct.mkv_skeleton.post_tracks_blob.len() as u64;
        let tracks_size: u64 = tracks_element_bytes.len() as u64;
        let seekhead_bytes: Vec<u8> = build_seekhead_bytes(
            0,
            pre_size,
            pre_size + tracks_size,
            post_size > 0,
            layout.cues_offset,
        );
        proof {
            let mm = MuxModel {
                plan,
                raws: raw_models(sources@),
                policy,
                waits: waits_of(shared.inner, policy),
            };
            assert forall|t: u32| #[trigger] plan.models.contains_key(t) implies track_readable(
                plan.models[t],
                if mm.raws.contains_key(t) {
                    mm.raws[t].cbr_frame_size
                } else {
                    None
                },
            ) by {
                assert(filter@.contains(t));
                assert(track_readable(models[t], source_frame_size(sources@, t)));
            }
            assert(mm.wf());
        }
        Some(
            Ok(
                Self {
                    binstruct,
                    sources,
                    tracks_meta,
                    layout,
                    tracks_element_bytes,
                    cues_bytes,
                    seekhead_bytes,
                    policy,
                    download: shared,
                    plan: Ghost(plan),
                },
            ),
        )
    }

    /// A reader for the tracks of `filter`. Tracks that lack their frame index are left
    /// out until it is there.
    pub fn new(
        binstruct: Arc<BinstructFile>,
        sources: HashMap<u32, TrackSource>,
        filter: Vec<u32>,
        default_audio_track_id: u32,
        policy: ReadPolicy,
        download: Arc<dyn DownloadState>,
    ) -> (r: Result<Self, MuxerError>)
        requires
            servable(binstruct@, sources@, filter@, default_audio_track_id),
        ensures
            match reader_model(
                binstruct@,
                sources@,
                filter@,
                default_audio_track_id,
                policy,
                download,
            ) {
                Err(fault) => r matches Err(e) && e@ == fault,
                Ok(model) => r matches Ok(m) && m@ == model && m@.wf(),
            },
    {
        let shared = share(download);
        let kept: Vec<u32> = ready_tracks(&binstruct, &sources, &filter);
        match Self::build(binstruct, sources, kept, default_audio_track_id, policy, shared) {
            Some(r) => r,
            None => Err(MuxerError::Shutdown),
        }
    }

    pub fn total_size(&self) -> (r: u64)
        ensures
            r == total(self@.plan.pieces()),
    {
        proof {
            use_type_invariant(self);
        }
        self.layout.total_size
    }

    /// Returns the cluster_offsets array (used by tests and debug tools).
    pub fn cluster_offsets(&self) -> (r: &[u64])
        ensures
            r@ == self@.plan.cluster_offsets(),
    {
        proof {
            use_type_invariant(self);
        }
        self.layout.cluster_offsets.as_slice()
    }

    /// The number of the first section that ends after `offset`.
    fn first_section(&self, offset: u64) -> (r: usize)
        requires
            offset < total(self@.plan.pieces()),
        ensures
            r < self@.plan.pieces().len(),
            sum_len(self@.plan.pieces(), r as nat) <= offset < sum_len(
                self@.plan.pieces(),
                (r + 1) as nat,
            ),
    {
        proof {
            use_type_invariant(self);
        }
        let ghost p = self@.plan.pieces();
        let sections: &Vec<SectionEntry> = &self.layout.sections;
        let mut lo: usize = 0;
        let mut hi: usize = sections.len();
        while lo < hi
            invariant
                sections@ == entries_of(p, 0),
                total(p) <= u64::MAX,
                offset < total(p),
                lo <= hi <= p.len(),
                sum_len(p, lo as nat) <= offset,
                hi < p.len() ==> offset < sum_len(p, (hi + 1) as nat),
            decreases hi - lo,
        {
            let mid: usize = lo + (hi - lo) / 2;
            proof {
                crate::muxer::plan::lemma_sum_len_grows(p, (mid + 1) as nat, p.len());
                assert(sum_len(p, (mid + 1) as nat) == sum_len(p, mid as nat)
                    + p[mid as int].len);
            }
            let e: SectionEntry = sections[mid];
            if e.virtual_offset + e.byte_len <= offset {
                lo = mid + 1;
            } else {
                hi = mid;
            }
        }
        lo
    }

    /// Appends the bytes from `local_start` up to `local_end` of section `idx`.
    fn append_section_range(
        &self,
        idx: usize,
        local_start: u64,
        local_end: u64,
        out: &mut Vec<u8>,
    ) -> (r: Result<(), MuxerError>)
        requires
            idx < self@.plan.pieces().len(),
            local_start <= local_end <= self@.plan.pieces()[idx as int].len,
        ensures
            ({
                let mm = self@;
                let p = mm.plan.pieces()[idx as int];
                match r {
                    Ok(_) => exists|bytes: Seq<u8>| #[trigger]
                        mm.allows(p.section, bytes) && bytes.len() == p.len && final(out)@ == old(
                            out,
                        )@ + bytes.subrange(local_start as int, local_end as int),
                    Err(e) => p.section is SimpleBlock && p.len > 0 && mm.refuses(p.section, e@),
                }
            }),
    {
        proof {
            use_type_invariant(self);
            reveal(MuxModel::section_bytes);
            reveal(MuxModel::padded_block);
        }
        let ghost mm = self@;
        let ghost p = mm.plan.pieces()[idx as int];
        let ghost content = mm.section_bytes(p.section);
        let entry: SectionEntry = self.layout.sections[idx];
        proof {
            lemma_section_len(mm, idx as int);
            crate::muxer::plan::lemma_piece_kinds(mm.plan, idx as int);
            let e = entries_of(mm.plan.pieces(), 0)[idx as int];
            assert(block_sound(e.section, mm.plan.models, mm.plan.times.len()));
            if !(p.section is SimpleBlock) {
                lemma_plain_section(mm, idx as int);
                assert(mm.allows(p.section, content->Ok_0));
            }
        }
        match entry.section {
            LayoutSection::PreTracksBlob => {
                let src: &Vec<u8> = &self.binstruct.mkv_skeleton.pre_tracks_blob;
                append_part(out, src.as_slice(), local_start, local_end);
            },
            LayoutSection::TracksElement { default_track_id } => {
                append_part(out, self.tracks_element_bytes.as_slice(), local_start, local_end);
            },
            LayoutSection::PostTracksBlob => {
                let src: &Vec<u8> = &self.binstruct.mkv_skeleton.post_tracks_blob;
                append_part(out, src.as_slice(), local_start, local_end);
            },
            LayoutSection::ClusterHeader { cluster_index } => {
                let ts: u64 = self.layout.cluster_timestamps[cluster_index as usize];
                let bytes: [u8; 22] = build_cluster_header_bytes(ts);
                append_part(out, bytes.as_slice(), local_start, local_end);
            },
            LayoutSection::SimpleBlock { cluster_index, track_id, frame_index, payload_size } => {
                let bytes: Vec<u8> = match self.build_simple_block(
                    cluster_index,
                    track_id,
                    frame_index,
                    payload_size,
                ) {
                    Ok(v) => v,
                    Err(e) => return Err(e),
                };
                append_part(out, bytes.as_slice(), local_start, local_end);
                assert(mm.allows(p.section, bytes@));
            },
            LayoutSection::Cues => {
                append_part(out, self.cues_bytes.as_slice(), local_start, local_end);
            },
            LayoutSection::SeekHead => {
                append_part(out, self.seekhead_bytes.as_slice(), local_start, local_end);
            },
        }
        Ok(())
    }

    fn build_simple_block(
        &self,
        cluster_index: u32,
        track_id: u32,
        frame_index: u32,
        payload_size: u32,
    ) -> (r: Result<Vec<u8>, MuxerError>)
        requires
            block_sound(
                LayoutSection::SimpleBlock { cluster_index, track_id, frame_index, payload_size },
                self@.plan.models,
                self@.plan.times.len(),
            ),
        ensures
            ({
                let mm = self@;
                let s = LayoutSection::SimpleBlock {
                    cluster_index,
                    track_id,
                    frame_index,
                    payload_size,
                };
                match r {
                    Ok(b) => mm.allows(s, b@) && b@.len() == block_len(
                        mm.plan.models[track_id].track_number,
                        payload_size as nat,
                    ),
                    Err(e) => mm.refuses(s, e@),
                }
            }),
    {
        proof {
            use_type_invariant(self);
            reveal(MuxModel::section_bytes);
            reveal(MuxModel::padded_block);
        }
        let ghost mm = self@;
        let ghost m = mm.plan.models[track_id];
        assert(self.tracks_meta@.contains_key(track_id));
        let meta: &TrackMeta = match self.tracks_meta.get(&track_id) {
            Some(m) => m,
            None => return Err(MuxerError::MissingTrack(track_id)),
        };
        assert(m == meta@);
        let source: &TrackSource = match self.sources.get(&track_id) {
            Some(s) => s,
            None => return Err(MuxerError::MissingTrack(track_id)),
        };
        proof {
            assert(mm.raws[track_id] == raw_model(*source));
            assert(mm.plan.models.contains_key(track_id));
            lemma_readable(m, source.policy.cbr_frame_size, frame_index);
        }
        let cluster_ts: u64 = self.layout.cluster_timestamps[cluster_index as usize];
        let frame_ts: u64 = meta.frame_time(frame_index);
        let relative: i128 = to_signed(frame_ts) - to_signed(cluster_ts);
        assert(relative == mm.relative_time(cluster_index, track_id, frame_index));
        if relative < -32768 || relative > 32767 {
            let mut s: String = "SimpleBlock relative timestamp ".to_owned();
            push_signed_decimal(&mut s, relative);
            s.append(" overflows i16 for track ");
            push_decimal(&mut s, track_id as u128);
            s.append(" frame ");
            push_decimal(&mut s, frame_index as u128);
            return Err(MuxerError::InvalidBinstruct(s));
        }
        let keyframe: bool = match meta.codec_type {
            CodecType::Video => meta.is_keyframe(frame_index),
            // Audio frames are independently decodable.
            CodecType::Audio => true,
        };
        let vfr_index: Option<&LazyVfrIndex> = match &meta.vfr_index {
            Some(x) => Some(&**x),
            None => None,
        };
        assert(index_model(vfr_index) == m.index);
        let materialized: MaterializedFrame = match materialize_frame(
            source,
            frame_index,
            vfr_index,
            &*self.download.inner,
            self.policy,
        ) {
            Ok(f) => f,
            Err(e) => return Err(e),
        };
        let payload: Vec<u8> = match block_payload(
            meta.codec_type,
            vfr_index,
            track_id,
            frame_index,
            payload_size,
            materialized,
        ) {
            Ok(v) => v,
            Err(e) => return Err(e),
        };
        Ok(build_simple_block_bytes(meta.track_number, relative as i16, keyframe, &payload))
    }

    /// Returns the raw byte length of frame `frame_index` of track `track_id`
    /// in its raw file (helper used by tests).
    pub fn raw_frame_len(&self, track_id: u32, frame_index: u32) -> (r: Result<u32, MuxerError>)
        requires
            self@.raws.contains_key(track_id) && self@.plan.models.contains_key(track_id)
                ==> placeable(
                self@.raws[track_id].cbr_frame_size,
                self@.plan.models[track_id].index,
                frame_index,
            ),
        ensures
            if !self@.raws.contains_key(track_id) || !self@.plan.models.contains_key(track_id) {
                r matches Err(e) && e@ == MuxerFault::MissingTrack(track_id)
            } else {
                match frame_place(
                    self@.raws[track_id].cbr_frame_size,
                    self@.plan.models[track_id].index,
                    self@.raws[track_id].track_id,
                    frame_index,
                ) {
                    Ok(p) => r == Ok::<u32, MuxerError>(p.1),
                    Err(fault) => r matches Err(e) && e@ == fault,
                }
            },
    {
        proof {
            use_type_invariant(self);
        }
        let source: &TrackSource = match self.sources.get(&track_id) {
            Some(s) => s,
            None => return Err(MuxerError::MissingTrack(track_id)),
        };
        let meta: &TrackMeta = match self.tracks_meta.get(&track_id) {
            Some(m) => m,
            None => return Err(MuxerError::MissingTrack(track_id)),
        };
        assert(self@.plan.models[track_id] == meta@);
        assert(self@.raws[track_id] == raw_model(*source));
        let vfr_index: Option<&LazyVfrIndex> = match &meta.vfr_index {
            Some(x) => Some(&**x),
            None => None,
        };
        match compute_offset_and_len(source, frame_index, vfr_index) {
            Ok((_, len)) => Ok(len),
            Err(e) => Err(e),
        }
    }

    /// Stateless read: returns the bytes for `[virtual_offset, virtual_offset+length)`.
    ///
    /// May be called concurrently from any number of threads. Output length is
    /// exactly `length` bytes, unless `virtual_offset + length > total_size`,
    /// in which case the read is clamped.
    pub fn read(&self, virtual_offset: u64, length: u32) -> (r: Result<Vec<u8>, MuxerError>)
        ensures
            virtual_offset >= total(self@.plan.pieces()) ==> (r matches Ok(out) && out@.len() == 0),
            virtual_offset < total(self@.plan.pieces()) ==> match r {
                Ok(out) => {
                    &&& out@.len() == self@.read_end(virtual_offset, length) - virtual_offset
                    &&& self@.assembled(virtual_offset as int, out@)
                },
                Err(e) => self@.fails(
                    virtual_offset as int,
                    self@.read_end(virtual_offset, length),
                    e@,
                ),
            },
            self@.decided() ==> (r matches Ok(out) ==> self@.read_of(virtual_offset, length)
                == Ok::<Seq<u8>, MuxerFault>(out@)),
            self@.settled() || !self@.touches_block(
                virtual_offset as int,
                self@.read_end(virtual_offset, length),
            ) ==> match self@.read_of(virtual_offset, length) {
                Ok(bytes) => r matches Ok(out) && out@ == bytes,
                Err(fault) => r matches Err(e) && e@ == fault,
            },
    {
        proof {
            use_type_invariant(self);
        }
        let ghost mm = self@;
        let ghost p = self@.plan.pieces();
        let total_size: u64 = self.layout.total_size;
        if virtual_offset >= total_size {
            let out: Vec<u8> = Vec::new();
            assert(out@ =~= Seq::<u8>::empty());
            return Ok(out);
        }
        let req_end: u64 = if (length as u64) < total_size - virtual_offset {
            virtual_offset + length as u64
        } else {
            total_size
        };
        let want: u64 = req_end - virtual_offset;
        let ghost from = virtual_offset as int;
        let ghost to = req_end as int;
        let ghost certain = mm.decided() || !mm.touches_block(from, to);
        let mut out: Vec<u8> = Vec::new();
        let count: usize = self.layout.sections.len();
        let mut idx: usize = self.first_section(virtual_offset);
        proof {
            lemma_file_len(mm, p.len());
            assert(out@ =~= mm.file().subrange(from, from));
            assert forall|i: int| 0 <= i < idx implies !#[trigger] mm.touched(i, from, to) by {
                crate::muxer::plan::lemma_sum_len_grows(p, (i + 1) as nat, idx as nat);
            }
            assert forall|i: int| 0 <= i < idx implies !#[trigger] mm.touched(i, from, from) by {
                crate::muxer::plan::lemma_sum_len_grows(p, (i + 1) as nat, idx as nat);
            }
            lemma_first_fault(mm, 0, idx as nat, from, to);
        }
        while (out.len() as u64) < want
            invariant
                mm == self@,
                mm.wf(),
                p == mm.plan.pieces(),
                self.layout.sections@ == entries_of(p, 0),
                total(p) <= u64::MAX,
                from == virtual_offset,
                to == req_end,
                0 <= from <= to <= total(p),
                from < total(p),
                want == to - from,
                to == mm.read_end(virtual_offset, length),
                mm.file().len() == total(p),
                certain == (mm.decided() || !mm.touches_block(from, to)),
                out@.len() <= want,
                count == p.len(),
                idx <= p.len(),
                out@.len() < want ==> idx < p.len(),
                out@.len() < want ==> {
                    ||| sum_len(p, idx as nat) == from + out@.len()
                    ||| out@.len() == 0 && sum_len(p, idx as nat) <= from < sum_len(
                        p,
                        (idx + 1) as nat,
                    )
                },
                forall|i: int|
                    idx <= i < p.len() ==> !#[trigger] mm.touched(i, from, from + out@.len()),
                certain ==> out@ == mm.file().subrange(from, from + out@.len()),
                certain ==> mm.first_fault(0, from, to) == mm.first_fault(idx as nat, from, to),
                mm.unfaulted(idx as int, from, to),
                mm.assembled(from, out@),
            decreases p.len() - idx,
        {
            proof {
                use_type_invariant(self);
                assert(sum_len(p, (idx + 1) as nat) == sum_len(p, idx as nat) + p[idx as int].len);
                crate::muxer::plan::lemma_sum_len_grows(p, (idx + 1) as nat, p.len());
            }
            let entry: SectionEntry = self.layout.sections[idx];
            let section_end: u64 = entry.virtual_offset + entry.byte_len;
            let overlap_start: u64 = if virtual_offset > entry.virtual_offset {
                virtual_offset
            } else {
                entry.virtual_offset
            };
            let overlap_end: u64 = if req_end < section_end {
                req_end
            } else {
                section_end
            };
            let local_start: u64 = overlap_start - entry.virtual_offset;
            let local_end: u64 = overlap_end - entry.virtual_offset;
            let ghost before = out@;
            proof {
                assert(overlap_start == from + before.len());
            }
            match self.append_section_range(idx, local_start, local_end, &mut out) {
                Ok(()) => {},
                Err(e) => {
                    proof {
                        assert(mm.touched(idx as int, from, to));
                        assert(mm.touches_block(from, to));
                        if mm.settled() {
                            lemma_settled(mm, p[idx as int].section, e@);
                        }
                    }
                    return Err(e);
                },
            }
            proof {
                let start = sum_len(p, idx as nat) as int;
                let bytes = choose|bytes: Seq<u8>| #[trigger]
                    mm.allows(p[idx as int].section, bytes) && bytes.len() == p[idx as int].len
                        && out@ == before + bytes.subrange(local_start as int, local_end as int);
                lemma_step(mm, from, before, out@, idx as int, bytes, local_start as int);
                lemma_allowed_unfaulted(mm, p[idx as int].section, bytes);
                if mm.decided() || !(p[idx as int].section is SimpleBlock) {
                    lemma_decided(mm, p[idx as int].section, bytes);
                }
                if certain {
                    if p[idx as int].len > 0 && local_start < local_end {
                        assert(mm.touched(idx as int, from, to));
                        if !mm.decided() && p[idx as int].section is SimpleBlock {
                            assert(mm.touches_block(from, to));
                        }
                    }
                    assert(mm.section_now(p[idx as int].section) is Ok || !mm.touched(
                        idx as int,
                        from,
                        to,
                    ));
                    lemma_first_fault(mm, idx as nat, (idx + 1) as nat, from, to);
                    assert forall|k: int| 0 <= k < out@.len() implies out@[k] == mm.file()[from
                        + k] by {
                        if k < before.len() {
                            assert(before[k] == mm.file().subrange(from, from + before.len())[k]);
                        } else {
                            lemma_file_section(mm, idx as int, from + k - start);
                        }
                    }
                    assert(out@ =~= mm.file().subrange(from, from + out@.len()));
                }
                assert forall|i: int| idx + 1 <= i < p.len() implies !#[trigger] mm.touched(
                    i,
                    from,
                    from + out@.len(),
                ) by {
                    crate::muxer::plan::lemma_sum_len_grows(p, (idx + 1) as nat, i as nat);
                }
            }
            idx = idx + 1;
        }
        proof {
            if certain {
                lemma_untouched_tail(mm, idx as nat, from, to);
            }
        }
        Ok(out)
    }
}

/// Sections that a range does not touch have no fault in it.
proof fn lemma_untouched_tail(mm: MuxModel, i: nat, from: int, to: int)
    requires
        i <= mm.plan.pieces().len(),
        forall|k: int| i <= k < mm.plan.pieces().len() ==> !#[trigger] mm.touched(k, from, to),
    ensures
        mm.first_fault(i, from, to) is None,
    decreases mm.plan.pieces().len() - i,
{
    if i < mm.plan.pieces().len() {
        assert(!mm.touched(i as int, from, to));
        lemma_untouched_tail(mm, i + 1, from, to);
    }
}

/// One more section keeps what was read assembled.
proof fn lemma_step(
    mm: MuxModel,
    from: int,
    before: Seq<u8>,
    after: Seq<u8>,
    idx: int,
    bytes: Seq<u8>,
    local_start: int,
)
    requires
        0 <= idx < mm.plan.pieces().len(),
        mm.assembled(from, before),
        forall|i: int|
            idx <= i < mm.plan.pieces().len() ==> !#[trigger] mm.touched(
                i,
                from,
                from + before.len(),
            ),
        before.len() <= after.len(),
        forall|k: int| 0 <= k < before.len() ==> after[k] == before[k],
        mm.allows(mm.plan.pieces()[idx].section, bytes),
        bytes.len() == mm.plan.pieces()[idx].len,
        0 <= local_start,
        sum_len(mm.plan.pieces(), idx as nat) + local_start == from + before.len(),
        sum_len(mm.plan.pieces(), idx as nat) == from + before.len() || before.len() == 0,
        after.len() - before.len() <= bytes.len() - local_start,
        forall|k: int|
            before.len() <= k < after.len() ==> #[trigger] after[k] == bytes[local_start + k
                - before.len()],
    ensures
        mm.assembled(from, after),
{
    let p = mm.plan.pieces();
    assert forall|i: int|
        0 <= i < p.len() && #[trigger] mm.touched(
            i,
            from,
            from + after.len(),
        ) implies mm.part_allowed(i, from, after) by {
        let start = sum_len(p, i as nat);
        if i < idx {
            crate::muxer::plan::lemma_sum_len_grows(p, (i + 1) as nat, idx as nat);
            if before.len() > 0 {
                assert(mm.touched(i, from, from + before.len()));
                assert(mm.part_allowed(i, from, before));
                let b = choose|b: Seq<u8>| #[trigger]
                    mm.allows(p[i].section, b) && b.len() == p[i].len && forall|k: int|
                        0 <= k < p[i].len && from <= start + k < from + before.len()
                            ==> #[trigger] b[k] == before[start + k - from];
                assert forall|k: int|
                    0 <= k < p[i].len && from <= start + k < from
                        + after.len() implies #[trigger] b[k] == after[start + k - from] by {}
            }
        } else if i == idx {
            assert forall|k: int|
                0 <= k < p[i].len && from <= start + k < from + after.len() implies #[trigger] bytes[k]
                == after[start + k - from] by {
                assert(after[start + k - from] == bytes[local_start + (start + k - from)
                    - before.len()]);
            }
        } else {
            crate::muxer::plan::lemma_sum_len_grows(p, (idx + 1) as nat, i as nat);
        }
    }
}

} // verus!
