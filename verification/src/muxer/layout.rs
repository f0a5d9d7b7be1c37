//! The sections of a virtual Matroska file: what they hold and where they stand.
use crate::binstruct::{
    BinstructFile, CodecType, EntryModel, PolicyModel, TrackEntryRecord, TrackPolicy,
};
use crate::bytes::{append_bytes, be_bytes, lemma_be_bytes_len, push_be, to_vec};
use crate::ids::contains_id;
use crate::muxer::ebml::{
    encode_vint, find_flag_default_value_offset, flag_default_at, lemma_flag_default_bounds,
    lemma_mkv_elem_len, mkv_elem, vint_len, write_element, write_vint, write_vint_with_len,
    UNKNOWN_SIZE_8B,
};
use crate::muxer::transformer::sum_to;
use crate::muxer::types::{MuxerError, MuxerFault};
use crate::muxer::vfr_index::{clip, first_from, indexed, time_at, IndexModel, LazyVfrIndex};
use crate::vfr::length_bytes;
use crate::vint::{lemma_vint_bytes_len, vint_bytes, vint_size};
use std::sync::Arc;
use vstd::prelude::*;

verus! {

/// Type of layout section. Every section maps a contiguous virtual byte range
/// to a source that can produce those bytes on demand.
#[derive(Debug, Clone, Copy, PartialEq, Eq)]
pub enum LayoutSection {
    PreTracksBlob,
    TracksElement { default_track_id: u32 },
    PostTracksBlob,
    ClusterHeader { cluster_index: u32 },
    SimpleBlock { cluster_index: u32, track_id: u32, frame_index: u32, payload_size: u32 },
    Cues,
    SeekHead,
}

#[derive(Debug, Clone, Copy, PartialEq, Eq)]
pub struct SectionEntry {
    pub virtual_offset: u64,
    pub byte_len: u64,
    pub section: LayoutSection,
}

#[derive(Debug)]
pub struct Layout {
    pub sections: Vec<SectionEntry>,
    pub cluster_offsets: Vec<u64>,
    pub total_size: u64,
    pub cues_offset: u64,
    pub seekhead_offset: u64,
    /// Absolute timestamp of each cluster in TimecodeScale units (same units
    /// as MKV Block timestamps).
    pub cluster_timestamps: Vec<u64>,
}

/// Per-track frame metadata used by the layout planner.
pub struct TrackMeta {
    pub track_id: u32,
    pub track_number: u64,
    pub codec_type: CodecType,
    pub frame_count: u32,
    pub frame_duration: u64,
    pub cbr_frame_size: Option<u32>,
    pub vfr_index: Option<Arc<LazyVfrIndex>>,
}

/// What a [`TrackMeta`] tells about a track.
pub ghost struct TrackModel {
    pub track_number: u64,
    pub codec_type: CodecType,
    pub frame_count: u32,
    pub frame_duration: u64,
    pub cbr_frame_size: Option<u32>,
    pub index: Option<IndexModel>,
}

impl View for TrackMeta {
    type V = TrackModel;

    open spec fn view(&self) -> TrackModel {
        TrackModel {
            track_number: self.track_number,
            codec_type: self.codec_type,
            frame_count: self.frame_count,
            frame_duration: self.frame_duration,
            cbr_frame_size: self.cbr_frame_size,
            index: match self.vfr_index {
                Some(x) => Some(x@),
                None => None,
            },
        }
    }
}

impl TrackModel {
    /// Whether all frames have one size and one duration.
    pub open spec fn is_cbr(self) -> bool {
        self.cbr_frame_size is Some && self.index is None
    }

    /// Whether the start of frame `f` is known and fits in 64 bits.
    pub open spec fn timed(self, f: u32) -> bool {
        if self.is_cbr() {
            f * self.frame_duration <= u64::MAX
        } else {
            self.index matches Some(x) && indexed(x.frames, f)
        }
    }

    /// The start of frame `f`.
    pub open spec fn time_of(self, f: u32) -> u64 {
        if self.is_cbr() {
            (f * self.frame_duration) as u64
        } else {
            let x = self.index->0;
            time_at(x.frames, x.base, clip(x.frames, f))
        }
    }

    /// The start of frame `f` where all frames have one duration.
    pub open spec fn even_time(self, f: u32) -> int {
        f * self.frame_duration
    }

    /// The first frame that starts at `ts` or later, at most the number of frames.
    pub open spec fn frame_at(self, ts: u64) -> u32 {
        let first: int = if self.is_cbr() {
            if self.frame_duration == 0 {
                0
            } else if ts % self.frame_duration == 0 {
                ts as int / self.frame_duration as int
            } else {
                ts as int / self.frame_duration as int + 1
            }
        } else {
            let x = self.index->0;
            first_from(x.frames, x.base, ts, 0) as u32 as int
        };
        if first < self.frame_count {
            first as u32
        } else {
            self.frame_count
        }
    }

    /// Whether the payload size of frame `f` is known and fits in 32 bits.
    pub open spec fn sized(self, f: u32) -> bool {
        match self.codec_type {
            CodecType::Audio => self.cbr_frame_size is Some || (self.index matches Some(x) && f
                < x.frames.len()),
            CodecType::Video => self.index matches Some(x) && x.has_nals(f as int) && {
                let nals = x.nals_of(f as int);
                4 * nals.len() + sum_to(nals, nals.len()) <= u32::MAX
            },
        }
    }

    /// The payload size of frame `f` in its block: for video four bytes per NAL unit
    /// and the units, else the size of the frame.
    pub open spec fn payload_of(self, f: u32) -> u32 {
        match self.codec_type {
            CodecType::Audio => match self.cbr_frame_size {
                Some(c) => c,
                None => self.index->0.frames[f as int].frame_size,
            },
            CodecType::Video => {
                let nals = self.index->0.nals_of(f as int);
                (4 * nals.len() + sum_to(nals, nals.len())) as u32
            },
        }
    }

    /// Whether frame `f` is a keyframe of an indexed track.
    pub open spec fn is_key(self, f: u32) -> bool {
        match self.index {
            Some(x) => x.frames[f as int].flags & 0x01 != 0,
            None => false,
        }
    }
}

/// The sum of two numbers where it fits.
fn sum_or_none(a: u64, b: u64) -> (r: Option<u64>)
    ensures
        match r {
            Some(s) => s == a + b,
            None => a + b > u64::MAX,
        },
{
    if b > u64::MAX - a {
        None
    } else {
        Some(a + b)
    }
}

/// The sum of `lens` where it fits.
fn sum_of(lens: &[u64]) -> (r: Option<u64>)
    ensures
        match r {
            Some(s) => s == sum_to(lens@, lens@.len()),
            None => sum_to(lens@, lens@.len()) > u64::MAX,
        },
{
    let mut sum: u64 = 0;
    let mut k: usize = 0;
    while k < lens.len()
        invariant
            k <= lens@.len(),
            sum == sum_to(lens@, k as nat),
        decreases lens@.len() - k,
    {
        proof {
            lemma_sum_to_grows(lens@, (k + 1) as nat, lens@.len());
        }
        match sum_or_none(sum, lens[k]) {
            Some(s) => {
                sum = s;
            },
            None => return None,
        }
        k = k + 1;
    }
    Some(sum)
}

impl TrackMeta {
    /// Whether the index, if there is one, is in order.
    pub open spec fn wf(&self) -> bool {
        self.vfr_index matches Some(x) ==> x.wf()
    }

    pub fn is_cbr(&self) -> (r: bool)
        ensures
            r == self@.is_cbr(),
    {
        self.cbr_frame_size.is_some() && self.vfr_index.is_none()
    }

    /// Timestamp (start) of `frame_index` in TimecodeScale units.
    pub fn frame_time(&self, frame_index: u32) -> (r: u64)
        requires
            self.wf(),
            self@.timed(frame_index),
        ensures
            r == self@.time_of(frame_index),
    {
        if self.is_cbr() {
            frame_index as u64 * self.frame_duration
        } else {
            match &self.vfr_index {
                Some(idx) => idx.frame_time(frame_index),
                None => 0,
            }
        }
    }

    /// Smallest `frame_index` whose start time is `>= ts`, at most the frame count.
    pub fn frame_at_time(&self, ts: u64) -> (r: u32)
        requires
            self.wf(),
            self.cbr_frame_size is Some || self.vfr_index is Some,
        ensures
            r == self@.frame_at(ts),
    {
        let first: u64 = if self.is_cbr() {
            if self.frame_duration == 0 {
                0
            } else {
                let q: u64 = ts / self.frame_duration;
                if ts % self.frame_duration == 0 {
                    q
                } else {
                    assert(q < u64::MAX) by (nonlinear_arith)
                        requires
                            q == ts / self.frame_duration,
                            self.frame_duration >= 1,
                            ts % self.frame_duration != 0,
                            0 <= ts <= u64::MAX,
                    ;
                    q + 1
                }
            }
        } else {
            match &self.vfr_index {
                Some(idx) => idx.frame_at_time(ts) as u64,
                None => 0,
            }
        };
        if first < self.frame_count as u64 {
            first as u32
        } else {
            self.frame_count
        }
    }

    /// The payload size of `frame_index`, if it is known and fits in 32 bits.
    pub fn checked_payload_size(&self, frame_index: u32) -> (r: Option<u32>)
        requires
            self.wf(),
        ensures
            match r {
                Some(n) => self@.sized(frame_index) && n == self@.payload_of(frame_index),
                None => !self@.sized(frame_index),
            },
    {
        match self.codec_type {
            CodecType::Audio => match self.cbr_frame_size {
                Some(cf) => Some(cf),
                None => match &self.vfr_index {
                    Some(idx) => {
                        if (frame_index as u64) < idx.vfr.frames.len() as u64 {
                            Some(idx.frame_size(frame_index))
                        } else {
                            None
                        }
                    },
                    None => None,
                },
            },
            CodecType::Video => match &self.vfr_index {
                Some(idx) => {
                    if !idx.has_nal_lengths_of(frame_index) {
                        return None;
                    }
                    let nals: &[u64] = idx.nal_lengths_of_frame(frame_index);
                    let sum: u64 = match sum_of(nals) {
                        Some(s) => s,
                        None => return None,
                    };
                    let prefix: u64 = 4 * nals.len() as u64;
                    match sum_or_none(prefix, sum) {
                        Some(size) => {
                            if size > u32::MAX as u64 {
                                None
                            } else {
                                Some(size as u32)
                            }
                        },
                        None => None,
                    }
                },
                None => None,
            },
        }
    }

    /// Emitted payload size (post-transform) of `frame_index`.
    pub fn payload_size(&self, frame_index: u32) -> (r: u32)
        requires
            self.wf(),
            self@.sized(frame_index),
        ensures
            r == self@.payload_of(frame_index),
    {
        match self.checked_payload_size(frame_index) {
            Some(n) => n,
            None => 0,
        }
    }

    /// Returns true if `frame_index` is a keyframe (only meaningful for video).
    pub fn is_keyframe(&self, frame_index: u32) -> (r: bool)
        requires
            self.vfr_index matches Some(x) ==> frame_index < x.vfr.frames@.len(),
        ensures
            r == self@.is_key(frame_index),
    {
        match &self.vfr_index {
            Some(idx) => idx.vfr.frames[frame_index as usize].is_keyframe(),
            // CBR audio: every frame is independently decodable; conservatively
            // *do not* emit Cues for audio tracks.
            None => false,
        }
    }
}

proof fn lemma_sum_to_grows(lens: Seq<u64>, i: nat, j: nat)
    requires
        i <= j,
    ensures
        sum_to(lens, i) <= sum_to(lens, j),
    decreases j,
{
    if i < j {
        lemma_sum_to_grows(lens, i, (j - 1) as nat);
    }
}

/// With one duration for all frames, `frame_at` finds the least frame that starts
/// at `ts` or later, if the track has one.
pub proof fn cbr_frame_at_is_least(m: TrackModel, ts: u64)
    requires
        m.is_cbr(),
        m.frame_duration > 0,
    ensures
        m.frame_at(ts) < m.frame_count ==> m.even_time(m.frame_at(ts)) >= ts,
        forall|f: u32| f < m.frame_at(ts) ==> #[trigger] m.even_time(f) < ts,
{
    let d = m.frame_duration as int;
    let t = ts as int;
    let q = t / d;
    let r = t % d;
    vstd::arithmetic::div_mod::lemma_fundamental_div_mod(t, d);
    vstd::arithmetic::div_mod::lemma_mod_bound(t, d);
    assert forall|f: u32| f < m.frame_at(ts) implies #[trigger] m.even_time(f) < ts by {
        let g = f as int;
        if r == 0 {
            assert(g * d < t) by (nonlinear_arith)
                requires
                    g < q,
                    t == d * q,
                    d > 0,
            ;
        } else {
            assert(g * d < t) by (nonlinear_arith)
                requires
                    g <= q,
                    t == d * q + r,
                    r > 0,
                    d > 0,
            ;
        }
    }
    if m.frame_at(ts) < m.frame_count {
        let g = m.frame_at(ts) as int;
        assert(g * d >= t) by (nonlinear_arith)
            requires
                r == 0 ==> g == q,
                r != 0 ==> g == q + 1,
                t == d * q + r,
                0 <= r < d,
        ;
    }
}

/// Byte length of a block element.
pub open spec fn block_len(track_number: u64, payload_size: nat) -> nat {
    let content = vint_size(track_number) + 3 + payload_size;
    1 + vint_size(content as u64) + content
}

/// Byte length of a SimpleBlock element for the given track and payload size.
pub fn simple_block_byte_len(track_number: u64, payload_size: u32) -> (r: u64)
    ensures
        r == block_len(track_number, payload_size as nat),
{
    let vint_tn: u64 = vint_len(track_number) as u64;
    let content_size: u64 = vint_tn + 2 + 1 + payload_size as u64;
    1 + vint_len(content_size) as u64 + content_size
}

/// Byte length of a Cluster header (ID + 8-byte unknown size + Timestamp element).
pub const CLUSTER_HEADER_SIZE: u64 = 22;

/// The two bytes of a signed 16-bit number, most significant first.
pub open spec fn i16_be(v: int) -> Seq<u8> {
    be_bytes(
        if v < 0 {
            (v + 0x1_0000) as nat
        } else {
            v as nat
        },
        2,
    )
}

/// A block element: track number, relative time, flags, payload.
pub open spec fn block_bytes(
    track_number: u64,
    relative_ts: int,
    keyframe: bool,
    payload: Seq<u8>,
) -> Seq<u8> {
    mkv_elem(
        seq![0xA3u8],
        length_bytes(track_number) + i16_be(relative_ts) + seq![
            if keyframe {
                0x80u8
            } else {
                0x00u8
            },
        ] + payload,
    )
}

/// A block element is as long as planned.
pub proof fn block_bytes_len(track_number: u64, relative_ts: int, keyframe: bool, payload: Seq<u8>)
    ensures
        block_bytes(track_number, relative_ts, keyframe, payload).len() == block_len(
            track_number,
            payload.len(),
        ),
{
    let p = if relative_ts < 0 {
        (relative_ts + 0x1_0000) as nat
    } else {
        relative_ts as nat
    };
    lemma_be_bytes_len(p, 2);
    lemma_vint_bytes_len(track_number, vint_size(track_number));
    let content = length_bytes(track_number) + i16_be(relative_ts) + seq![
        if keyframe {
            0x80u8
        } else {
            0x00u8
        },
    ] + payload;
    lemma_mkv_elem_len(seq![0xA3u8], content);
}

/// Build the SimpleBlock element bytes for a frame with post-transform payload
/// `payload`. `relative_ts` is `frame_ts - cluster_ts` in TimecodeScale units.
pub fn build_simple_block_bytes(
    track_number: u64,
    relative_ts: i16,
    keyframe: bool,
    payload: &[u8],
) -> (r: Vec<u8>)
    ensures
        r@ == block_bytes(track_number, relative_ts as int, keyframe, payload@),
        r@.len() == block_len(track_number, payload@.len()),
{
    let mut content: Vec<u8> = encode_vint(track_number);
    let pattern: u64 = if relative_ts < 0 {
        (0x1_0000i32 + relative_ts as i32) as u64
    } else {
        relative_ts as u64
    };
    push_be(&mut content, pattern, 2);
    content.push(
        if keyframe {
            0x80
        } else {
            0x00
        },
    );
    append_bytes(&mut content, payload);
    let id: [u8; 1] = [0xA3u8];
    let mut out: Vec<u8> = Vec::new();
    write_element(&mut out, &id, &content);
    proof {
        assert(id@ =~= seq![0xA3u8]);
        assert(content@ =~= length_bytes(track_number) + i16_be(relative_ts as int) + seq![
            if keyframe {
                0x80u8
            } else {
                0x00u8
            },
        ] + payload@);
        assert(out@ =~= block_bytes(track_number, relative_ts as int, keyframe, payload@));
        block_bytes_len(track_number, relative_ts as int, keyframe, payload@);
    }
    out
}

/// The head of a cluster of unknown size with timestamp `ts`.
pub open spec fn cluster_header(ts: u64) -> Seq<u8> {
    seq![0x1Fu8, 0x43u8, 0xB6u8, 0x75u8] + vint_bytes(UNKNOWN_SIZE_8B, 8) + seq![0xE7u8]
        + length_bytes(8) + be_bytes(ts as nat, 8)
}

pub proof fn lemma_cluster_header_len(ts: u64)
    ensures
        cluster_header(ts).len() == 22,
{
    lemma_vint_bytes_len(UNKNOWN_SIZE_8B, 8);
    lemma_vint_bytes_len(8, vint_size(8));
    lemma_be_bytes_len(ts as nat, 8);
}

/// Build the 22-byte cluster header for a cluster with timestamp `ts`:
/// Cluster ID (4 bytes), unknown size (8-byte VINT), Timestamp ID (1 byte),
/// VINT(8) (1 byte), timestamp (8 bytes, big-endian).
pub fn build_cluster_header_bytes(ts: u64) -> (r: [u8; 22])
    ensures
        r@ == cluster_header(ts),
{
    let mut out: Vec<u8> = Vec::new();
    append_bytes(&mut out, &[0x1Fu8, 0x43u8, 0xB6u8, 0x75u8]);
    write_vint_with_len(&mut out, UNKNOWN_SIZE_8B, 8);
    out.push(0xE7);
    write_vint(&mut out, 8);
    push_be(&mut out, ts, 8);
    assert(out@ =~= cluster_header(ts));
    proof {
        lemma_cluster_header_len(ts);
    }
    let mut buf: [u8; 22] = [0u8; 22];
    let mut i: usize = 0;
    while i < 22
        invariant
            i <= 22,
            out@.len() == 22,
            forall|k: int| 0 <= k < i ==> buf@[k] == out@[k],
        decreases 22 - i,
    {
        buf[i] = out[i];
        i = i + 1;
    }
    assert(buf@ =~= out@);
    buf
}

/// A track entry with its FlagDefault, if it has one, set to `value`.
pub open spec fn patched(bytes: Seq<u8>, value: u8) -> Result<Seq<u8>, MuxerFault> {
    match flag_default_at(bytes) {
        Err(e) => Err(e),
        Ok(None) => Ok(bytes),
        Ok(Some(off)) => Ok(bytes.update(off, value)),
    }
}

/// The value of FlagDefault for a track.
pub open spec fn default_flag(track_id: u64, default_id: u32) -> u8 {
    if track_id as u32 == default_id {
        1
    } else {
        0
    }
}

/// The patched entries of the wanted tracks among `entries`, after `acc`.
pub open spec fn tracks_content_from(
    acc: Seq<u8>,
    entries: Seq<EntryModel>,
    filter: Seq<u32>,
    default_id: u32,
    k: nat,
) -> Result<Seq<u8>, MuxerFault>
    decreases entries.len() - k,
{
    if k >= entries.len() {
        Ok(acc)
    } else {
        let e = entries[k as int];
        if !filter.contains(e.track_id as u32) {
            tracks_content_from(acc, entries, filter, default_id, k + 1)
        } else {
            match patched(e.bytes, default_flag(e.track_id, default_id)) {
                Err(fault) => Err(fault),
                Ok(bytes) => tracks_content_from(acc + bytes, entries, filter, default_id, k + 1),
            }
        }
    }
}

/// The Tracks element of the virtual file.
pub open spec fn tracks_element(
    entries: Seq<EntryModel>,
    filter: Seq<u32>,
    default_id: u32,
) -> Result<Seq<u8>, MuxerFault> {
    match tracks_content_from(Seq::empty(), entries, filter, default_id, 0) {
        Err(e) => Err(e),
        Ok(content) => Ok(mkv_elem(seq![0x16u8, 0x54u8, 0xAEu8, 0x6Bu8], content)),
    }
}

/// The total length of the wanted tracks among the first `k` entries.
pub open spec fn entries_len(entries: Seq<EntryModel>, filter: Seq<u32>, k: nat) -> nat
    decreases k,
{
    if k == 0 {
        0
    } else {
        let e = entries[k - 1];
        entries_len(entries, filter, (k - 1) as nat) + if filter.contains(e.track_id as u32) {
            e.bytes.len()
        } else {
            0
        }
    }
}

/// The length of the Tracks element.
pub open spec fn tracks_len(entries: Seq<EntryModel>, filter: Seq<u32>) -> nat {
    let content = entries_len(entries, filter, entries.len());
    4 + vint_size(content as u64) + content
}

/// Whether `a` and `b` are alike but for the byte at `at`.
pub open spec fn alike_but(a: Seq<u8>, b: Seq<u8>, at: int) -> bool {
    &&& a.len() == b.len()
    &&& forall|i: int| 0 <= i < a.len() && i != at ==> a[i] == b[i]
}

/// A patch changes at most one byte and keeps the length.
pub proof fn patch_keeps_all_but_one_byte(bytes: Seq<u8>, value: u8)
    ensures
        patched(bytes, value) matches Ok(out) ==> out.len() == bytes.len() && exists|at: int|
            alike_but(out, bytes, at),
{
    lemma_flag_default_bounds(bytes);
    if let Ok(out) = patched(bytes, value) {
        let at = match flag_default_at(bytes) {
            Ok(Some(off)) => off,
            _ => -1,
        };
        assert(alike_but(out, bytes, at));
    }
}

proof fn lemma_tracks_content_len(
    acc: Seq<u8>,
    entries: Seq<EntryModel>,
    filter: Seq<u32>,
    default_id: u32,
    k: nat,
)
    requires
        k <= entries.len(),
    ensures
        tracks_content_from(acc, entries, filter, default_id, k) matches Ok(out) ==> out.len()
            == acc.len() + entries_len(entries, filter, entries.len()) - entries_len(
            entries,
            filter,
            k,
        ),
    decreases entries.len() - k,
{
    if k < entries.len() {
        let e = entries[k as int];
        if !filter.contains(e.track_id as u32) {
            lemma_tracks_content_len(acc, entries, filter, default_id, k + 1);
        } else {
            let flag = default_flag(e.track_id, default_id);
            patch_keeps_all_but_one_byte(e.bytes, flag);
            if let Ok(bytes) = patched(e.bytes, flag) {
                lemma_tracks_content_len(acc + bytes, entries, filter, default_id, k + 1);
            }
        }
    }
}

/// The Tracks element has the same length whichever track is the default.
pub proof fn tracks_element_len(entries: Seq<EntryModel>, filter: Seq<u32>, default_id: u32)
    ensures
        tracks_element(entries, filter, default_id) matches Ok(out) ==> out.len() == tracks_len(
            entries,
            filter,
        ),
{
    lemma_tracks_content_len(Seq::empty(), entries, filter, default_id, 0);
    if let Ok(content) = tracks_content_from(Seq::empty(), entries, filter, default_id, 0) {
        lemma_mkv_elem_len(seq![0x16u8, 0x54u8, 0xAEu8, 0x6Bu8], content);
    }
}

/// Build the Tracks element bytes, patching FlagDefault to 1 only on the
/// TrackEntry with `default_audio_track_id` (0 everywhere else).
///
/// The patch modifies a single byte without changing the total size.
pub fn build_tracks_element_bytes(
    binstruct: &BinstructFile,
    filter: &[u32],
    default_audio_track_id: u32,
) -> (r: Result<Vec<u8>, MuxerError>)
    ensures
        match tracks_element(
            binstruct@.mkv_skeleton.track_entries,
            filter@,
            default_audio_track_id,
        ) {
            Ok(bytes) => r matches Ok(v) && v@ == bytes && v@.len() == tracks_len(
                binstruct@.mkv_skeleton.track_entries,
                filter@,
            ),
            Err(fault) => r matches Err(e) && e@ == fault,
        },
{
    let ghost entries = binstruct@.mkv_skeleton.track_entries;
    let mut content: Vec<u8> = Vec::new();
    let mut k: usize = 0;
    assert(content@ =~= Seq::<u8>::empty());
    while k < binstruct.mkv_skeleton.track_entries.len()
        invariant
            entries == binstruct@.mkv_skeleton.track_entries,
            k <= entries.len(),
            entries.len() == binstruct.mkv_skeleton.track_entries@.len(),
            tracks_content_from(Seq::empty(), entries, filter@, default_audio_track_id, 0)
                == tracks_content_from(
                content@,
                entries,
                filter@,
                default_audio_track_id,
                k as nat,
            ),
        decreases entries.len() - k,
    {
        let te: &TrackEntryRecord = &binstruct.mkv_skeleton.track_entries[k];
        assert(entries[k as int] == te@);
        if contains_id(filter, te.track_id as u32) {
            let mut bytes: Vec<u8> = to_vec(&te.bytes);
            let flag: u8 = if te.track_id as u32 == default_audio_track_id {
                1
            } else {
                0
            };
            match find_flag_default_value_offset(&bytes) {
                Err(e) => return Err(e),
                Ok(None) => {},
                Ok(Some(off)) => {
                    bytes[off] = flag;
                },
            }
            assert(patched(te.bytes@, flag) == Ok::<Seq<u8>, MuxerFault>(bytes@));
            append_bytes(&mut content, &bytes);
        }
        k = k + 1;
    }
    let mut out: Vec<u8> = Vec::new();
    let id: [u8; 4] = [0x16u8, 0x54u8, 0xAEu8, 0x6Bu8];
    write_element(&mut out, &id, &content);
    proof {
        assert(id@ =~= seq![0x16u8, 0x54u8, 0xAEu8, 0x6Bu8]);
        assert(out@ =~= mkv_elem(id@, content@));
        tracks_element_len(entries, filter@, default_audio_track_id);
    }
    Ok(out)
}

/// The place of the first id, from `from` on, that is `track_id` in 32 bits.
pub open spec fn id_index(ids: Seq<u64>, track_id: u32, from: nat) -> Option<nat>
    decreases ids.len() - from,
{
    if from >= ids.len() {
        None
    } else if ids[from as int] as u32 == track_id {
        Some(from)
    } else {
        id_index(ids, track_id, from + 1)
    }
}

pub proof fn lemma_id_index_bound(ids: Seq<u64>, track_id: u32, from: nat)
    ensures
        id_index(ids, track_id, from) matches Some(k) ==> from <= k < ids.len(),
    decreases ids.len() - from,
{
    if from < ids.len() {
        lemma_id_index_bound(ids, track_id, from + 1);
    }
}

/// The ids of policies.
pub open spec fn policy_ids(policies: Seq<PolicyModel>) -> Seq<u64> {
    Seq::new(policies.len(), |i: int| policies[i].track_id)
}

/// The ids of track entries.
pub open spec fn entry_ids(entries: Seq<EntryModel>) -> Seq<u64> {
    Seq::new(entries.len(), |i: int| entries[i].track_id)
}

/// Convenience: extract the TrackPolicy for `track_id`.
pub fn find_track_policy<'a>(binstruct: &'a BinstructFile, track_id: u32) -> (r: Option<
    &'a TrackPolicy,
>)
    ensures
        match id_index(policy_ids(binstruct@.track_policies), track_id, 0) {
            Some(k) => r matches Some(p) && k < binstruct.track_policies@.len() && *p
                == binstruct.track_policies@[k as int],
            None => r is None,
        },
{
    let ghost ids = policy_ids(binstruct@.track_policies);
    let mut k: usize = 0;
    while k < binstruct.track_policies.len()
        invariant
            ids == policy_ids(binstruct@.track_policies),
            ids.len() == binstruct.track_policies@.len(),
            k <= ids.len(),
            id_index(ids, track_id, 0) == id_index(ids, track_id, k as nat),
        decreases ids.len() - k,
    {
        let p: &TrackPolicy = &binstruct.track_policies[k];
        assert(ids[k as int] == p.track_id);
        if p.track_id as u32 == track_id {
            return Some(p);
        }
        k = k + 1;
    }
    None
}

/// The track entry for `track_id`.
pub fn find_track_entry<'a>(binstruct: &'a BinstructFile, track_id: u32) -> (r: Option<
    &'a TrackEntryRecord,
>)
    ensures
        match id_index(entry_ids(binstruct@.mkv_skeleton.track_entries), track_id, 0) {
            Some(k) => r matches Some(e) && k < binstruct@.mkv_skeleton.track_entries.len() && e@
                == binstruct@.mkv_skeleton.track_entries[k as int],
            None => r is None,
        },
{
    let ghost ids = entry_ids(binstruct@.mkv_skeleton.track_entries);
    let mut k: usize = 0;
    while k < binstruct.mkv_skeleton.track_entries.len()
        invariant
            ids == entry_ids(binstruct@.mkv_skeleton.track_entries),
            ids.len() == binstruct.mkv_skeleton.track_entries@.len(),
            k <= ids.len(),
            id_index(ids, track_id, 0) == id_index(ids, track_id, k as nat),
        decreases ids.len() - k,
    {
        let e: &TrackEntryRecord = &binstruct.mkv_skeleton.track_entries[k];
        assert(ids[k as int] == e.track_id);
        if e.track_id as u32 == track_id {
            return Some(e);
        }
        k = k + 1;
    }
    None
}

} // verus!
