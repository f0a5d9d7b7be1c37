//! What all indexers give, and how it is written.
use crate::bytes::{append_bytes, concat_map, lemma_concat_map_push};
use crate::text::{decimal, push_decimal};
use crate::vfr::{
    frame_coder, length_bytes, length_coder, nal_total, vfr_header, vfr_layout,
    vfr_layout_round_trip, vfr_parse, write_frame, write_header, write_lengths, FrameRecord,
    VfrFault, VfrModel,
};
use vstd::prelude::*;
use vstd::string::*;
use vstd::utf8::encode_utf8;

verus! {

/// A track whose frames all have one size.
#[derive(Debug, Clone, PartialEq, Eq)]
pub struct CbrInfo {
    pub frame_count: u64,
    pub cbr_frame_size: u32,
    /// Duration of each frame in nanoseconds.
    pub frame_duration_ns: u64,
    /// ISO 639 language code (passed in by the caller, may be empty).
    pub language: String,
}

impl CbrInfo {
    /// The JSON text of the info, with a line end.
    pub open spec fn json(&self) -> Seq<char> {
        "{\"is_vbr\": false, \"frame_count\": "@ + decimal(self.frame_count as nat)
            + ", \"cbr_frame_size\": "@ + decimal(self.cbr_frame_size as nat)
            + ", \"frame_duration_ns\": "@ + decimal(self.frame_duration_ns as nat)
            + ", \"language\": \""@ + self.language@ + "\"}\n"@
    }

    /// Appends the info as JSON.
    pub fn write_json(&self, w: &mut Vec<u8>)
        ensures
            final(w)@ == old(w)@ + encode_utf8(self.json()),
    {
        let mut s: String = "{\"is_vbr\": false, \"frame_count\": ".to_owned();
        push_decimal(&mut s, self.frame_count as u128);
        s.append(", \"cbr_frame_size\": ");
        push_decimal(&mut s, self.cbr_frame_size as u128);
        s.append(", \"frame_duration_ns\": ");
        push_decimal(&mut s, self.frame_duration_ns as u128);
        s.append(", \"language\": \"");
        s.append(self.language.as_str());
        s.append("\"}\n");
        append_bytes(w, s.as_str().as_bytes());
    }
}

/// A frame as an indexer sees it.
#[derive(Debug, Clone, PartialEq, Eq)]
pub struct FrameEntry {
    /// Byte size of the frame in the raw file.
    pub frame_size: u32,
    /// bit 0: keyframe; bit 1: has_nal_lengths.
    pub flags: u8,
    /// Number of NAL units (video) or 0 (audio).
    pub nal_count: u8,
    /// Delta vs. the codec's nominal frame duration.
    pub duration_delta: i16,
    /// NAL unit payload lengths (excluding start code), in order.
    /// Empty for audio frames.
    pub nal_lengths: Vec<u64>,
}

/// [`FrameEntry`] with a sequence for the vector.
pub ghost struct FrameModel {
    pub frame_size: u32,
    pub flags: u8,
    pub nal_count: u8,
    pub duration_delta: i16,
    pub nal_lengths: Seq<u64>,
}

impl View for FrameEntry {
    type V = FrameModel;

    open spec fn view(&self) -> FrameModel {
        FrameModel {
            frame_size: self.frame_size,
            flags: self.flags,
            nal_count: self.nal_count,
            duration_delta: self.duration_delta,
            nal_lengths: self.nal_lengths@,
        }
    }
}

/// Whether flags mark a keyframe.
pub open spec fn marks_keyframe(flags: u8) -> bool {
    flags & 0x01 != 0
}

impl FrameEntry {
    pub fn is_keyframe(&self) -> (r: bool)
        ensures
            r == marks_keyframe(self.flags),
            r == (self.flags & 0x01 != 0),
    {
        self.flags & 0x01 != 0
    }
}

pub open spec fn frame_models(s: Seq<FrameEntry>) -> Seq<FrameModel> {
    Seq::new(s.len(), |i: int| s[i]@)
}

/// What an indexer gives for a track.
#[derive(Debug, Clone, PartialEq, Eq)]
pub enum ParseResult {
    Vbr {
        frames: Vec<FrameEntry>,
        /// Whether the file contains a NalLengths table (video parsers set this).
        has_nal_lengths: bool,
    },
    Cbr(CbrInfo),
}

/// The frame of an audio track.
pub open spec fn audio_frame(size: u32) -> FrameModel {
    FrameModel {
        frame_size: size,
        flags: 0x01,
        nal_count: 0,
        duration_delta: 0,
        nal_lengths: Seq::empty(),
    }
}

/// The entry for a frame of an audio track: always a keyframe.
pub(crate) fn audio_entry(size: u32) -> (r: FrameEntry)
    ensures
        r@ == audio_frame(size),
{
    let r = FrameEntry {
        frame_size: size,
        flags: 0x01,
        nal_count: 0,
        duration_delta: 0,
        nal_lengths: Vec::new(),
    };
    assert(r@.nal_lengths =~= Seq::<u64>::empty());
    r
}

/// The record of a frame in a VFR file.
pub open spec fn record_of(f: FrameModel) -> FrameRecord {
    FrameRecord {
        frame_size: f.frame_size,
        flags: f.flags,
        nal_count: f.nal_count,
        duration_delta: f.duration_delta,
    }
}

pub open spec fn records_of(frames: Seq<FrameModel>) -> Seq<FrameRecord> {
    Seq::new(frames.len(), |i: int| record_of(frames[i]))
}

/// The NAL lengths of the first `n` frames.
pub open spec fn lengths_of(frames: Seq<FrameModel>, n: nat) -> Seq<u64>
    decreases n,
{
    if n == 0 {
        Seq::empty()
    } else {
        lengths_of(frames, (n - 1) as nat) + frames[n - 1].nal_lengths
    }
}

/// The VFR file of frames.
pub open spec fn vfr_of(frames: Seq<FrameModel>, has_nal_lengths: bool) -> VfrModel {
    VfrModel {
        version: 1,
        flags: if has_nal_lengths {
            0x01
        } else {
            0x00
        },
        frames: records_of(frames),
        nal_lengths: if has_nal_lengths {
            lengths_of(frames, frames.len())
        } else {
            Seq::empty()
        },
    }
}

/// Where the table of NAL lengths starts; zero where there is none.
pub open spec fn written_offset(frames: Seq<FrameModel>, has_nal_lengths: bool) -> nat {
    if has_nal_lengths {
        24 + frames.len() * 8
    } else {
        0
    }
}

/// What [`write_vfr`] writes.
pub open spec fn written_vfr(frames: Seq<FrameModel>, has_nal_lengths: bool) -> Seq<u8> {
    vfr_layout(vfr_of(frames, has_nal_lengths), written_offset(frames, has_nal_lengths))
}

proof fn lemma_lengths_count(frames: Seq<FrameModel>, n: nat)
    requires
        n <= frames.len(),
        forall|i: int|
            0 <= i < frames.len() ==> (#[trigger] frames[i]).nal_count
                == frames[i].nal_lengths.len(),
    ensures
        lengths_of(frames, n).len() == nal_total(records_of(frames).take(n as int)),
    decreases n,
{
    let records = records_of(frames);
    if n > 0 {
        lemma_lengths_count(frames, (n - 1) as nat);
        assert(records.take(n as int).drop_last() =~= records.take(n - 1));
    }
}

proof fn lemma_lengths_bound(frames: Seq<FrameModel>, n: nat, limit: u64)
    requires
        n <= frames.len(),
        forall|i: int, k: int|
            0 <= i < frames.len() && 0 <= k < frames[i].nal_lengths.len()
                ==> #[trigger] frames[i].nal_lengths[k] < limit,
    ensures
        forall|k: int| 0 <= k < lengths_of(frames, n).len() ==> lengths_of(frames, n)[k] < limit,
    decreases n,
{
    if n > 0 {
        lemma_lengths_bound(frames, (n - 1) as nat, limit);
        let before = lengths_of(frames, (n - 1) as nat);
        let all = lengths_of(frames, n);
        assert forall|k: int| 0 <= k < all.len() implies all[k] < limit by {
            if k < before.len() {
                assert(all[k] == before[k]);
            } else {
                assert(all[k] == frames[n - 1].nal_lengths[k - before.len()]);
            }
        }
    }
}

/// What `write_vfr` writes reads back as the frames and their NAL lengths, where
/// each frame counts its NAL units and no length takes more than 56 bits.
pub proof fn written_vfr_reads_back(frames: Seq<FrameModel>, has_nal_lengths: bool)
    requires
        frames.len() <= u64::MAX,
        forall|i: int|
            0 <= i < frames.len() ==> (#[trigger] frames[i]).nal_count
                == frames[i].nal_lengths.len(),
        forall|i: int, k: int|
            0 <= i < frames.len() && 0 <= k < frames[i].nal_lengths.len()
                ==> #[trigger] frames[i].nal_lengths[k] < 0x100_0000_0000_0000,
    ensures
        vfr_parse(written_vfr(frames, has_nal_lengths)) == Ok::<VfrModel, VfrFault>(
            vfr_of(frames, has_nal_lengths),
        ),
{
    let m = vfr_of(frames, has_nal_lengths);
    assert(1u8 & 0x01 != 0) by (bit_vector);
    assert(0u8 & 0x01 == 0) by (bit_vector);
    lemma_lengths_count(frames, frames.len());
    lemma_lengths_bound(frames, frames.len(), 0x100_0000_0000_0000);
    assert(records_of(frames).take(frames.len() as int) =~= records_of(frames));
    vfr_layout_round_trip(m, written_offset(frames, has_nal_lengths));
}

/// Appends a VFR file with the given frames.
pub fn write_vfr(frames: &[FrameEntry], has_nal_lengths: bool, w: &mut Vec<u8>)
    requires
        24 + frames@.len() * 8 <= u64::MAX,
    ensures
        final(w)@ == old(w)@ + written_vfr(frame_models(frames@), has_nal_lengths),
{
    let ghost models = frame_models(frames@);
    let ghost records = records_of(models);
    let frame_count: u64 = frames.len() as u64;
    let flags: u8 = if has_nal_lengths {
        0x01
    } else {
        0x00
    };
    let nal_lengths_offset: u64 = if has_nal_lengths {
        24 + frame_count * 8
    } else {
        0
    };
    let ghost start = w@;
    write_header(w, 1, flags, frame_count, nal_lengths_offset);
    let ghost head = vfr_header(1, flags, frame_count as nat, nal_lengths_offset as nat);
    let mut i: usize = 0;
    proof {
        assert(w@ =~= start + head + concat_map(records.take(0), frame_coder()));
    }
    while i < frames.len()
        invariant
            i <= frames@.len(),
            models == frame_models(frames@),
            records == records_of(models),
            w@ == start + head + concat_map(records.take(i as int), frame_coder()),
        decreases frames@.len() - i,
    {
        let f: &FrameEntry = &frames[i];
        write_frame(
            w,
            FrameRecord {
                frame_size: f.frame_size,
                flags: f.flags,
                nal_count: f.nal_count,
                duration_delta: f.duration_delta,
            },
        );
        proof {
            let t = records.take(i as int);
            lemma_concat_map_push(t, records[i as int], frame_coder());
            assert(records.take(i + 1) =~= t.push(records[i as int]));
            assert(w@ =~= start + head + concat_map(records.take(i + 1), frame_coder()));
        }
        i = i + 1;
    }
    assert(records.take(i as int) =~= records);
    let ghost middle = start + head + concat_map(records, frame_coder());
    if has_nal_lengths {
        let mut j: usize = 0;
        proof {
            assert(w@ =~= middle + concat_map(lengths_of(models, 0), length_coder()));
        }
        while j < frames.len()
            invariant
                j <= frames@.len(),
                models == frame_models(frames@),
                w@ == middle + concat_map(lengths_of(models, j as nat), length_coder()),
            decreases frames@.len() - j,
        {
            write_lengths(w, &frames[j].nal_lengths);
            proof {
                lemma_concat_map_append(
                    lengths_of(models, j as nat),
                    models[j as int].nal_lengths,
                    length_coder(),
                );
                assert(w@ =~= middle + concat_map(
                    lengths_of(models, (j + 1) as nat),
                    length_coder(),
                ));
            }
            j = j + 1;
        }
    }
    proof {
        assert(1u8 & 0x01 != 0) by (bit_vector);
        assert(0u8 & 0x01 == 0) by (bit_vector);
        assert(w@ =~= old(w)@ + written_vfr(models, has_nal_lengths));
    }
}

proof fn lemma_concat_map_append(a: Seq<u64>, b: Seq<u64>, f: spec_fn(u64) -> Seq<u8>)
    ensures
        concat_map(a + b, f) == concat_map(a, f) + concat_map(b, f),
    decreases a.len(),
{
    if a.len() == 0 {
        assert(a + b =~= b);
        assert(concat_map(a, f) + concat_map(b, f) =~= concat_map(b, f));
    } else {
        assert((a + b).skip(1) =~= a.skip(1) + b);
        lemma_concat_map_append(a.skip(1), b, f);
        assert(concat_map(a + b, f) =~= concat_map(a, f) + concat_map(b, f));
    }
}

/// The size that all frames have, if there are frames and they have one size.
pub open spec fn common_size(frames: Seq<FrameModel>) -> Option<u32> {
    if frames.len() > 0 && forall|i: int|
        0 <= i < frames.len() ==> (#[trigger] frames[i]).frame_size == frames[0].frame_size {
        Some(frames[0].frame_size)
    } else {
        None
    }
}

/// The size that all frames have, if there are frames and they have one size.
pub fn detect_cbr(frames: &[FrameEntry]) -> (r: Option<u32>)
    ensures
        r == common_size(frame_models(frames@)),
{
    let ghost models = frame_models(frames@);
    if frames.len() == 0 {
        return None;
    }
    let first: u32 = frames[0].frame_size;
    let mut i: usize = 0;
    while i < frames.len()
        invariant
            models == frame_models(frames@),
            frames@.len() > 0,
            first == models[0].frame_size,
            i <= frames@.len(),
            forall|k: int| 0 <= k < i ==> (#[trigger] models[k]).frame_size == first,
        decreases frames@.len() - i,
    {
        if frames[i].frame_size != first {
            assert(models[i as int].frame_size != first);
            return None;
        }
        i = i + 1;
    }
    Some(first)
}

/// Appends the shortest VINT for `value` that is not all ones.
pub fn write_vint(w: &mut Vec<u8>, value: u64)
    ensures
        final(w)@ == old(w)@ + length_bytes(value),
{
    crate::vfr::write_vint(w, value);
}

/// The result for an audio track: its one frame size, or its frames.
pub open spec fn audio_result(
    frames: Seq<FrameModel>,
    r: ParseResult,
    ns: u64,
    lang: Seq<char>,
) -> bool {
    match common_size(frames) {
        Some(size) => r matches ParseResult::Cbr(info) && info.frame_count == frames.len()
            && info.cbr_frame_size == size && info.frame_duration_ns == ns && info.language@
            == lang,
        None => r matches ParseResult::Vbr { frames: fs, has_nal_lengths } && !has_nal_lengths
            && frame_models(fs@) == frames,
    }
}

/// The result for an audio track with the given frames and frame duration.
pub(crate) fn audio_track(frames: Vec<FrameEntry>, ns: u64, language: String) -> (r: ParseResult)
    ensures
        audio_result(frame_models(frames@), r, ns, language@),
{
    match detect_cbr(&frames) {
        Some(size) => ParseResult::Cbr(
            CbrInfo {
                frame_count: frames.len() as u64,
                cbr_frame_size: size,
                frame_duration_ns: ns,
                language,
            },
        ),
        None => ParseResult::Vbr { frames, has_nal_lengths: false },
    }
}

} // verus!
