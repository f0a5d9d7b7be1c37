//! What becomes of the frames of a track: where they are read, when they start, and what
//! their blocks carry.
use crate::binstruct::{CodecType, EntryModel};
use crate::bytes::{be_bytes, be_value};
use crate::muxer::coordinator::MuxModel;
use crate::muxer::ebml::{
    child_from, entry_body, lemma_child_bounds, lemma_mkv_elem_len, mkv_elem, track_number_of,
    vint_at_pos,
};
use crate::muxer::layout::{
    default_flag, entries_len, patch_keeps_all_but_one_byte, patched, tracks_content_from,
    tracks_element, LayoutSection, TrackModel,
};
use crate::muxer::materializer::{frame_place, raw_frame};
use crate::muxer::plan::times_from;
use crate::muxer::read_back::{
    block_tells_its_frame, child_number, child_payload, element_reads_back, lemma_child_of_elem,
};
use crate::muxer::transformer::{avcc, avcc_from, avcc_len, start_code_len, sum_to};
use crate::muxer::types::MuxerFault;
use crate::muxer::vfr_index::{lemma_time_step, size_before, time_at, IndexModel};
use crate::vfr::FrameRecord;
use crate::vint::{vint_at, VintRead};
use vstd::prelude::*;

verus! {

/// The frames of a track stand in its raw file one after the other, from its start on: by
/// the sizes in the index, or else all with one size.
pub proof fn frames_stand_one_after_the_other(
    cbr: Option<u64>,
    index: Option<IndexModel>,
    t: u32,
    i: u32,
)
    requires
        i < u32::MAX,
        index matches Some(x) ==> i + 1 < x.frames.len() && size_before(x.frames, (i + 1) as nat)
            <= u64::MAX,
        index is None ==> (cbr matches Some(c) && c <= u32::MAX && (i + 1) * c <= u64::MAX),
    ensures
        frame_place(cbr, index, t, 0) matches Ok(first) && first.0 == 0,
        frame_place(cbr, index, t, i) matches Ok(a) && (frame_place(
            cbr,
            index,
            t,
            (i + 1) as u32,
        ) matches Ok(b) && b.0 == a.0 + a.1),
        index matches Some(x) ==> (frame_place(cbr, index, t, i) matches Ok(a) && a.1
            == x.frames[i as int].frame_size),
        index is None ==> (frame_place(cbr, index, t, i) matches Ok(a) && cbr == Some(a.1 as u64)),
{
    match index {
        Some(x) => {
            assert(size_before(x.frames, 0) == 0);
        },
        None => {
            let c = cbr->0;
            assert(0 * c == 0 && (i + 1) * c == i * c + c && i * c >= 0) by (nonlinear_arith)
                requires
                    i >= 0,
                    c >= 0,
            ;
        },
    }
}

/// The frames of a track follow each other in time, from zero on: each lasts as long as the
/// track says, and in an index its own delta longer.
pub proof fn frames_follow_each_other_in_time(frames: Seq<FrameRecord>, base: u64, i: nat)
    requires
        i < frames.len(),
    ensures
        time_at(frames, base, 0) == 0,
        time_at(frames, base, i + 1) == (time_at(frames, base, i) + base
            + frames[i as int].duration_delta) % 0x1_0000_0000_0000_0000,
{
    lemma_time_step(frames, base, i);
}

/// Without an index, frame `f` starts after `f` durations.
pub proof fn even_frames_follow_each_other_in_time(m: TrackModel, f: u32)
    requires
        m.cbr_frame_size is Some,
        m.index is None,
        f * m.frame_duration <= u64::MAX,
    ensures
        m.time_of(f) == f * m.frame_duration,
        m.is_cbr(),
{
}

/// With an index, frame `f` starts where the index says, and is a keyframe where the lowest
/// bit of its flags says so.
pub proof fn indexed_frames_start_where_the_index_says(m: TrackModel, f: u32)
    requires
        m.index matches Some(x) && f < x.frames.len(),
    ensures
        ({
            let x = m.index->0;
            &&& m.time_of(f) == time_at(x.frames, x.base, f as nat)
            &&& m.is_key(f) == (x.frames[f as int].flags % 2 == 1)
        }),
{
    let flags = m.index->0.frames[f as int].flags;
    assert((flags & 0x01 != 0) == (flags % 2 == 1)) by (bit_vector);
}

/// The times of clusters are the running sums of the deltas, up to the greatest signed number.
pub proof fn cluster_times_are_running_sums(deltas: Seq<i64>, times: Seq<u64>, k: int)
    requires
        times_from(Seq::empty(), 0, deltas, 0) == Some(times),
        0 <= k < deltas.len(),
    ensures
        times.len() == deltas.len(),
        ({
            let last = if k == 0 {
                0
            } else {
                times[k - 1] as int
            };
            let sum = last + deltas[k];
            times[k] == if sum > i64::MAX {
                i64::MAX as int
            } else {
                sum
            }
        }),
{
    lemma_times(Seq::empty(), 0, deltas, 0, times, k);
}

proof fn lemma_times(
    acc: Seq<u64>,
    last: int,
    deltas: Seq<i64>,
    from: nat,
    times: Seq<u64>,
    k: int,
)
    requires
        times_from(acc, last, deltas, from) == Some(times),
        from <= deltas.len(),
        acc.len() == from,
        last == if from == 0 {
            0
        } else {
            acc[from - 1] as int
        },
        0 <= k < deltas.len(),
        k < from ==> ({
            let before = if k == 0 {
                0
            } else {
                acc[k - 1] as int
            };
            let sum = before + deltas[k];
            acc[k] == if sum > i64::MAX {
                i64::MAX as int
            } else {
                sum
            }
        }),
    ensures
        times.len() == deltas.len(),
        ({
            let before = if k == 0 {
                0
            } else {
                times[k - 1] as int
            };
            let sum = before + deltas[k];
            times[k] == if sum > i64::MAX {
                i64::MAX as int
            } else {
                sum
            }
        }),
    decreases deltas.len() - from,
{
    if from < deltas.len() {
        let sum = last + deltas[from as int];
        let next = if sum > i64::MAX {
            i64::MAX as int
        } else {
            sum
        };
        lemma_times(acc.push(next as u64), next, deltas, from + 1, times, k);
    }
}

/// The start code before a NAL unit: four bytes or three.
pub open spec fn start_code(long: bool) -> Seq<u8> {
    if long {
        seq![0u8, 0u8, 0u8, 1u8]
    } else {
        seq![0u8, 0u8, 1u8]
    }
}

/// NAL units, each after its start code, with `rest` behind them.
pub open spec fn annex_b(nals: Seq<Seq<u8>>, long: Seq<bool>, rest: Seq<u8>) -> Seq<u8>
    decreases nals.len(),
{
    if nals.len() == 0 {
        rest
    } else {
        start_code(long[0]) + (nals[0] + annex_b(nals.skip(1), long.skip(1), rest))
    }
}

/// NAL units, each after its length in four bytes, the most significant first.
pub open spec fn length_prefixed(nals: Seq<Seq<u8>>) -> Seq<u8>
    decreases nals.len(),
{
    if nals.len() == 0 {
        Seq::empty()
    } else {
        length_prefixed(nals.drop_last()) + be_bytes(nals.last().len(), 4) + nals.last()
    }
}

/// The lengths of NAL units.
pub open spec fn lengths(nals: Seq<Seq<u8>>) -> Seq<u64> {
    Seq::new(nals.len(), |i: int| nals[i].len() as u64)
}

/// NAL units behind start codes become the same units behind their lengths, whichever start
/// codes they have.
pub proof fn start_codes_become_lengths(nals: Seq<Seq<u8>>, long: Seq<bool>, rest: Seq<u8>)
    requires
        long.len() == nals.len(),
        forall|i: int| 0 <= i < nals.len() ==> (#[trigger] nals[i]).len() <= u32::MAX,
    ensures
        avcc(annex_b(nals, long, rest), lengths(nals)) == Ok::<Seq<u8>, MuxerFault>(
            length_prefixed(nals),
        ),
{
    let nil = Seq::<u8>::empty();
    let none = Seq::<Seq<u8>>::empty();
    assert(none + nals =~= nals);
    assert(nil + annex_b(nals, long, rest) =~= annex_b(nals, long, rest));
    lemma_transform(none, nil, nals, long, rest);
}

proof fn lemma_transform(
    done: Seq<Seq<u8>>,
    before: Seq<u8>,
    nals: Seq<Seq<u8>>,
    long: Seq<bool>,
    rest: Seq<u8>,
)
    requires
        long.len() == nals.len(),
        forall|i: int| 0 <= i < nals.len() ==> (#[trigger] nals[i]).len() <= u32::MAX,
    ensures
        avcc_from(
            length_prefixed(done),
            before + annex_b(nals, long, rest),
            lengths(done + nals),
            done.len(),
            before.len() as int,
        ) == Ok::<Seq<u8>, MuxerFault>(length_prefixed(done + nals)),
    decreases nals.len(),
{
    let data = before + annex_b(nals, long, rest);
    let lens = lengths(done + nals);
    let pos = before.len() as int;
    if nals.len() == 0 {
        assert(done + nals =~= done);
    } else {
        let n = nals[0];
        let code = start_code(long[0]);
        let after = annex_b(nals.skip(1), long.skip(1), rest);
        let c = code.len() as int;
        assert(data =~= (before + code + n) + after);
        assert forall|i: int| 0 <= i < c implies data[pos + i] == #[trigger] code[i] by {}
        assert(start_code_len(data, pos) == c) by {
            assert(data[pos] == code[0] && data[pos + 1] == code[1] && data[pos + 2] == code[2]);
            if long[0] {
                assert(data[pos + 3] == code[3]);
            }
        }
        assert(lens[done.len() as int] == n.len());
        assert(data.subrange(pos + c, pos + c + n.len()) =~= n);
        let next = done.push(n);
        assert(next.drop_last() =~= done);
        assert(next + nals.skip(1) =~= done + nals);
        assert forall|i: int| 0 <= i < nals.skip(1).len() implies (#[trigger] nals.skip(1)[i]).len()
            <= u32::MAX by {
            assert(nals.skip(1)[i] == nals[i + 1]);
        }
        lemma_transform(next, before + code + n, nals.skip(1), long.skip(1), rest);
    }
}

/// The payload of a video frame is as long as planned: four bytes per NAL unit, and the units.
pub proof fn transformed_frames_are_as_long_as_planned(m: TrackModel, f: u32, bytes: Seq<u8>)
    requires
        m.codec_type == CodecType::Video,
        m.sized(f),
    ensures
        avcc(bytes, m.index->0.nals_of(f as int)) matches Ok(out) ==> out.len() == m.payload_of(f),
        m.payload_of(f) == 4 * m.index->0.nals_of(f as int).len() + sum_to(
            m.index->0.nals_of(f as int),
            m.index->0.nals_of(f as int).len(),
        ),
{
    avcc_len(bytes, m.index->0.nals_of(f as int));
}

/// The payload of an audio frame is as long as its place in the raw file.
pub proof fn audio_frames_are_as_long_as_planned(m: TrackModel, f: u32, t: u32)
    requires
        m.codec_type == CodecType::Audio,
        m.sized(f),
        m.index is None || m.cbr_frame_size is None,
    ensures
        frame_place(
            match m.cbr_frame_size {
                Some(c) => Some(c as u64),
                None => None,
            },
            m.index,
            t,
            f,
        ) matches Ok(p) && p.1 == m.payload_of(f),
{
}

/// The number of a block in two's complement.
pub open spec fn signed16(n: nat) -> int {
    if n < 0x8000 {
        n as int
    } else {
        n - 0x1_0000
    }
}

/// A block carries its frame: the number of its track; the time that, added to that of its
/// cluster, is the time of the frame; the keyframe bit, always for audio and else as the index
/// says; and the raw bytes of the frame, for video in length-prefixed form.
pub proof fn block_carries_its_frame(
    mm: MuxModel,
    cluster_index: u32,
    track_id: u32,
    frame_index: u32,
    payload_size: u32,
)
    requires
        mm.plan.models[track_id].track_number < 0x100_0000_0000_0000,
        mm.plan.models[track_id].time_of(frame_index) <= i64::MAX,
        mm.plan.times[cluster_index as int] <= i64::MAX,
    ensures
        mm.section_bytes(
            LayoutSection::SimpleBlock { cluster_index, track_id, frame_index, payload_size },
        ) matches Ok(b) ==> {
            let m = mm.plan.models[track_id];
            let raw = mm.raws[track_id];
            let end = b.len() as int;
            let key = m.codec_type == CodecType::Audio || (m.index matches Some(x)
                && x.frames[frame_index as int].flags % 2 == 1);
            &&& b[0] == 0xA3
            &&& vint_at(b.skip(1)) matches VintRead::Value(len, a) && 1 + a + len == end && (vint_at(
                b.skip(1 + a),
            ) matches VintRead::Value(number, w) && {
                let at = 1 + a + w;
                &&& number == m.track_number
                &&& at + 3 + payload_size == end
                &&& mm.plan.times[cluster_index as int] + signed16(
                    be_value(b.subrange(at, at + 2)),
                ) == m.time_of(frame_index)
                &&& b[at + 2] == if key {
                    0x80u8
                } else {
                    0x00u8
                }
                &&& frame_place(raw.cbr_frame_size, m.index, raw.track_id, frame_index) matches Ok(
                    p,
                ) && (raw_frame(
                    raw.content,
                    p.0,
                    p.1,
                    raw.track_id,
                    frame_index,
                ) matches Ok(frame) && match m.codec_type {
                    CodecType::Audio => b.subrange(at + 3, end) == frame,
                    CodecType::Video => avcc(frame, m.index->0.nals_of(frame_index as int)) == Ok::<
                        Seq<u8>,
                        MuxerFault,
                    >(b.subrange(at + 3, end)),
                })
            })
        },
{
    reveal(MuxModel::section_bytes);
    let s = LayoutSection::SimpleBlock { cluster_index, track_id, frame_index, payload_size };
    if let Ok(b) = mm.section_bytes(s) {
        let m = mm.plan.models[track_id];
        let relative = mm.relative_time(cluster_index, track_id, frame_index);
        let payload = mm.payload(track_id, frame_index)->Ok_0;
        let nil = Seq::<u8>::empty();
        block_tells_its_frame(
            m.track_number,
            relative,
            mm.keyframe(track_id, frame_index),
            payload,
            nil,
        );
        assert(b + nil =~= b);
        if let Some(x) = m.index {
            let flags = x.frames[frame_index as int].flags;
            assert((flags & 0x01 != 0) == (flags % 2 == 1)) by (bit_vector);
        }
    }
}

/// Where a raw frame is read: that many bytes of the file from its place on.
pub proof fn raw_frames_are_the_bytes_at_their_place(
    content: Seq<u8>,
    offset: u64,
    len: u32,
    t: u32,
    i: u32,
)
    ensures
        offset + len <= content.len() ==> raw_frame(content, offset, len, t, i) == Ok::<
            Seq<u8>,
            MuxerFault,
        >(content.subrange(offset as int, offset + len)),
        offset + len > content.len() && len > 0 ==> raw_frame(content, offset, len, t, i) is Err,
{
    if len == 0 && offset <= content.len() {
        assert(content.subrange(offset as int, offset as int) =~= Seq::<u8>::empty());
    }
}

/// The number of a track is that in the first TrackNumber of its entry.
pub proof fn entries_tell_their_number(body: Seq<u8>)
    requires
        0 < body.len() < 0x100_0000_0000_0000,
        child_from(body, seq![0xD7u8], 0) is Ok,
    ensures
        track_number_of(mkv_elem(seq![0xAEu8], body)) == Ok::<Option<u64>, MuxerFault>(
            child_number(body, seq![0xD7u8]),
        ),
{
    lemma_entry_body(body);
}

proof fn lemma_entry_body(body: Seq<u8>)
    requires
        body.len() < 0x100_0000_0000_0000,
    ensures
        entry_body(mkv_elem(seq![0xAEu8], body)) == Ok::<Seq<u8>, MuxerFault>(body),
        vint_at_pos(mkv_elem(seq![0xAEu8], body), 1) matches Ok(p) && 1 + p.1 + body.len()
            == mkv_elem(seq![0xAEu8], body).len() && mkv_elem(seq![0xAEu8], body).skip(
            1 + p.1 as int,
        ) == body,
        mkv_elem(seq![0xAEu8], body)[0] == 0xAE,
{
    let id = seq![0xAEu8];
    let e = mkv_elem(id, body);
    let nil = Seq::<u8>::empty();
    element_reads_back(id, body, nil);
    lemma_mkv_elem_len(id, body);
    assert(e + nil =~= e);
    assert(e[0] == e.take(1)[0]);
    let start = e.len() - body.len();
    assert(e.skip(start) =~= e.subrange(start, e.len() as int));
}

/// The patch sets the FlagDefault of a track entry, and nothing else: where the entry has one,
/// of one byte, that byte is the new value, and every other byte stays.
pub proof fn patch_sets_the_default_flag(body: Seq<u8>, value: u8, old_value: u8)
    requires
        body.len() < 0x100_0000_0000_0000,
        child_payload(body, seq![0x88u8]) == Some(seq![old_value]),
    ensures
        ({
            let e = mkv_elem(seq![0xAEu8], body);
            patched(e, value) matches Ok(out) && {
                let at = e.len() - body.len() + (child_from(body, seq![0x88u8], 0)->Ok_0->0).0;
                &&& out == e.update(at, value)
                &&& e[at] == old_value
            }
        }),
{
    let e = mkv_elem(seq![0xAEu8], body);
    lemma_entry_body(body);
    lemma_child_bounds(body, seq![0x88u8], 0);
    let (start, len) = child_from(body, seq![0x88u8], 0)->Ok_0->0;
    assert(body.subrange(start, start + len).len() == 1);
    assert(body.subrange(start, start + 1)[0] == body[start]);
    let h = e.len() - body.len();
    assert(e.skip(h)[start] == e[h + start]);
}

/// A track is marked as the default exactly if it is the default track.
pub proof fn only_the_default_track_is_marked(track_id: u64, default_id: u32)
    ensures
        default_flag(track_id, default_id) == if track_id as u32 == default_id {
            1u8
        } else {
            0u8
        },
{
}

/// The length of the entries of wanted tracks among the first `n`.
pub open spec fn wanted_len(entries: Seq<EntryModel>, filter: Seq<u32>, n: nat) -> nat
    decreases n,
{
    if n == 0 {
        0
    } else if filter.contains(entries[n - 1].track_id as u32) {
        wanted_len(entries, filter, (n - 1) as nat) + entries[n - 1].bytes.len()
    } else {
        wanted_len(entries, filter, (n - 1) as nat)
    }
}

proof fn lemma_wanted_len(entries: Seq<EntryModel>, filter: Seq<u32>, n: nat)
    ensures
        wanted_len(entries, filter, n) == entries_len(entries, filter, n),
    decreases n,
{
    if n > 0 {
        lemma_wanted_len(entries, filter, (n - 1) as nat);
    }
}

/// The Tracks element holds the entries of the wanted tracks, in order, each with its flag set
/// or cleared, and nothing else.
pub proof fn tracks_element_holds_the_wanted_entries(
    entries: Seq<EntryModel>,
    filter: Seq<u32>,
    default_id: u32,
    k: int,
)
    requires
        0 <= k < entries.len(),
        wanted_len(entries, filter, entries.len()) < 0x100_0000_0000_0000,
    ensures
        tracks_element(entries, filter, default_id) matches Ok(out) ==> (child_payload(
            out,
            seq![0x16u8, 0x54u8, 0xAEu8, 0x6Bu8],
        ) matches Some(content) && content.len() == wanted_len(entries, filter, entries.len())
            && (filter.contains(entries[k].track_id as u32) ==> patched(
            entries[k].bytes,
            if entries[k].track_id as u32 == default_id {
                1u8
            } else {
                0u8
            },
        ) == Ok::<Seq<u8>, MuxerFault>(
            content.subrange(
                wanted_len(entries, filter, k as nat) as int,
                wanted_len(entries, filter, k as nat) as int + entries[k].bytes.len(),
            ),
        ))),
{
    let id = seq![0x16u8, 0x54u8, 0xAEu8, 0x6Bu8];
    let nil = Seq::<u8>::empty();
    lemma_wanted_len(entries, filter, entries.len());
    lemma_wanted_len(entries, filter, k as nat);
    if let Ok(content) = tracks_content_from(nil, entries, filter, default_id, 0) {
        lemma_content(nil, entries, filter, default_id, 0, k);
        lemma_child_of_elem(id, content, nil, id);
        assert(mkv_elem(id, content) + nil =~= mkv_elem(id, content));
    }
}

proof fn lemma_content(
    acc: Seq<u8>,
    entries: Seq<EntryModel>,
    filter: Seq<u32>,
    default_id: u32,
    from: nat,
    k: int,
)
    requires
        from <= entries.len(),
        0 <= k < entries.len(),
        acc.len() == entries_len(entries, filter, from),
    ensures
        tracks_content_from(acc, entries, filter, default_id, from) matches Ok(out) ==> {
            &&& out.len() == entries_len(entries, filter, entries.len())
            &&& acc.len() <= out.len()
            &&& out.take(acc.len() as int) == acc
            &&& k >= from && filter.contains(entries[k].track_id as u32) ==> {
                let a = entries_len(entries, filter, k as nat) as int;
                &&& a + entries[k].bytes.len() <= out.len()
                &&& patched(
                    entries[k].bytes,
                    if entries[k].track_id as u32 == default_id {
                        1u8
                    } else {
                        0u8
                    },
                ) == Ok::<Seq<u8>, MuxerFault>(out.subrange(a, a + entries[k].bytes.len()))
            }
        },
    decreases entries.len() - from,
{
    if from < entries.len() {
        let e = entries[from as int];
        if !filter.contains(e.track_id as u32) {
            lemma_content(acc, entries, filter, default_id, from + 1, k);
        } else {
            let flag = default_flag(e.track_id, default_id);
            patch_keeps_all_but_one_byte(e.bytes, flag);
            if let Ok(bytes) = patched(e.bytes, flag) {
                let next = acc + bytes;
                lemma_content(next, entries, filter, default_id, from + 1, k);
                if let Ok(out) = tracks_content_from(next, entries, filter, default_id, from + 1) {
                    let n = next.len() as int;
                    assert(out.take(acc.len() as int) =~= out.take(n).take(acc.len() as int));
                    assert(next.take(acc.len() as int) =~= acc);
                    let a = acc.len() as int;
                    assert(out.subrange(a, n) =~= out.take(n).subrange(a, n));
                    assert(next.subrange(a, n) =~= bytes);
                }
            }
        }
    } else {
        assert(acc.take(acc.len() as int) =~= acc);
    }
}

/// A block can be built exactly if its track has a source, its frame starts as far from its
/// cluster as 16 bits reach, and the payload is there and as long as planned.
pub proof fn blocks_reach_as_far_as_16_bits(
    mm: MuxModel,
    cluster_index: u32,
    track_id: u32,
    frame_index: u32,
    payload_size: u32,
)
    requires
        mm.plan.models[track_id].time_of(frame_index) <= i64::MAX,
        mm.plan.times[cluster_index as int] <= i64::MAX,
    ensures
        ({
            let b = mm.section_bytes(
                LayoutSection::SimpleBlock { cluster_index, track_id, frame_index, payload_size },
            );
            let relative = mm.plan.models[track_id].time_of(frame_index)
                - mm.plan.times[cluster_index as int];
            &&& b is Ok <==> mm.raws.contains_key(track_id) && -32768 <= relative <= 32767 && (
            mm.payload(track_id, frame_index) matches Ok(p) && p.len() == payload_size)
            &&& !mm.raws.contains_key(track_id) ==> b == Err::<Seq<u8>, MuxerFault>(
                MuxerFault::MissingTrack(track_id),
            )
        }),
{
    reveal(MuxModel::section_bytes);
}

} // verus!
