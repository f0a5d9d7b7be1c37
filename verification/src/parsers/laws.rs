//! The sizes of indexed frames tell where the frames are: each starts where the sizes of
//! those before it add up to.
use crate::bytes::be_bytes;
use crate::muxer::transformer::{avcc, avcc_from, avcc_len, start_code_len, sum_to};
use crate::muxer::types::MuxerFault;
use crate::parsers::aac::{adts_frame_len, adts_frames, adts_from, adts_sync};
use crate::parsers::ac3::{ac3_frames, ac3_from, ac3_size_at};
use crate::parsers::common::{audio_frame, FrameModel};
use crate::parsers::h264::{
    access_units, begins_unit, codes_from, codes_sound, frames_upto, h264_frames, has_slice,
    nal_at, nal_units, nals_upto, start_codes, unit_frame, unit_lengths, units_from, Nal, NAL_AUD,
};
use vstd::prelude::*;

verus! {

/// The total size of the first `n` frames.
pub open spec fn sizes_upto(frames: Seq<FrameModel>, n: nat) -> nat
    decreases n,
{
    if n == 0 {
        0
    } else {
        sizes_upto(frames, (n - 1) as nat) + frames[n - 1].frame_size as nat
    }
}

proof fn lemma_sizes_prefix(a: Seq<FrameModel>, b: Seq<FrameModel>, n: nat)
    requires
        n <= a.len(),
        n <= b.len(),
        forall|i: int| 0 <= i < n ==> a[i] == b[i],
    ensures
        sizes_upto(a, n) == sizes_upto(b, n),
    decreases n,
{
    if n > 0 {
        lemma_sizes_prefix(a, b, (n - 1) as nat);
    }
}

/// Whether frame `k` stands in an ADTS bitstream where the sizes before it add up to.
pub open spec fn adts_frame_at(data: Seq<u8>, frames: Seq<FrameModel>, k: nat) -> bool {
    let p = sizes_upto(frames, k) as int;
    &&& p + frames[k as int].frame_size <= data.len()
    &&& adts_sync(data, p)
    &&& adts_frame_len(data, p) == frames[k as int].frame_size
}

/// Every indexed frame of an ADTS bitstream stands where the sizes of the frames before
/// it add up to, with a syncword and its own size in the header.
pub proof fn adts_frames_stand_in_a_row(data: Seq<u8>)
    ensures
        adts_frames(data) matches Ok(frames) ==> forall|k: nat|
            k < frames.len() ==> #[trigger] adts_frame_at(data, frames, k),
{
    lemma_adts_row(Seq::empty(), data, 0);
}

proof fn lemma_adts_row(acc: Seq<FrameModel>, data: Seq<u8>, pos: int)
    requires
        pos == sizes_upto(acc, acc.len()),
        forall|k: nat| k < acc.len() ==> #[trigger] adts_frame_at(data, acc, k),
    ensures
        adts_from(acc, data, pos) matches Ok(frames) ==> forall|k: nat|
            k < frames.len() ==> #[trigger] adts_frame_at(data, frames, k),
    decreases data.len() - pos,
{
    if pos + 7 <= data.len() && adts_sync(data, pos) {
        let len = adts_frame_len(data, pos);
        let next = acc.push(audio_frame(len));
        if len >= 7 && pos + len <= data.len() {
            lemma_sizes_prefix(next, acc, acc.len());
            assert forall|k: nat| k < next.len() implies #[trigger] adts_frame_at(
                data,
                next,
                k,
            ) by {
                lemma_sizes_prefix(next, acc, k);
                if k < acc.len() {
                    assert(adts_frame_at(data, acc, k));
                }
            }
            lemma_adts_row(next, data, pos + len);
        }
    }
}

/// Whether frame `k` stands in an AC-3 bitstream where the sizes before it add up to.
pub open spec fn ac3_frame_at(data: Seq<u8>, frames: Seq<FrameModel>, k: nat) -> bool {
    let p = sizes_upto(frames, k) as int;
    &&& p + frames[k as int].frame_size <= data.len()
    &&& data[p] == 0x0B
    &&& data[p + 1] == 0x77
    &&& ac3_size_at(data, p) == Some(frames[k as int].frame_size)
}

/// Every indexed frame of an AC-3 bitstream stands where the sizes of the frames before
/// it add up to, with a syncword and its own size in the header.
pub proof fn ac3_frames_stand_in_a_row(data: Seq<u8>)
    ensures
        ac3_frames(data) matches Ok(frames) ==> forall|k: nat|
            k < frames.len() ==> #[trigger] ac3_frame_at(data, frames, k),
{
    lemma_ac3_row(Seq::empty(), data, 0);
}

proof fn lemma_ac3_row(acc: Seq<FrameModel>, data: Seq<u8>, pos: int)
    requires
        pos == sizes_upto(acc, acc.len()),
        forall|k: nat| k < acc.len() ==> #[trigger] ac3_frame_at(data, acc, k),
    ensures
        ac3_from(acc, data, pos) matches Ok(frames) ==> forall|k: nat|
            k < frames.len() ==> #[trigger] ac3_frame_at(data, frames, k),
    decreases data.len() - pos,
{
    if pos + 7 <= data.len() && data[pos] == 0x0B && data[pos + 1] == 0x77 {
        if let Some(len) = ac3_size_at(data, pos) {
            let next = acc.push(audio_frame(len));
            if len > 0 && pos + len <= data.len() {
                lemma_sizes_prefix(next, acc, acc.len());
                assert forall|k: nat| k < next.len() implies #[trigger] ac3_frame_at(
                    data,
                    next,
                    k,
                ) by {
                    lemma_sizes_prefix(next, acc, k);
                    if k < acc.len() {
                        assert(ac3_frame_at(data, acc, k));
                    }
                }
                lemma_ac3_row(next, data, pos + len);
            }
        }
    }
}

/// Whether every access unit has a slice, and fits in 32 bits.
pub open spec fn units_are_frames(nals: Seq<Nal>, units: Seq<(usize, usize)>) -> bool {
    forall|i: int|
        0 <= i < units.len() ==> has_slice(
            nals,
            (#[trigger] units[i]).0 as int,
            units[i].1 as int,
        ) && nals[units[i].1 - 1].end - nals[units[i].0 as int].sc_offset <= u32::MAX
}

/// Where access unit `k` starts; after the last one, where that ends.
pub open spec fn unit_start(nals: Seq<Nal>, units: Seq<(usize, usize)>, k: nat) -> int {
    if k < units.len() {
        nals[units[k as int].0 as int].sc_offset as int
    } else {
        nals.last().end as int
    }
}

/// Where every access unit of an H.264 bitstream has a slice, there is a frame for each,
/// and it starts where the sizes of the frames before it add up to, from the first start
/// code on; the sizes of all frames reach to the end of the last unit.
pub proof fn h264_frames_stand_in_a_row(data: Seq<u8>)
    requires
        data.len() <= usize::MAX,
        nal_units(data).len() > 0,
        units_are_frames(nal_units(data), access_units(nal_units(data))),
    ensures
        ({
            let nals = nal_units(data);
            let units = access_units(nals);
            h264_frames(data) matches Ok(frames) && frames.len() == units.len() && forall|k: nat|
                k <= frames.len() ==> #[trigger] unit_start(nals, units, k) == nals[0].sc_offset
                    + sizes_upto(frames, k)
        }),
{
    let codes = start_codes(data);
    let nals = nal_units(data);
    let units = access_units(nals);
    lemma_codes_sound(Seq::empty(), data, 0);
    lemma_nals(data, codes, codes.len());
    if codes.len() > 0 {
        lemma_codes_count(codes, data.len() as int, codes.len());
        assert(codes.last().1 <= data.len());
    }
    lemma_nals_row(data);
    lemma_units(Seq::empty(), nals, 0, 0);
    if codes.len() == 0 {
        assert(nals.len() == 0);
    }
    assert forall|k: nat| k <= units.len() implies #[trigger] unit_start(nals, units, k)
        == nals[0].sc_offset + sizes_upto(frames_upto(nals, units, units.len()), k) by {
        lemma_unit_starts(nals, units, k);
        lemma_frames_prefix(nals, units, k, units.len());
        lemma_sizes_prefix(
            frames_upto(nals, units, k),
            frames_upto(nals, units, units.len()),
            k,
        );
    }
    lemma_frames_prefix(nals, units, units.len(), units.len());
    assert(units.len() > 0);
}

/// Whether range `i` is not empty, and starts where the one before it ends, the first at 0.
pub open spec fn range_fits(units: Seq<(usize, usize)>, i: int) -> bool {
    &&& units[i].0 < units[i].1
    &&& units[i].0 == if i == 0 {
        0
    } else {
        units[i - 1].1 as int
    }
}

/// Whether a list of ranges starts at 0 and goes on without a gap up to `end`.
pub open spec fn in_a_row(units: Seq<(usize, usize)>, end: nat) -> bool {
    &&& forall|i: int| 0 <= i < units.len() ==> #[trigger] range_fits(units, i)
    &&& end == if units.len() == 0 {
        0
    } else {
        units.last().1 as int
    }
}

pub proof fn lemma_units(acc: Seq<(usize, usize)>, nals: Seq<Nal>, first: nat, k: nat)
    requires
        nals.len() <= usize::MAX,
        first < nals.len(),
        first <= k <= nals.len(),
        k == first ==> first == 0,
        in_a_row(acc, first),
    ensures
        in_a_row(units_from(acc, nals, first, k), nals.len()),
    decreases nals.len() - k,
{
    if k >= nals.len() {
        lemma_row_push(acc, first, nals.len());
    } else if k > first && begins_unit(nals, k) {
        lemma_row_push(acc, first, k);
        lemma_units(acc.push((first as usize, k as usize)), nals, k, k + 1);
    } else {
        lemma_units(acc, nals, first, k + 1);
    }
}

proof fn lemma_row_push(acc: Seq<(usize, usize)>, first: nat, k: nat)
    requires
        first < k <= usize::MAX,
        in_a_row(acc, first),
    ensures
        in_a_row(acc.push((first as usize, k as usize)), k),
{
    let next = acc.push((first as usize, k as usize));
    assert forall|i: int| 0 <= i < next.len() implies #[trigger] range_fits(next, i) by {
        if i < acc.len() {
            assert(range_fits(acc, i));
        }
    }
}

/// There are no more start codes than bytes.
proof fn lemma_codes_count(codes: Seq<(usize, usize)>, end: int, n: nat)
    requires
        codes_sound(codes, end),
        0 < n <= codes.len(),
    ensures
        codes[n - 1].1 >= n,
    decreases n,
{
    assert(codes[n - 1].0 < codes[n - 1].1);
    if n > 1 {
        lemma_codes_count(codes, end, (n - 1) as nat);
        assert(codes[n - 2].1 <= codes[n - 1].0);
    }
}

pub proof fn lemma_codes_sound(acc: Seq<(usize, usize)>, data: Seq<u8>, i: int)
    requires
        data.len() <= usize::MAX,
        0 <= i <= data.len(),
        codes_sound(acc, i),
    ensures
        codes_sound(codes_from(acc, data, i), data.len() as int),
    decreases data.len() - i,
{
    if i + 3 <= data.len() {
        let n = start_code_len(data, i);
        if n > 0 {
            lemma_codes_sound(acc.push((i as usize, (i + n) as usize)), data, i + n);
        } else {
            lemma_codes_sound(acc, data, i + 1);
        }
    }
}

/// The NAL units of start codes are those after each code but perhaps the last.
pub proof fn lemma_nals(data: Seq<u8>, codes: Seq<(usize, usize)>, n: nat)
    requires
        n <= codes.len(),
        data.len() <= usize::MAX,
        codes_sound(codes, data.len() as int),
    ensures
        ({
            let nals = nals_upto(data, codes, n);
            &&& nals.len() <= n
            &&& n > 0 ==> nals.len() >= n - 1
            &&& n > 0 && codes[n - 1].1 < data.len() ==> nals.len() == n
            &&& forall|j: int|
                0 <= j < nals.len() ==> #[trigger] nals[j] == nal_at(data, codes, j)
        }),
    decreases n,
{
    if n > 0 {
        lemma_nals(data, codes, (n - 1) as nat);
        if n >= 2 {
            assert(codes[n - 2].1 <= codes[n - 1].0);
        }
    }
}

proof fn lemma_frames_prefix(nals: Seq<Nal>, units: Seq<(usize, usize)>, k: nat, n: nat)
    requires
        k <= n <= units.len(),
        units_are_frames(nals, units),
    ensures
        frames_upto(nals, units, k).len() == k,
        frames_upto(nals, units, n).len() == n,
        forall|i: int|
            0 <= i < k ==> #[trigger] frames_upto(nals, units, n)[i] == frames_upto(
                nals,
                units,
                k,
            )[i],
        forall|i: int|
            0 <= i < k ==> #[trigger] frames_upto(nals, units, k)[i] == unit_frame(
                nals,
                units[i].0 as int,
                units[i].1 as int,
            ),
    decreases n,
{
    if k < n {
        lemma_frames_prefix(nals, units, k, (n - 1) as nat);
        assert(has_slice(nals, units[n - 1].0 as int, units[n - 1].1 as int));
    } else if n > 0 {
        lemma_frames_prefix(nals, units, (n - 1) as nat, (n - 1) as nat);
        assert(has_slice(nals, units[n - 1].0 as int, units[n - 1].1 as int));
    }
}

/// Whether NAL unit `j` ends where the next starts.
pub open spec fn nals_touch(nals: Seq<Nal>, j: int) -> bool {
    nals[j].end == nals[j + 1].sc_offset
}

/// Whether each NAL unit ends where the next starts.
pub open spec fn nals_in_a_row(nals: Seq<Nal>) -> bool {
    &&& forall|j: int| 0 <= j < nals.len() - 1 ==> #[trigger] nals_touch(nals, j)
    &&& forall|j: int| 0 <= j < nals.len() ==> (#[trigger] nals[j]).sc_offset <= nals[j].end
}

proof fn lemma_unit_starts(nals: Seq<Nal>, units: Seq<(usize, usize)>, k: nat)
    requires
        nals.len() > 0,
        k <= units.len(),
        nals_in_a_row(nals),
        in_a_row(units, nals.len()),
        units_are_frames(nals, units),
    ensures
        unit_start(nals, units, k) == nals[0].sc_offset + sizes_upto(
            frames_upto(nals, units, k),
            k,
        ),
    decreases k,
{
    assert(range_fits(units, 0));
    if k > 0 {
        let p = (k - 1) as nat;
        lemma_unit_starts(nals, units, p);
        lemma_frames_prefix(nals, units, k, k);
        lemma_frames_prefix(nals, units, p, k);
        lemma_sizes_prefix(frames_upto(nals, units, k), frames_upto(nals, units, p), p);
        let (a, b) = units[p as int];
        assert(range_fits(units, p as int));
        lemma_range_end(units, nals.len(), p as int);
        lemma_ends_grow(nals, a as int, b - 1);
        assert(has_slice(nals, a as int, b as int));
        if k < units.len() {
            assert(range_fits(units, k as int));
            lemma_range_end(units, nals.len(), k as int);
            assert(nals_touch(nals, b - 1));
        } else {
            assert(b == nals.len());
        }
    }
}

/// No range ends after the whole row.
proof fn lemma_range_end(units: Seq<(usize, usize)>, end: nat, i: int)
    requires
        in_a_row(units, end),
        0 <= i < units.len(),
    ensures
        units[i].1 <= end,
    decreases units.len() - i,
{
    assert(range_fits(units, i));
    if i + 1 < units.len() {
        assert(range_fits(units, i + 1));
        lemma_range_end(units, end, i + 1);
    }
}

proof fn lemma_ends_grow(nals: Seq<Nal>, a: int, b: int)
    requires
        0 <= a <= b < nals.len(),
        nals_in_a_row(nals),
    ensures
        nals[a].sc_offset <= nals[b].end,
    decreases b - a,
{
    if a < b {
        lemma_ends_grow(nals, a, b - 1);
        assert(nals_touch(nals, b - 1));
    }
}

/// The bytes of an access unit, from the start code of its first NAL unit on.
pub open spec fn unit_bytes(data: Seq<u8>, nals: Seq<Nal>, unit: (usize, usize)) -> Seq<u8> {
    data.subrange(nals[unit.0 as int].sc_offset as int, nals[unit.1 - 1].end as int)
}

/// A NAL unit without its start code.
pub open spec fn nal_bytes(data: Seq<u8>, nal: Nal) -> Seq<u8> {
    data.subrange(nal.data_offset as int, nal.end as int)
}

/// `n` NAL units from number `a` on, each after its length in four bytes.
pub open spec fn prefixed(data: Seq<u8>, nals: Seq<Nal>, a: int, n: nat) -> Seq<u8>
    decreases n,
{
    if n == 0 {
        Seq::empty()
    } else {
        let nal = nals[a + n - 1];
        prefixed(data, nals, a, (n - 1) as nat) + be_bytes(nal_bytes(data, nal).len(), 4)
            + nal_bytes(data, nal)
    }
}

/// Whether an access unit has no delimiter, and fits in 32 bits.
pub open spec fn is_transformable(nals: Seq<Nal>, unit: (usize, usize)) -> bool {
    &&& forall|j: int| unit.0 <= j < unit.1 ==> (#[trigger] nals[j]).nal_type != NAL_AUD
    &&& nals[unit.1 - 1].end - nals[unit.0 as int].sc_offset <= u32::MAX
}

/// Whether a frame is that of an access unit with a slice, and the transform with the
/// frame's lengths makes of the unit's bytes its NAL units, at most 255, each after its
/// length.
pub open spec fn transforms(
    data: Seq<u8>,
    nals: Seq<Nal>,
    unit: (usize, usize),
    f: FrameModel,
) -> bool {
    let bytes = unit_bytes(data, nals, unit);
    let n = f.nal_lengths.len();
    &&& has_slice(nals, unit.0 as int, unit.1 as int)
    &&& f == unit_frame(nals, unit.0 as int, unit.1 as int)
    &&& bytes.len() == f.frame_size
    &&& n == if unit.1 - unit.0 <= 255 {
        unit.1 - unit.0
    } else {
        255
    }
    &&& avcc(bytes, f.nal_lengths) == Ok::<Seq<u8>, MuxerFault>(
        prefixed(data, nals, unit.0 as int, n),
    )
    &&& prefixed(data, nals, unit.0 as int, n).len() == 4 * n + sum_to(f.nal_lengths, n)
}

/// Whether a frame is that of one of the access units, and is so of it where the unit has
/// no delimiter and fits in 32 bits.
pub open spec fn transforms_some(data: Seq<u8>, f: FrameModel) -> bool {
    let nals = nal_units(data);
    let units = access_units(nals);
    exists|i: int|
        0 <= i < units.len() && is_frame_of(nals, #[trigger] units[i], f) && (is_transformable(
            nals,
            units[i],
        ) ==> transforms(data, nals, units[i], f))
}

/// The lengths that the indexer gives for a frame make the transform of the frame succeed,
/// where the frame's access unit has no delimiter and fits in 32 bits.
pub proof fn indexed_frames_transform(data: Seq<u8>)
    requires
        data.len() <= usize::MAX,
    ensures
        h264_frames(data) matches Ok(frames) ==> forall|k: int|
            0 <= k < frames.len() ==> transforms_some(data, #[trigger] frames[k]),
{
    let codes = start_codes(data);
    let nals = nal_units(data);
    let units = access_units(nals);
    if let Ok(frames) = h264_frames(data) {
        if frames.len() > 0 {
            lemma_codes_sound(Seq::empty(), data, 0);
            lemma_codes_lengths(Seq::empty(), data, 0);
            lemma_nals(data, codes, codes.len());
            lemma_codes_count(codes, data.len() as int, codes.len());
            lemma_nals_row(data);
            lemma_units(Seq::empty(), nals, 0, 0);
            assert forall|k: int| 0 <= k < frames.len() implies transforms_some(
                data,
                #[trigger] frames[k],
            ) by {
                lemma_frame_source(nals, units, units.len(), k);
                let i = choose|i: int|
                    0 <= i < units.len() && is_frame_of(nals, #[trigger] units[i], frames[k]);
                assert(range_fits(units, i));
                lemma_range_end(units, nals.len(), i);
                if is_transformable(nals, units[i]) {
                    lemma_unit_transforms(data, units[i]);
                    assert(transforms(data, nals, units[i], frames[k]));
                }
            }
        }
    }
}

/// Whether a frame is that of an access unit.
pub open spec fn is_frame_of(nals: Seq<Nal>, unit: (usize, usize), f: FrameModel) -> bool {
    has_slice(nals, unit.0 as int, unit.1 as int) && f == unit_frame(
        nals,
        unit.0 as int,
        unit.1 as int,
    )
}

pub proof fn lemma_frame_source(nals: Seq<Nal>, units: Seq<(usize, usize)>, n: nat, k: int)
    requires
        n <= units.len(),
        0 <= k < frames_upto(nals, units, n).len(),
    ensures
        exists|i: int|
            0 <= i < n && is_frame_of(
                nals,
                #[trigger] units[i],
                frames_upto(nals, units, n)[k],
            ),
    decreases n,
{
    let before = frames_upto(nals, units, (n - 1) as nat);
    let all = frames_upto(nals, units, n);
    if k < before.len() {
        lemma_frame_source(nals, units, (n - 1) as nat, k);
        let i = choose|i: int| 0 <= i < n - 1 && is_frame_of(nals, #[trigger] units[i], before[k]);
        assert(0 <= i < n && is_frame_of(nals, units[i], all[k]));
    } else {
        assert(is_frame_of(nals, units[n - 1], all[k]));
    }
}

/// Each start code is as long as its bytes tell.
proof fn lemma_codes_lengths(acc: Seq<(usize, usize)>, data: Seq<u8>, i: int)
    requires
        data.len() <= usize::MAX,
        0 <= i <= data.len(),
        forall|k: int|
            0 <= k < acc.len() ==> start_code_len(data, (#[trigger] acc[k]).0 as int)
                == acc[k].1 - acc[k].0,
    ensures
        forall|k: int|
            0 <= k < codes_from(acc, data, i).len() ==> start_code_len(
                data,
                (#[trigger] codes_from(acc, data, i)[k]).0 as int,
            ) == codes_from(acc, data, i)[k].1 - codes_from(acc, data, i)[k].0,
    decreases data.len() - i,
{
    if i + 3 <= data.len() {
        let n = start_code_len(data, i);
        if n > 0 {
            let next = acc.push((i as usize, (i + n) as usize));
            lemma_codes_lengths(next, data, i + n);
            assert(codes_from(acc, data, i) == codes_from(next, data, i + n));
        } else {
            lemma_codes_lengths(acc, data, i + 1);
            assert(codes_from(acc, data, i) == codes_from(acc, data, i + 1));
        }
    } else {
        assert(codes_from(acc, data, i) == acc);
    }
}

/// The NAL units of a bitstream follow each other, and each has its start code before it.
proof fn lemma_nals_row(data: Seq<u8>)
    requires
        data.len() <= usize::MAX,
    ensures
        nals_in_a_row(nal_units(data)),
        forall|j: int|
            0 <= j < nal_units(data).len() ==> {
                let nal = #[trigger] nal_units(data)[j];
                &&& start_code_len(data, nal.sc_offset as int) == nal.data_offset - nal.sc_offset
                &&& nal.sc_offset < nal.data_offset
                &&& nal.data_offset <= nal.end
                &&& nal.end <= data.len()
            },
{
    let codes = start_codes(data);
    let nals = nal_units(data);
    lemma_codes_sound(Seq::empty(), data, 0);
    lemma_codes_lengths(Seq::empty(), data, 0);
    lemma_nals(data, codes, codes.len());
    assert forall|j: int| 0 <= j < nals.len() - 1 implies #[trigger] nals_touch(nals, j) by {
        assert(nals[j] == nal_at(data, codes, j));
        assert(nals[j + 1] == nal_at(data, codes, j + 1));
    }
    assert forall|j: int| 0 <= j < nals.len() implies ({
        let nal = #[trigger] nals[j];
        &&& start_code_len(data, nal.sc_offset as int) == nal.data_offset - nal.sc_offset
        &&& nal.sc_offset < nal.data_offset
        &&& nal.data_offset <= nal.end
        &&& nal.end <= data.len()
    }) by {
        assert(nals[j] == nal_at(data, codes, j));
        assert(codes[j].0 < codes[j].1);
        if j + 1 < codes.len() {
            assert(codes[j].1 <= codes[j + 1].0);
            assert(codes[j + 1].0 < codes[j + 1].1);
        }
    }
}

proof fn lemma_unit_transforms(data: Seq<u8>, unit: (usize, usize))
    requires
        data.len() <= usize::MAX,
        unit.0 < unit.1 <= nal_units(data).len(),
        is_transformable(nal_units(data), unit),
        has_slice(nal_units(data), unit.0 as int, unit.1 as int),
    ensures
        transforms(
            data,
            nal_units(data),
            unit,
            unit_frame(nal_units(data), unit.0 as int, unit.1 as int),
        ),
{
    let nals = nal_units(data);
    let a = unit.0 as int;
    let b = unit.1 as int;
    lemma_nals_row(data);
    lemma_ends_grow(nals, a, b - 1);
    lemma_unit_lengths(Seq::empty(), nals, a, a, b);
    let f = unit_frame(nals, a, b);
    let bytes = unit_bytes(data, nals, unit);
    assert(nals[b - 1].end <= data.len());
    lemma_transform_from(data, unit, f.nal_lengths, 0);
    assert(prefixed(data, nals, a, 0) =~= Seq::<u8>::empty());
    avcc_len(bytes, f.nal_lengths);
}

/// The lengths of the units of an access unit without delimiters.
proof fn lemma_unit_lengths(acc: Seq<u64>, nals: Seq<Nal>, a: int, k: int, b: int)
    requires
        0 <= a <= k <= b <= nals.len(),
        acc.len() == k - a,
        acc.len() <= 255,
        forall|j: int| a <= j < b ==> (#[trigger] nals[j]).nal_type != NAL_AUD,
        forall|j: int|
            0 <= j < acc.len() ==> #[trigger] acc[j] == (nals[a + j].end - nals[a
                + j].data_offset) as u64,
    ensures
        ({
            let r = unit_lengths(acc, nals, k, b);
            &&& r.len() == if b - a <= 255 {
                b - a
            } else {
                255
            }
            &&& forall|j: int|
                0 <= j < r.len() ==> #[trigger] r[j] == (nals[a + j].end - nals[a
                    + j].data_offset) as u64
        }),
    decreases b - k,
{
    if k < b && acc.len() < 255 {
        lemma_unit_lengths(
            acc.push((nals[k].end - nals[k].data_offset) as u64),
            nals,
            a,
            k + 1,
            b,
        );
    }
}

/// Where unit number `k` of an access unit starts in its bytes; after the last one, where
/// that ends.
pub open spec fn place_in_unit(nals: Seq<Nal>, a: int, k: int) -> int {
    if k == 0 {
        0
    } else {
        nals[a + k - 1].end - nals[a].sc_offset
    }
}

proof fn lemma_transform_from(data: Seq<u8>, unit: (usize, usize), lens: Seq<u64>, k: nat)
    requires
        data.len() <= usize::MAX,
        unit.0 < unit.1 <= nal_units(data).len(),
        is_transformable(nal_units(data), unit),
        k <= lens.len() <= unit.1 - unit.0,
        forall|j: int|
            0 <= j < lens.len() ==> #[trigger] lens[j] == (nal_units(data)[unit.0 + j].end
                - nal_units(data)[unit.0 + j].data_offset) as u64,
    ensures
        avcc_from(
            prefixed(data, nal_units(data), unit.0 as int, k),
            unit_bytes(data, nal_units(data), unit),
            lens,
            k,
            place_in_unit(nal_units(data), unit.0 as int, k as int),
        ) == Ok::<Seq<u8>, MuxerFault>(
            prefixed(data, nal_units(data), unit.0 as int, lens.len()),
        ),
    decreases lens.len() - k,
{
    let nals = nal_units(data);
    let a = unit.0 as int;
    let b = unit.1 as int;
    if k < lens.len() {
        lemma_nals_row(data);
        let bytes = unit_bytes(data, nals, unit);
        let base = nals[a].sc_offset as int;
        let j = a + k;
        let nal = nals[j];
        let pos = place_in_unit(nals, a, k as int);
        lemma_ends_order(nals, j, b - 1);
        if k > 0 {
            assert(nals_touch(nals, j - 1));
            lemma_ends_grow(nals, a, j - 1);
        }
        assert(pos == nal.sc_offset - base);
        assert(bytes.len() == nals[b - 1].end - base);
        assert(nal.end <= nals[b - 1].end);
        let code = nal.data_offset - nal.sc_offset;
        assert(start_code_len(data, nal.sc_offset as int) == code);
        assert(0 <= pos && pos + code <= bytes.len());
        assert(bytes[pos] == data[base + pos]);
        assert(bytes[pos + 1] == data[base + pos + 1]);
        assert(bytes[pos + 2] == data[base + pos + 2]);
        if pos + 4 <= bytes.len() {
            assert(bytes[pos + 3] == data[base + pos + 3]);
        }
        assert(start_code_len(bytes, pos) == code);
        let len = lens[k as int];
        assert(len == nal.end - nal.data_offset);
        assert(bytes.subrange(pos + code, pos + code + len) =~= nal_bytes(data, nal));
        assert(len <= u32::MAX);
        lemma_transform_from(data, unit, lens, k + 1);
    }
}

/// No NAL unit ends after a later one.
proof fn lemma_ends_order(nals: Seq<Nal>, i: int, j: int)
    requires
        0 <= i <= j < nals.len(),
        nals_in_a_row(nals),
    ensures
        nals[i].end <= nals[j].end,
    decreases j - i,
{
    if i < j {
        lemma_ends_order(nals, i, j - 1);
        assert(nals_touch(nals, j - 1));
    }
}

} // verus!
