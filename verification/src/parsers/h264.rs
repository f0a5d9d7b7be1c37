//! H.264 Annex B bitstreams.
use crate::muxer::transformer::start_code_len;
use crate::parsers::common::{frame_models, FrameEntry, FrameModel, ParseResult};
use vstd::prelude::*;
use vstd::string::*;

verus! {

pub const NAL_NON_IDR_SLICE: u8 = 1;

pub const NAL_IDR_SLICE: u8 = 5;

pub const NAL_SEI: u8 = 6;

pub const NAL_SPS: u8 = 7;

pub const NAL_PPS: u8 = 8;

/// Access Unit Delimiter
pub const NAL_AUD: u8 = 9;

/// The start codes from `i` on, after those in `acc`: where each starts, and where
/// the NAL unit after it does.
pub open spec fn codes_from(acc: Seq<(usize, usize)>, data: Seq<u8>, i: int) -> Seq<(usize, usize)>
    decreases data.len() - i,
{
    if i + 3 > data.len() {
        acc
    } else {
        let n = start_code_len(data, i);
        if n > 0 {
            codes_from(acc.push((i as usize, (i + n) as usize)), data, i + n)
        } else {
            codes_from(acc, data, i + 1)
        }
    }
}

/// The start codes of a bitstream.
pub open spec fn start_codes(data: Seq<u8>) -> Seq<(usize, usize)> {
    codes_from(Seq::empty(), data, 0)
}

/// Whether start codes lie in the data, one after the other.
pub open spec fn codes_sound(codes: Seq<(usize, usize)>, end: int) -> bool {
    &&& forall|k: int|
        0 <= k < codes.len() ==> (#[trigger] codes[k]).0 < codes[k].1 && codes[k].1 <= end
    &&& forall|k: int, j: int|
        0 <= k < j < codes.len() ==> (#[trigger] codes[k]).1 <= (#[trigger] codes[j]).0
}

/// Locate all Annex B start codes in `data`.
/// Returns `(sc_offset, nal_data_offset)` pairs, where `sc_offset` is the
/// position of the first zero byte of the start code and `nal_data_offset`
/// is the position of the first byte of the NAL unit data (after the start code).
pub fn find_start_codes(data: &[u8]) -> (r: Vec<(usize, usize)>)
    ensures
        r@ == start_codes(data@),
        codes_sound(r@, data@.len() as int),
{
    let mut positions: Vec<(usize, usize)> = Vec::new();
    let mut i: usize = 0;
    let size: usize = data.len();
    assert(positions@ =~= Seq::<(usize, usize)>::empty());
    while size - i >= 3
        invariant
            size == data@.len(),
            i <= size,
            codes_sound(positions@, i as int),
            start_codes(data@) == codes_from(positions@, data@, i as int),
        decreases size - i,
    {
        if data[i] == 0x00 && data[i + 1] == 0x00 {
            if size - i >= 4 && data[i + 2] == 0x00 && data[i + 3] == 0x01 {
                positions.push((i, i + 4));
                i = i + 4;
                continue;
            } else if data[i + 2] == 0x01 {
                positions.push((i, i + 3));
                i = i + 3;
                continue;
            }
        }
        i = i + 1;
    }
    positions
}

/// A NAL unit: where its start code and its data start, its type, and where it ends.
#[derive(Debug, Clone, Copy, PartialEq, Eq)]
pub struct Nal {
    pub sc_offset: usize,
    pub data_offset: usize,
    pub nal_type: u8,
    pub end: usize,
}

/// The NAL unit after start code `k`; it ends where the next start code starts.
pub open spec fn nal_at(data: Seq<u8>, codes: Seq<(usize, usize)>, k: int) -> Nal {
    Nal {
        sc_offset: codes[k].0,
        data_offset: codes[k].1,
        nal_type: data[codes[k].1 as int] & 0x1F,
        end: if k + 1 < codes.len() {
            codes[k + 1].0
        } else {
            data.len() as usize
        },
    }
}

/// The NAL units after the first `n` start codes; a code at the very end has none.
pub open spec fn nals_upto(data: Seq<u8>, codes: Seq<(usize, usize)>, n: nat) -> Seq<Nal>
    decreases n,
{
    if n == 0 {
        Seq::empty()
    } else {
        let before = nals_upto(data, codes, (n - 1) as nat);
        if codes[n - 1].1 >= data.len() {
            before
        } else {
            before.push(nal_at(data, codes, n - 1))
        }
    }
}

/// The NAL units of a bitstream.
pub open spec fn nal_units(data: Seq<u8>) -> Seq<Nal> {
    nals_upto(data, start_codes(data), start_codes(data).len())
}

/// Whether NAL units stand in order.
pub open spec fn nals_sound(nals: Seq<Nal>, end: int) -> bool {
    &&& forall|k: int|
        0 <= k < nals.len() ==> (#[trigger] nals[k]).sc_offset < nals[k].data_offset
            && nals[k].data_offset <= nals[k].end && nals[k].end <= end
    &&& forall|k: int, j: int|
        0 <= k < j < nals.len() ==> (#[trigger] nals[k]).end <= (#[trigger] nals[j]).sc_offset
}

pub open spec fn is_slice(nal: Nal) -> bool {
    nal.nal_type == NAL_NON_IDR_SLICE || nal.nal_type == NAL_IDR_SLICE
}

/// Whether the access unit that unit `k` might go on with has a slice.
pub open spec fn slice_seen(nals: Seq<Nal>, k: nat) -> bool
    decreases k, 0int,
{
    if k == 0 {
        false
    } else {
        is_slice(nals[k - 1]) || (slice_seen(nals, (k - 1) as nat) && !begins_unit(
            nals,
            (k - 1) as nat,
        ))
    }
}

/// Whether unit `k` begins a new access unit: a delimiter always does; a slice or an
/// SPS does after a slice.
pub open spec fn begins_unit(nals: Seq<Nal>, k: nat) -> bool
    decreases k, 1int,
{
    let nal = nals[k as int];
    nal.nal_type == NAL_AUD || ((is_slice(nal) || nal.nal_type == NAL_SPS) && slice_seen(nals, k))
}

/// The access units, as ranges of NAL units, after those in `acc`; the current one
/// begins with unit `first`, and unit `k` comes next.
pub open spec fn units_from(acc: Seq<(usize, usize)>, nals: Seq<Nal>, first: nat, k: nat) -> Seq<
    (usize, usize),
>
    decreases nals.len() - k,
{
    if k >= nals.len() {
        acc.push((first as usize, nals.len() as usize))
    } else if k > first && begins_unit(nals, k) {
        units_from(acc.push((first as usize, k as usize)), nals, k, k + 1)
    } else {
        units_from(acc, nals, first, k + 1)
    }
}

/// The access units of NAL units.
pub open spec fn access_units(nals: Seq<Nal>) -> Seq<(usize, usize)> {
    units_from(Seq::empty(), nals, 0, 0)
}

/// Whether one of the units from `a` up to `b` has this type.
pub open spec fn has_type(nals: Seq<Nal>, a: int, b: int, nal_type: u8) -> bool {
    exists|k: int| a <= k < b && (#[trigger] nals[k]).nal_type == nal_type
}

/// The payload lengths of the units from `k` up to `b`, without delimiters, after
/// those in `acc`; at most 255.
pub open spec fn unit_lengths(acc: Seq<u64>, nals: Seq<Nal>, k: int, b: int) -> Seq<u64>
    decreases b - k,
{
    if k >= b || acc.len() >= 255 {
        acc
    } else if nals[k].nal_type == NAL_AUD {
        unit_lengths(acc, nals, k + 1, b)
    } else {
        unit_lengths(
            acc.push((nals[k].end - nals[k].data_offset) as u64),
            nals,
            k + 1,
            b,
        )
    }
}

/// The frame of an access unit.
pub open spec fn unit_frame(nals: Seq<Nal>, a: int, b: int) -> FrameModel {
    let lengths = unit_lengths(Seq::empty(), nals, a, b);
    FrameModel {
        frame_size: (nals[b - 1].end - nals[a].sc_offset) as u32,
        flags: if has_type(nals, a, b, NAL_IDR_SLICE) {
            0x03
        } else {
            0x02
        },
        nal_count: lengths.len() as u8,
        duration_delta: 0,
        nal_lengths: lengths,
    }
}

/// Whether an access unit has a slice.
pub open spec fn has_slice(nals: Seq<Nal>, a: int, b: int) -> bool {
    has_type(nals, a, b, NAL_NON_IDR_SLICE) || has_type(nals, a, b, NAL_IDR_SLICE)
}

/// The frames of the first `n` access units; those without a slice have none.
pub open spec fn frames_upto(nals: Seq<Nal>, units: Seq<(usize, usize)>, n: nat) -> Seq<FrameModel>
    decreases n,
{
    if n == 0 {
        Seq::empty()
    } else {
        let before = frames_upto(nals, units, (n - 1) as nat);
        let (a, b) = units[n - 1];
        if has_slice(nals, a as int, b as int) {
            before.push(unit_frame(nals, a as int, b as int))
        } else {
            before
        }
    }
}

/// The frames of a bitstream, or why there are none.
pub open spec fn h264_frames(data: Seq<u8>) -> Result<Seq<FrameModel>, Seq<char>> {
    let nals = nal_units(data);
    let units = access_units(nals);
    let frames = frames_upto(nals, units, units.len());
    if data.len() == 0 {
        Ok(Seq::empty())
    } else if start_codes(data).len() == 0 {
        Err("no Annex B start codes found"@)
    } else if nals.len() == 0 {
        Err("no valid NAL units"@)
    } else if frames.len() == 0 {
        Err("no slice NAL units found after header filtering"@)
    } else {
        Ok(frames)
    }
}

/// The NAL units after the start codes of `data`.
fn split_nals(data: &[u8], codes: &Vec<(usize, usize)>) -> (r: Vec<Nal>)
    requires
        codes_sound(codes@, data@.len() as int),
    ensures
        r@ == nals_upto(data@, codes@, codes@.len()),
        nals_sound(r@, data@.len() as int),
{
    let mut nals: Vec<Nal> = Vec::new();
    let mut k: usize = 0;
    let size: usize = data.len();
    assert(nals@ =~= Seq::<Nal>::empty());
    while k < codes.len()
        invariant
            size == data@.len(),
            codes_sound(codes@, data@.len() as int),
            k <= codes@.len(),
            nals@ == nals_upto(data@, codes@, k as nat),
            nals_sound(nals@, data@.len() as int),
            k < codes@.len() ==> forall|j: int|
                0 <= j < nals@.len() ==> (#[trigger] nals@[j]).end <= codes@[k as int].0,
        decreases codes@.len() - k,
    {
        let (sc_offset, data_offset): (usize, usize) = codes[k];
        if data_offset < size {
            let end: usize = if k + 1 < codes.len() {
                codes[k + 1].0
            } else {
                size
            };
            nals.push(Nal { sc_offset, data_offset, nal_type: data[data_offset] & 0x1F, end });
        }
        proof {
            if k + 1 < codes@.len() {
                assert(codes@[k as int].1 <= codes@[k + 1].0);
            }
        }
        k = k + 1;
    }
    nals
}

/// Whether access units are ranges of NAL units, none of them empty.
pub open spec fn units_sound(units: Seq<(usize, usize)>, n: int) -> bool {
    forall|i: int| 0 <= i < units.len() ==> (#[trigger] units[i]).0 < units[i].1 && units[i].1 <= n
}

/// The access units of `nals`, as ranges.
fn group_units(nals: &Vec<Nal>) -> (r: Vec<(usize, usize)>)
    requires
        nals@.len() > 0,
    ensures
        r@ == access_units(nals@),
        units_sound(r@, nals@.len() as int),
{
    let mut units: Vec<(usize, usize)> = Vec::new();
    let mut first: usize = 0;
    let mut seen_slice: bool = false;
    let mut k: usize = 0;
    assert(units@ =~= Seq::<(usize, usize)>::empty());
    while k < nals.len()
        invariant
            nals@.len() > 0,
            k <= nals@.len(),
            first <= k,
            first == k ==> k == 0,
            seen_slice == slice_seen(nals@, k as nat),
            units_sound(units@, nals@.len() as int),
            access_units(nals@) == units_from(units@, nals@, first as nat, k as nat),
        decreases nals@.len() - k,
    {
        let nal: Nal = nals[k];
        let slice: bool = nal.nal_type == NAL_NON_IDR_SLICE || nal.nal_type == NAL_IDR_SLICE;
        let start_new: bool = nal.nal_type == NAL_AUD || (slice && seen_slice) || (nal.nal_type
            == NAL_SPS && seen_slice);
        assert(start_new == begins_unit(nals@, k as nat));
        if start_new {
            if k > first {
                units.push((first, k));
                first = k;
            }
            seen_slice = false;
        }
        if slice {
            seen_slice = true;
        }
        k = k + 1;
    }
    units.push((first, k));
    units
}

/// The frame of the units from `a` up to `b`, if one of them is a slice.
fn frame_of_unit(nals: &Vec<Nal>, a: usize, b: usize, Ghost(size): Ghost<int>) -> (r: Option<
    FrameEntry,
>)
    requires
        a < b <= nals@.len(),
        nals_sound(nals@, size),
    ensures
        match r {
            Some(f) => has_slice(nals@, a as int, b as int) && f@ == unit_frame(
                nals@,
                a as int,
                b as int,
            ),
            None => !has_slice(nals@, a as int, b as int),
        },
{
    let mut slice: bool = false;
    let mut idr: bool = false;
    let mut k: usize = a;
    while k < b
        invariant
            a <= k <= b <= nals@.len(),
            slice == has_slice(nals@, a as int, k as int),
            idr == has_type(nals@, a as int, k as int, NAL_IDR_SLICE),
        decreases b - k,
    {
        let t: u8 = nals[k].nal_type;
        if t == NAL_NON_IDR_SLICE || t == NAL_IDR_SLICE {
            slice = true;
        }
        if t == NAL_IDR_SLICE {
            idr = true;
        }
        proof {
            lemma_has_type_step(nals@, a as int, k as int, NAL_IDR_SLICE);
            lemma_has_type_step(nals@, a as int, k as int, NAL_NON_IDR_SLICE);
        }
        k = k + 1;
    }
    if !slice {
        return None;
    }
    let mut nal_lengths: Vec<u64> = Vec::new();
    let mut j: usize = a;
    assert(nal_lengths@ =~= Seq::<u64>::empty());
    while j < b && nal_lengths.len() < 255
        invariant
            a <= j <= b <= nals@.len(),
            nals_sound(nals@, size),
            nal_lengths@.len() <= 255,
            unit_lengths(Seq::empty(), nals@, a as int, b as int) == unit_lengths(
                nal_lengths@,
                nals@,
                j as int,
                b as int,
            ),
        decreases b - j,
    {
        let nal: Nal = nals[j];
        if nal.nal_type != NAL_AUD {
            assert(nals@[j as int].data_offset <= nals@[j as int].end);
            nal_lengths.push((nal.end - nal.data_offset) as u64);
        }
        j = j + 1;
    }
    let start: usize = nals[a].sc_offset;
    let end: usize = nals[b - 1].end;
    proof {
        assert(nals@[a as int].sc_offset < nals@[a as int].data_offset);
        if a < b - 1 {
            assert(nals@[a as int].end <= nals@[b - 1].sc_offset);
        }
        assert(nals@[b - 1].sc_offset < nals@[b - 1].data_offset);
    }
    let nal_count: u8 = nal_lengths.len() as u8;
    Some(
        FrameEntry {
            frame_size: (end - start) as u32,
            flags: if idr {
                0x03
            } else {
                0x02
            },
            nal_count,
            duration_delta: 0,
            nal_lengths,
        },
    )
}

proof fn lemma_has_type_step(nals: Seq<Nal>, a: int, k: int, t: u8)
    requires
        0 <= a <= k < nals.len(),
    ensures
        has_type(nals, a, k + 1, t) == (has_type(nals, a, k, t) || nals[k].nal_type == t),
{
    if has_type(nals, a, k, t) {
        let i = choose|i: int| a <= i < k && (#[trigger] nals[i]).nal_type == t;
        assert(a <= i < k + 1 && nals[i].nal_type == t);
    }
    if nals[k].nal_type == t {
        assert(a <= k < k + 1 && nals[k].nal_type == t);
    }
}

/// The frames of an H.264 Annex B bitstream: one per access unit with a slice.
pub fn index_h264(data: &[u8]) -> (r: Result<Vec<FrameEntry>, String>)
    ensures
        match r {
            Ok(v) => h264_frames(data@) == Ok::<Seq<FrameModel>, Seq<char>>(frame_models(v@)),
            Err(s) => h264_frames(data@) == Err::<Seq<FrameModel>, Seq<char>>(s@),
        },
{
    let mut frames: Vec<FrameEntry> = Vec::new();
    assert(frame_models(frames@) =~= Seq::<FrameModel>::empty());
    if data.len() == 0 {
        return Ok(frames);
    }
    let codes: Vec<(usize, usize)> = find_start_codes(data);
    if codes.len() == 0 {
        return Err("no Annex B start codes found".to_owned());
    }
    let nals: Vec<Nal> = split_nals(data, &codes);
    if nals.len() == 0 {
        return Err("no valid NAL units".to_owned());
    }
    let units: Vec<(usize, usize)> = group_units(&nals);
    let mut i: usize = 0;
    while i < units.len()
        invariant
            i <= units@.len(),
            nals_sound(nals@, data@.len() as int),
            units_sound(units@, nals@.len() as int),
            frame_models(frames@) == frames_upto(nals@, units@, i as nat),
        decreases units@.len() - i,
    {
        let (a, b): (usize, usize) = units[i];
        assert(units@[i as int].0 < units@[i as int].1);
        if let Some(f) = frame_of_unit(&nals, a, b, Ghost(data@.len() as int)) {
            proof {
                assert(frame_models(frames@.push(f)) =~= frame_models(frames@).push(f@));
            }
            frames.push(f);
        }
        i = i + 1;
    }
    if frames.len() == 0 {
        return Err("no slice NAL units found after header filtering".to_owned());
    }
    Ok(frames)
}

proof fn lemma_unit_lengths_bound(acc: Seq<u64>, nals: Seq<Nal>, k: int, b: int)
    requires
        acc.len() <= 255,
    ensures
        unit_lengths(acc, nals, k, b).len() <= 255,
    decreases b - k,
{
    if k < b && acc.len() < 255 {
        if nals[k].nal_type == NAL_AUD {
            lemma_unit_lengths_bound(acc, nals, k + 1, b);
        } else {
            lemma_unit_lengths_bound(
                acc.push((nals[k].end - nals[k].data_offset) as u64),
                nals,
                k + 1,
                b,
            );
        }
    }
}

/// Every frame of a bitstream counts its NAL lengths, and says that it has them.
pub proof fn h264_frames_count_their_nals(data: Seq<u8>)
    ensures
        h264_frames(data) matches Ok(frames) ==> forall|i: int|
            0 <= i < frames.len() ==> (#[trigger] frames[i]).nal_count
                == frames[i].nal_lengths.len() && (frames[i].flags == 0x02 || frames[i].flags
                == 0x03),
{
    let nals = nal_units(data);
    let units = access_units(nals);
    lemma_frames_count_their_nals(nals, units, units.len());
}

proof fn lemma_frames_count_their_nals(nals: Seq<Nal>, units: Seq<(usize, usize)>, n: nat)
    ensures
        forall|i: int|
            0 <= i < frames_upto(nals, units, n).len() ==> {
                let f = #[trigger] frames_upto(nals, units, n)[i];
                f.nal_count == f.nal_lengths.len() && (f.flags == 0x02 || f.flags == 0x03)
            },
    decreases n,
{
    if n > 0 {
        lemma_frames_count_their_nals(nals, units, (n - 1) as nat);
        let (a, b) = units[n - 1];
        lemma_unit_lengths_bound(Seq::empty(), nals, a as int, b as int);
        let before = frames_upto(nals, units, (n - 1) as nat);
        let all = frames_upto(nals, units, n);
        assert forall|i: int| 0 <= i < all.len() implies ({
            let f = #[trigger] all[i];
            f.nal_count == f.nal_lengths.len() && (f.flags == 0x02 || f.flags == 0x03)
        }) by {
            if i < before.len() {
                assert(all[i] == before[i]);
            }
        }
    }
}

/// Whether `r` is the index of a bitstream: its frames with their NAL lengths, or why there is
/// none.
pub open spec fn is_index(data: Seq<u8>, r: Result<ParseResult, String>) -> bool {
    match h264_frames(data) {
        Err(fault) => r matches Err(s) && s@ == "parse error: "@ + fault,
        Ok(frames) => if frames.len() == 0 {
            r matches Err(s) && s@ == "no H.264 frames found"@
        } else {
            r matches Ok(ParseResult::Vbr { frames: fs, has_nal_lengths }) && has_nal_lengths
                && frame_models(fs@) == frames
        },
    }
}

/// Indexes a bitstream; video is always told frame by frame.
pub fn index_track(data: &[u8]) -> (r: Result<ParseResult, String>)
    ensures
        is_index(data@, r),
{
    match index_h264(data) {
        Err(e) => {
            let mut s: String = "parse error: ".to_owned();
            s.append(e.as_str());
            Err(s)
        },
        Ok(frames) => {
            if frames.len() == 0 {
                return Err("no H.264 frames found".to_owned());
            }
            Ok(ParseResult::Vbr { frames, has_nal_lengths: true })
        },
    }
}

} // verus!
