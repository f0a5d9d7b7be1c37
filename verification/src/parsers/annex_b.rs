//! What the H.264 indexer makes of a bitstream: where NAL units are found, and which of them
//! make up a picture.
use crate::muxer::transformer::start_code_len;
use crate::parsers::common::{frame_models, FrameModel, ParseResult};
use crate::parsers::h264::{
    access_units, begins_unit, codes_from, frames_upto, h264_frames, has_slice, has_type, is_index,
    nal_at, nal_units, slice_seen, start_codes, unit_frame, unit_lengths, units_from, Nal,
};
use crate::parsers::laws::{
    in_a_row, is_frame_of, lemma_codes_sound, lemma_frame_source, lemma_nals, lemma_units,
};
use vstd::prelude::*;

verus! {

/// Whether two zeros and a one stand at `i`.
pub open spec fn is_start(data: Seq<u8>, i: int) -> bool {
    &&& 0 <= i
    &&& i + 3 <= data.len()
    &&& data[i] == 0
    &&& data[i + 1] == 0
    &&& data[i + 2] == 1
}

/// Whether a start code is two zeros and a one, with the zero before them, if there is one.
pub open spec fn is_whole_code(data: Seq<u8>, code: (usize, usize)) -> bool {
    &&& is_start(data, code.1 - 3)
    &&& code.0 == if code.1 >= 4 && data[code.1 - 4] == 0 {
        code.1 - 4
    } else {
        code.1 - 3
    }
}

/// Whether some start code ends behind the two zeros and the one at `i`.
pub open spec fn is_listed(codes: Seq<(usize, usize)>, i: int) -> bool {
    exists|k: int| 0 <= k < codes.len() && (#[trigger] codes[k]).1 == i + 3
}

/// Wherever two zeros and a one stand, a start code is found, with a zero before them if
/// there is one; and none is found elsewhere.
pub proof fn start_codes_are_where_they_stand(data: Seq<u8>)
    requires
        data.len() <= usize::MAX,
    ensures
        forall|k: int|
            0 <= k < start_codes(data).len() ==> is_whole_code(
                data,
                #[trigger] start_codes(data)[k],
            ),
        forall|i: int| #[trigger] is_start(data, i) ==> is_listed(start_codes(data), i),
{
    lemma_codes(Seq::empty(), data, 0);
}

proof fn lemma_codes(acc: Seq<(usize, usize)>, data: Seq<u8>, i: int)
    requires
        data.len() <= usize::MAX,
        0 <= i <= data.len(),
        forall|k: int| 0 <= k < acc.len() ==> is_whole_code(data, #[trigger] acc[k]),
        forall|j: int| #[trigger] is_start(data, j) && j < i ==> is_listed(acc, j),
        i > 0 && data[i - 1] == 0 ==> start_code_len(data, i - 1) == 0,
    ensures
        ({
            let codes = codes_from(acc, data, i);
            &&& forall|k: int| 0 <= k < codes.len() ==> is_whole_code(data, #[trigger] codes[k])
            &&& forall|j: int| #[trigger] is_start(data, j) ==> is_listed(codes, j)
        }),
    decreases data.len() - i,
{
    if i + 3 <= data.len() {
        let n = start_code_len(data, i);
        if n > 0 {
            let code = (i as usize, (i + n) as usize);
            let next = acc.push(code);
            assert(is_whole_code(data, code));
            assert forall|j: int| #[trigger] is_start(data, j) && j < i + n implies is_listed(
                next,
                j,
            ) by {
                if j < i {
                    let k = choose|k: int| 0 <= k < acc.len() && (#[trigger] acc[k]).1 == j + 3;
                    assert(next[k].1 == j + 3);
                } else {
                    assert(j == i + n - 3);
                    assert(next[acc.len() as int].1 == j + 3);
                }
            }
            lemma_codes(next, data, i + n);
            assert(codes_from(acc, data, i) == codes_from(next, data, i + n));
        } else {
            lemma_codes(acc, data, i + 1);
            assert(codes_from(acc, data, i) == codes_from(acc, data, i + 1));
        }
    }
}

/// Whether a NAL unit is that behind a start code: its type is the low five bits of its
/// first byte, and it ends where the next start code begins, the last one with the data.
pub open spec fn is_nal_of(data: Seq<u8>, codes: Seq<(usize, usize)>, nal: Nal, k: int) -> bool {
    &&& nal.sc_offset == codes[k].0
    &&& nal.data_offset == codes[k].1
    &&& nal.nal_type == data[codes[k].1 as int] % 32
    &&& nal.end == if k + 1 < codes.len() {
        codes[k + 1].0 as int
    } else {
        data.len() as int
    }
}

/// The NAL units are those behind the start codes, in order; only a code at the very end of
/// the data has none.
pub proof fn nal_units_stand_behind_the_codes(data: Seq<u8>)
    requires
        data.len() <= usize::MAX,
    ensures
        ({
            let codes = start_codes(data);
            let nals = nal_units(data);
            &&& nals.len() == if codes.len() > 0 && codes.last().1 == data.len() {
                codes.len() - 1
            } else {
                codes.len() as int
            }
            &&& forall|k: int|
                0 <= k < nals.len() ==> is_nal_of(data, codes, #[trigger] nals[k], k)
        }),
{
    let codes = start_codes(data);
    let nals = nal_units(data);
    lemma_codes_sound(Seq::empty(), data, 0);
    lemma_nals(data, codes, codes.len());
    if codes.len() > 0 {
        assert(codes.last().1 <= data.len());
        if codes.last().1 == data.len() {
            let n = (codes.len() - 1) as nat;
            lemma_nals(data, codes, n);
        }
    }
    assert forall|k: int| 0 <= k < nals.len() implies is_nal_of(
        data,
        codes,
        #[trigger] nals[k],
        k,
    ) by {
        let b = data[codes[k].1 as int];
        assert(b & 0x1F == b % 32) by (bit_vector);
        assert(nals[k] == nal_at(data, codes, k));
    }
}

/// Whether a NAL unit is a slice: of type 1, or of type 5 in a keyframe.
pub open spec fn is_picture(nal: Nal) -> bool {
    nal.nal_type == 1 || nal.nal_type == 5
}

/// Whether an access unit holds one picture at most: a delimiter (type 9) stands at its
/// start only, and no slice and no sequence parameter set (type 7) behind a slice.
pub open spec fn holds_one_picture(nals: Seq<Nal>, a: int, b: int) -> bool {
    &&& forall|k: int| a < k < b ==> (#[trigger] nals[k]).nal_type != 9
    &&& forall|j: int, k: int|
        a <= j < k < b && is_picture(#[trigger] nals[j]) ==> !is_picture(#[trigger] nals[k])
            && nals[k].nal_type != 7
}

/// Whether a picture stands among the NAL units from `a` up to `b`.
pub open spec fn has_picture(nals: Seq<Nal>, a: int, b: int) -> bool {
    exists|j: int| a <= j < b && is_picture(#[trigger] nals[j])
}

/// Whether an access unit has to end at `b`: a delimiter follows, or, behind a slice, another
/// slice or a sequence parameter set.
pub open spec fn must_end(nals: Seq<Nal>, a: int, b: int) -> bool {
    ||| nals[b].nal_type == 9
    ||| (is_picture(nals[b]) || nals[b].nal_type == 7) && has_picture(nals, a, b)
}

/// The access units fill the bitstream without a gap, each holds one picture at most, and
/// none ends before it must.
pub proof fn access_units_hold_one_picture(nals: Seq<Nal>)
    requires
        0 < nals.len() <= usize::MAX,
    ensures
        ({
            let units = access_units(nals);
            &&& in_a_row(units, nals.len())
            &&& forall|i: int|
                0 <= i < units.len() ==> holds_one_picture(
                    nals,
                    (#[trigger] units[i]).0 as int,
                    units[i].1 as int,
                )
            &&& forall|i: int|
                0 <= i < units.len() - 1 ==> must_end(
                    nals,
                    (#[trigger] units[i]).0 as int,
                    units[i].1 as int,
                )
        }),
{
    lemma_units(Seq::empty(), nals, 0, 0);
    lemma_pictures(Seq::empty(), nals, 0, 0);
}

proof fn lemma_pictures(acc: Seq<(usize, usize)>, nals: Seq<Nal>, first: nat, k: nat)
    requires
        0 < nals.len() <= usize::MAX,
        first <= k <= nals.len(),
        first == k ==> k == 0,
        forall|i: int|
            0 <= i < acc.len() ==> holds_one_picture(
                nals,
                (#[trigger] acc[i]).0 as int,
                acc[i].1 as int,
            ),
        forall|i: int|
            0 <= i < acc.len() ==> must_end(nals, (#[trigger] acc[i]).0 as int, acc[i].1 as int),
        holds_one_picture(nals, first as int, k as int),
        slice_seen(nals, k) == has_picture(nals, first as int, k as int),
    ensures
        ({
            let units = units_from(acc, nals, first, k);
            &&& forall|i: int|
                0 <= i < units.len() ==> holds_one_picture(
                    nals,
                    (#[trigger] units[i]).0 as int,
                    units[i].1 as int,
                )
            &&& forall|i: int|
                0 <= i < units.len() - 1 ==> must_end(
                    nals,
                    (#[trigger] units[i]).0 as int,
                    units[i].1 as int,
                )
        }),
    decreases nals.len() - k,
{
    if k < nals.len() {
        let ki = k as int;
        if k > first && begins_unit(nals, k) {
            let next = acc.push((first as usize, k as usize));
            assert(has_picture(nals, ki, ki + 1) == is_picture(nals[ki]));
            lemma_pictures(next, nals, k, k + 1);
            assert(units_from(acc, nals, first, k) == units_from(next, nals, k, k + 1));
        } else {
            lemma_picture_step(nals, first as int, ki);
            lemma_pictures(acc, nals, first, k + 1);
            assert(units_from(acc, nals, first, k) == units_from(acc, nals, first, k + 1));
        }
    } else {
        let units = acc.push((first as usize, nals.len() as usize));
        assert forall|i: int| 0 <= i < units.len() implies holds_one_picture(
            nals,
            (#[trigger] units[i]).0 as int,
            units[i].1 as int,
        ) by {
            if i < acc.len() {
                assert(units[i] == acc[i]);
            }
        }
        assert forall|i: int| 0 <= i < units.len() - 1 implies must_end(
            nals,
            (#[trigger] units[i]).0 as int,
            units[i].1 as int,
        ) by {
            assert(units[i] == acc[i]);
        }
    }
}

proof fn lemma_picture_step(nals: Seq<Nal>, a: int, k: int)
    requires
        0 <= a <= k < nals.len(),
    ensures
        has_picture(nals, a, k + 1) == (has_picture(nals, a, k) || is_picture(nals[k])),
{
    if has_picture(nals, a, k) {
        let j = choose|j: int| a <= j < k && is_picture(#[trigger] nals[j]);
        assert(a <= j < k + 1 && is_picture(nals[j]));
    }
    if is_picture(nals[k]) {
        assert(a <= k < k + 1 && is_picture(nals[k]));
    }
}

/// Whether a frame tells of an access unit: from the start code of its first NAL unit to the
/// end of its last, a keyframe where it has a slice of type 5, with NAL lengths always.
pub open spec fn tells_of(nals: Seq<Nal>, a: int, b: int, f: FrameModel) -> bool {
    let keyframe = exists|j: int| a <= j < b && (#[trigger] nals[j]).nal_type == 5;
    &&& has_picture(nals, a, b)
    &&& 0 <= nals[b - 1].end - nals[a].sc_offset <= u32::MAX ==> f.frame_size == nals[b - 1].end
        - nals[a].sc_offset
    &&& f.flags == if keyframe {
        3u8
    } else {
        2u8
    }
    &&& f.duration_delta == 0
}

/// Every frame tells of an access unit with a slice.
pub proof fn h264_frames_tell_of_pictures(data: Seq<u8>)
    ensures
        h264_frames(data) matches Ok(frames) ==> forall|k: int|
            0 <= k < frames.len() ==> exists|i: int|
                0 <= i < access_units(nal_units(data)).len() && tells_of(
                    nal_units(data),
                    (#[trigger] access_units(nal_units(data))[i]).0 as int,
                    access_units(nal_units(data))[i].1 as int,
                    #[trigger] frames[k],
                ),
{
    let nals = nal_units(data);
    let units = access_units(nals);
    if let Ok(frames) = h264_frames(data) {
        if frames.len() > 0 {
            assert forall|k: int| 0 <= k < frames.len() implies exists|i: int|
                0 <= i < units.len() && tells_of(
                    nals,
                    (#[trigger] units[i]).0 as int,
                    units[i].1 as int,
                    #[trigger] frames[k],
                ) by {
                lemma_frame_source(nals, units, units.len(), k);
                let i = choose|i: int|
                    0 <= i < units.len() && is_frame_of(nals, #[trigger] units[i], frames[k]);
                let a = units[i].0 as int;
                let b = units[i].1 as int;
                assert(has_picture(nals, a, b)) by {
                    if has_type(nals, a, b, 1) {
                        let j = choose|j: int| a <= j < b && (#[trigger] nals[j]).nal_type == 1;
                        assert(is_picture(nals[j]));
                    } else {
                        let j = choose|j: int| a <= j < b && (#[trigger] nals[j]).nal_type == 5;
                        assert(is_picture(nals[j]));
                    }
                }
                assert(tells_of(nals, a, b, frames[k]));
            }
        }
    }
}

/// The lengths of a frame are those of the NAL units of its access unit, in order, as long
/// as there are at most 255 and none is a delimiter but the first.
pub proof fn frame_lengths_are_those_of_its_units(nals: Seq<Nal>, a: int, b: int)
    requires
        0 <= a < b <= nals.len(),
        b - a <= 255,
        forall|k: int| a < k < b ==> (#[trigger] nals[k]).nal_type != 9,
        forall|k: int| a <= k < b ==> (#[trigger] nals[k]).data_offset <= nals[k].end,
    ensures
        ({
            let f = unit_frame(nals, a, b);
            let first = if nals[a].nal_type == 9 {
                a + 1
            } else {
                a
            };
            &&& f.nal_count == b - first
            &&& f.nal_lengths.len() == b - first
            &&& forall|j: int|
                0 <= j < b - first ==> #[trigger] f.nal_lengths[j] == nals[first + j].end
                    - nals[first + j].data_offset
        }),
{
    let first = if nals[a].nal_type == 9 {
        a + 1
    } else {
        a
    };
    lemma_lengths_listed(Seq::empty(), nals, first, first, b);
}

proof fn lemma_lengths_listed(acc: Seq<u64>, nals: Seq<Nal>, first: int, k: int, b: int)
    requires
        0 <= first <= k <= b <= nals.len(),
        b - first <= 255,
        acc.len() == k - first,
        forall|j: int|
            0 <= j < acc.len() ==> #[trigger] acc[j] == nals[first + j].end
                - nals[first + j].data_offset,
        forall|j: int| k <= j < b ==> (#[trigger] nals[j]).nal_type != 9,
        forall|j: int| k <= j < b ==> (#[trigger] nals[j]).data_offset <= nals[j].end,
    ensures
        ({
            let l = unit_lengths(acc, nals, k, b);
            &&& l.len() == b - first
            &&& forall|j: int|
                0 <= j < b - first ==> #[trigger] l[j] == nals[first + j].end - nals[first
                    + j].data_offset
        }),
    decreases b - k,
{
    if k < b {
        lemma_lengths_listed(
            acc.push((nals[k].end - nals[k].data_offset) as u64),
            nals,
            first,
            k + 1,
            b,
        );
    }
}

/// Video is told frame by frame, with NAL lengths, wherever it has frames; else there is an
/// error.
pub proof fn video_is_told_frame_by_frame(data: Seq<u8>, r: Result<ParseResult, String>)
    requires
        is_index(data, r),
    ensures
        match r {
            Ok(ParseResult::Vbr { frames, has_nal_lengths }) => has_nal_lengths && frames@.len() > 0
                && h264_frames(data) == Ok::<Seq<FrameModel>, Seq<char>>(frame_models(frames@)),
            Ok(ParseResult::Cbr(_)) => false,
            Err(_) => h264_frames(data) is Err || data.len() == 0 || h264_frames(data)->Ok_0.len()
                == 0,
        },
{
}

/// A bitstream without a start code is an error, and nothing is nothing.
pub proof fn streams_without_codes_are_refused(data: Seq<u8>)
    requires
        data.len() <= usize::MAX,
        forall|i: int| !#[trigger] is_start(data, i),
    ensures
        data.len() > 0 ==> h264_frames(data) == Err::<Seq<FrameModel>, Seq<char>>(
            "no Annex B start codes found"@,
        ),
        data.len() == 0 ==> h264_frames(data) == Ok::<Seq<FrameModel>, Seq<char>>(Seq::empty()),
{
    start_codes_are_where_they_stand(data);
    if start_codes(data).len() > 0 {
        assert(is_whole_code(data, start_codes(data)[0]));
        assert(is_start(data, start_codes(data)[0].1 - 3));
    }
}

/// Whether some frame tells of an access unit.
pub open spec fn has_its_frame(
    nals: Seq<Nal>,
    unit: (usize, usize),
    frames: Seq<FrameModel>,
) -> bool {
    exists|k: int|
        0 <= k < frames.len() && tells_of(
            nals,
            unit.0 as int,
            unit.1 as int,
            #[trigger] frames[k],
        )
}

/// Every access unit with a slice has its frame.
pub proof fn every_picture_has_its_frame(data: Seq<u8>, i: int)
    requires
        0 <= i < access_units(nal_units(data)).len(),
        has_picture(
            nal_units(data),
            access_units(nal_units(data))[i].0 as int,
            access_units(nal_units(data))[i].1 as int,
        ),
    ensures
        data.len() > 0 && start_codes(data).len() > 0 && nal_units(data).len() > 0 ==> (h264_frames(
            data,
        ) matches Ok(frames) && has_its_frame(
            nal_units(data),
            access_units(nal_units(data))[i],
            frames,
        )),
{
    let nals = nal_units(data);
    let units = access_units(nals);
    lemma_unit_has_frame(nals, units, units.len(), i);
}

proof fn lemma_unit_has_frame(nals: Seq<Nal>, units: Seq<(usize, usize)>, n: nat, i: int)
    requires
        0 <= i < n <= units.len(),
        has_picture(nals, units[i].0 as int, units[i].1 as int),
    ensures
        has_its_frame(nals, units[i], frames_upto(nals, units, n)),
    decreases n,
{
    let before = frames_upto(nals, units, (n - 1) as nat);
    let all = frames_upto(nals, units, n);
    if i < n - 1 {
        lemma_unit_has_frame(nals, units, (n - 1) as nat, i);
        let k = choose|k: int|
            0 <= k < before.len() && tells_of(
                nals,
                units[i].0 as int,
                units[i].1 as int,
                #[trigger] before[k],
            );
        assert(all[k] == before[k]);
    } else {
        let a = units[i].0 as int;
        let b = units[i].1 as int;
        let j = choose|j: int| a <= j < b && is_picture(#[trigger] nals[j]);
        assert(has_slice(nals, a, b)) by {
            if nals[j].nal_type == 1 {
                assert(has_type(nals, a, b, 1));
            } else {
                assert(has_type(nals, a, b, 5));
            }
        }
        assert(all[before.len() as int] == unit_frame(nals, a, b));
        assert(tells_of(nals, a, b, all[before.len() as int]));
    }
}

} // verus!
