//! What the indexers make of bitstreams that are put together from frames.
use crate::parsers::aac::{
    adts_duration, adts_frame_len, adts_frames, adts_from, adts_header_len, adts_rate, adts_sync,
    RATES,
};
use crate::parsers::ac3::{
    ac3_duration, ac3_frames, ac3_from, ac3_rate, ac3_size_at, AC3_FRAME_SIZES,
};
use crate::parsers::common::{
    audio_frame, audio_result, common_size, frame_models, marks_keyframe, FrameModel, ParseResult,
};
use crate::parsers::laws::sizes_upto;
use crate::text::decimal;
use vstd::prelude::*;
use vstd::string::*;

verus! {

/// The parts, one after the other, with `rest` behind them.
pub open spec fn joined(parts: Seq<Seq<u8>>, rest: Seq<u8>) -> Seq<u8>
    decreases parts.len(),
{
    if parts.len() == 0 {
        rest
    } else {
        parts[0] + joined(parts.skip(1), rest)
    }
}

/// Whether frames are those of audio parts: as many, in order, each as long as its part,
/// a keyframe without NAL units and without a delta.
pub open spec fn frames_of_parts(frames: Seq<FrameModel>, parts: Seq<Seq<u8>>) -> bool {
    &&& frames.len() == parts.len()
    &&& forall|k: int|
        0 <= k < frames.len() ==> {
            let f = #[trigger] frames[k];
            &&& f.frame_size == parts[k].len()
            &&& f.flags == 1
            &&& f.nal_count == 0
            &&& f.duration_delta == 0
            &&& f.nal_lengths.len() == 0
        }
}

/// The parts behind the first, their frames behind its frame.
proof fn lemma_frames_of_parts(acc: Seq<FrameModel>, done: Seq<Seq<u8>>, part: Seq<u8>)
    requires
        frames_of_parts(acc, done),
        part.len() <= u32::MAX,
    ensures
        frames_of_parts(acc.push(audio_frame(part.len() as u32)), done.push(part)),
{
    let next = acc.push(audio_frame(part.len() as u32));
    assert forall|k: int| 0 <= k < next.len() implies ({
        let f = #[trigger] next[k];
        &&& f.frame_size == done.push(part)[k].len()
        &&& f.flags == 1
        &&& f.nal_count == 0
        &&& f.duration_delta == 0
        &&& f.nal_lengths.len() == 0
    }) by {
        if k < acc.len() {
            assert(next[k] == acc[k]);
        }
    }
}

/// The fifth byte of an AC-3 header holds a rate code in its two high bits and a size code
/// in its six low bits; the two tell the size of the frame, or nothing where one of them
/// has no meaning.
pub proof fn ac3_header_tells_its_size(data: Seq<u8>, pos: int, fscod: u8, frmsizecod: u8)
    requires
        0 <= pos,
        pos + 5 <= data.len(),
        fscod < 4,
        frmsizecod < 64,
        data[pos + 4] == fscod * 64 + frmsizecod,
    ensures
        ac3_size_at(data, pos) == if fscod < 3 && frmsizecod < 38 {
            Some(AC3_FRAME_SIZES@[fscod as int]@[frmsizecod as int] as u32)
        } else {
            None
        },
{
    let b = data[pos + 4];
    assert(b >> 6 == b / 64 && b & 0x3F == b % 64) by (bit_vector);
    assert(b / 64 == fscod && b % 64 == frmsizecod) by (nonlinear_arith)
        requires
            b == fscod * 64 + frmsizecod,
            fscod < 4,
            frmsizecod < 64,
    ;
}

/// The bit rate in kbit/s that pair `k` of size codes stands for.
pub open spec fn ac3_kbits(k: int) -> int {
    if k < 5 {
        64 + 16 * k
    } else if k < 9 {
        160 + 32 * (k - 5)
    } else {
        320 + 64 * (k - 9)
    }
}

/// A frame holds 1536 samples, so that its size follows from the bit rate and the sample
/// rate: at 48 and at 32 kHz to the byte, the same for both codes of a pair; at 44.1 kHz to
/// within eight bytes, in whole words, with the second code of a pair for the longer frame.
pub proof fn ac3_sizes_follow_the_bit_rate(k: int)
    requires
        0 <= k < 19,
    ensures
        ({
            let at = AC3_FRAME_SIZES@;
            let kbits = ac3_kbits(k);
            &&& at[0]@[2 * k] * 8 * 48 == kbits * 1536
            &&& at[0]@[2 * k + 1] == at[0]@[2 * k]
            &&& at[2]@[2 * k] * 8 * 32 == kbits * 1536
            &&& at[2]@[2 * k + 1] == at[2]@[2 * k]
            &&& -8 * 8 * 441 <= at[1]@[2 * k] * 8 * 441 - kbits * 15360 <= 8 * 8 * 441
            &&& -8 * 8 * 441 <= at[1]@[2 * k + 1] * 8 * 441 - kbits * 15360 <= 8 * 8 * 441
            &&& at[1]@[2 * k] < at[1]@[2 * k + 1] <= at[1]@[2 * k] + 6
            &&& at[1]@[2 * k] % 2 == 0 && at[1]@[2 * k + 1] % 2 == 0
        }),
{
}

/// The sum of the first `n` sizes of a row, each times its place.
pub open spec fn weighed(row: Seq<u16>, n: nat) -> int
    decreases n,
{
    if n == 0 {
        0
    } else {
        weighed(row, (n - 1) as nat) + n * row[n - 1]
    }
}

/// The sizes at 44.1 kHz, which the bit rate does not tell to the byte, add up to this when
/// each is taken as often as its place says.
pub proof fn ac3_sizes_at_44100_add_up()
    ensures
        weighed(AC3_FRAME_SIZES@[1]@, 38) == 1735898,
{
    reveal_with_fuel(weighed, 39);
}

/// Whether a byte string is an AC-3 frame: it begins with the syncword and is as long as
/// its header tells.
pub open spec fn is_ac3_frame(part: Seq<u8>) -> bool {
    &&& part.len() >= 7
    &&& part[0] == 0x0B
    &&& part[1] == 0x77
    &&& ac3_size_at(part, 0) == Some(part.len() as u32)
    &&& part.len() <= u32::MAX
}

/// Whether a byte string is the beginning of a longer AC-3 frame.
pub open spec fn is_cut_ac3_frame(part: Seq<u8>) -> bool {
    &&& part.len() >= 7
    &&& part[0] == 0x0B
    &&& part[1] == 0x77
    &&& ac3_size_at(part, 0) matches Some(len) && len > part.len()
}

/// AC-3 frames in a row are indexed as that row. Behind them fewer than seven bytes, or a
/// frame that is cut short, are left out; anything else without a syncword, and a header that
/// tells no size, is an error that tells where it stands.
pub proof fn ac3_row_is_indexed(parts: Seq<Seq<u8>>, rest: Seq<u8>)
    requires
        forall|k: int| 0 <= k < parts.len() ==> is_ac3_frame(#[trigger] parts[k]),
    ensures
        rest.len() < 7 || is_cut_ac3_frame(rest) ==> (ac3_frames(
            joined(parts, rest),
        ) matches Ok(frames) && frames_of_parts(frames, parts)),
        rest.len() >= 7 && (rest[0] != 0x0B || rest[1] != 0x77) ==> ac3_frames(
            joined(parts, rest),
        ) == Err::<Seq<FrameModel>, Seq<char>>(
            "invalid AC-3 syncword at byte "@ + decimal(
                (joined(parts, rest).len() - rest.len()) as nat,
            ),
        ),
        rest.len() >= 7 && rest[0] == 0x0B && rest[1] == 0x77 && ac3_size_at(rest, 0) is None
            ==> ac3_frames(joined(parts, rest)) == Err::<Seq<FrameModel>, Seq<char>>(
            "cannot determine frame size at byte "@ + decimal(
                (joined(parts, rest).len() - rest.len()) as nat,
            ),
        ),
{
    let nil = Seq::<Seq<u8>>::empty();
    let data = joined(parts, rest);
    assert(nil + parts =~= parts);
    let frames = lemma_ac3_joined(Seq::empty(), nil, Seq::empty(), parts, rest);
    assert(Seq::<u8>::empty() + data =~= data);
    let pos = data.len() - rest.len();
    if rest.len() >= 7 {
        assert forall|i: int| 0 <= i < 7 implies #[trigger] data[pos + i] == rest[i] by {
            assert(data.skip(pos)[i] == rest[i]);
        }
        assert(data[pos] == data[pos + 0] && data[pos + 1] == rest[1] && data[pos + 3] == rest[3]
            && data[pos + 4] == rest[4] && data[pos + 5] == rest[5]);
    }
}

proof fn lemma_ac3_joined(
    acc: Seq<FrameModel>,
    done: Seq<Seq<u8>>,
    before: Seq<u8>,
    parts: Seq<Seq<u8>>,
    rest: Seq<u8>,
) -> (frames: Seq<FrameModel>)
    requires
        frames_of_parts(acc, done),
        forall|k: int| 0 <= k < parts.len() ==> is_ac3_frame(#[trigger] parts[k]),
    ensures
        frames_of_parts(frames, done + parts),
        ({
            let data = before + joined(parts, rest);
            &&& data.len() >= rest.len()
            &&& data.skip(data.len() - rest.len()) == rest
            &&& ac3_from(acc, data, before.len() as int) == ac3_from(
                frames,
                data,
                data.len() - rest.len(),
            )
        }),
    decreases parts.len(),
{
    let data = before + joined(parts, rest);
    let pos = before.len() as int;
    if parts.len() == 0 {
        assert(done + parts =~= done);
        assert(data.skip(pos) =~= rest);
        acc
    } else {
        let part = parts[0];
        let len = part.len() as u32;
        let tail = parts.skip(1);
        assert(is_ac3_frame(part));
        assert(data =~= (before + part) + joined(tail, rest));
        assert(data[pos] == part[0] && data[pos + 1] == part[1] && data[pos + 4] == part[4]);
        assert(ac3_size_at(data, pos) == Some(len));
        lemma_frames_of_parts(acc, done, part);
        assert forall|k: int| 0 <= k < tail.len() implies is_ac3_frame(#[trigger] tail[k]) by {
            assert(tail[k] == parts[k + 1]);
        }
        assert(done.push(part) + tail =~= done + parts);
        lemma_ac3_joined(acc.push(audio_frame(len)), done.push(part), before + part, tail, rest)
    }
}

/// The two high bits of the fifth byte tell the sample rate.
pub proof fn ac3_header_tells_its_rate(data: Seq<u8>)
    requires
        data.len() >= 5,
    ensures
        ac3_rate(data) == if data[4] < 64 {
            Some(48000u32)
        } else if data[4] < 128 {
            Some(44100u32)
        } else if data[4] < 192 {
            Some(32000u32)
        } else {
            None
        },
{
    let b = data[4];
    assert(b >> 6 == b / 64) by (bit_vector);
}

/// Whether `ns` is the time of so many samples in nanoseconds, rounded down.
pub open spec fn lasts(ns: u64, samples: nat, rate: u32) -> bool {
    ns * rate <= samples * 1_000_000_000 < (ns + 1) * rate
}

/// An AC-3 frame lasts as long as 1536 samples.
pub proof fn ac3_frames_last_1536_samples(data: Seq<u8>)
    ensures
        lasts(
            ac3_duration(data),
            1536,
            match ac3_rate(data) {
                Some(rate) => rate,
                None => 48000,
            },
        ),
{
    let rate: u32 = match ac3_rate(data) {
        Some(rate) => rate,
        None => 48000,
    };
    lemma_lasts(1536, rate);
}

/// A rounded quotient is the time of so many samples.
proof fn lemma_lasts(samples: nat, rate: u32)
    requires
        1000 <= rate,
        samples <= 2000,
    ensures
        lasts((samples * 1_000_000_000int / rate as int) as u64, samples, rate),
{
    let n = samples * 1_000_000_000int;
    let r = rate as int;
    let q = n / r;
    vstd::arithmetic::div_mod::lemma_fundamental_div_mod(n, r);
    vstd::arithmetic::div_mod::lemma_mod_bound(n, r);
    assert(0 <= q <= n) by (nonlinear_arith)
        requires
            n == r * q + n % r,
            0 <= n % r < r,
            r >= 1,
            n >= 0,
    ;
    assert(q * r <= n < (q + 1) * r) by (nonlinear_arith)
        requires
            n == r * q + n % r,
            0 <= n % r < r,
    ;
}

/// An ADTS header: the syncword takes the first twelve bits; the last bit of the second
/// byte tells whether there is no checksum; the length of the frame takes the two low bits
/// of the fourth byte, the fifth byte, and the three high bits of the sixth.
pub proof fn adts_header_tells_its_frame(data: Seq<u8>, pos: int)
    requires
        0 <= pos,
        pos + 7 <= data.len(),
    ensures
        adts_sync(data, pos) <==> data[pos] == 255 && data[pos + 1] >= 240,
        adts_header_len(data, pos) == if data[pos + 1] % 2 == 1 {
            7int
        } else {
            9int
        },
        adts_frame_len(data, pos) == (data[pos + 3] % 4) * 2048 + data[pos + 4] * 8 + data[pos + 5]
            / 32,
{
    let a = data[pos + 1];
    let b = data[pos + 3];
    let c = data[pos + 4];
    let d = data[pos + 5];
    assert(a & 0xF0 == 0xF0 <==> a >= 240) by (bit_vector);
    assert(a & 0x01 != 0 <==> a % 2 == 1) by (bit_vector);
    assert((((b & 0x03) as u32) << 11) | ((c as u32) << 3) | ((d as u32) >> 5) == ((b % 4) as u32)
        * 2048 + (c as u32) * 8 + (d as u32) / 32) by (bit_vector);
}

/// Whether a byte string is an ADTS frame: it begins with the syncword, is no shorter than
/// its header, and is as long as its header tells.
pub open spec fn is_adts_frame(part: Seq<u8>) -> bool {
    &&& part.len() >= 7
    &&& part[0] == 255
    &&& part[1] >= 240
    &&& part[1] % 2 == 0 ==> part.len() >= 9
    &&& part.len() == (part[3] % 4) * 2048 + part[4] * 8 + part[5] / 32
}

/// Whether a byte string is the beginning of a longer ADTS frame, or of one that tells a length
/// below that of its header.
pub open spec fn is_cut_adts_frame(part: Seq<u8>) -> bool {
    let len = (part[3] % 4) * 2048 + part[4] * 8 + part[5] / 32;
    let header: int = if part[1] % 2 == 1 {
        7
    } else {
        9
    };
    &&& part.len() >= 7
    &&& part[0] == 255
    &&& part[1] >= 240
    &&& len > part.len() || len < header
}

/// ADTS frames in a row are indexed as that row. Behind them fewer than seven bytes, or a
/// frame that is cut short, are left out; anything else without a syncword is an error that
/// tells where it stands.
pub proof fn adts_row_is_indexed(parts: Seq<Seq<u8>>, rest: Seq<u8>)
    requires
        forall|k: int| 0 <= k < parts.len() ==> is_adts_frame(#[trigger] parts[k]),
    ensures
        rest.len() < 7 || is_cut_adts_frame(rest) ==> (adts_frames(
            joined(parts, rest),
        ) matches Ok(frames) && frames_of_parts(frames, parts)),
        rest.len() >= 7 && (rest[0] != 255 || rest[1] < 240) ==> adts_frames(
            joined(parts, rest),
        ) == Err::<Seq<FrameModel>, Seq<char>>(
            "invalid ADTS syncword at byte "@ + decimal(
                (joined(parts, rest).len() - rest.len()) as nat,
            ),
        ),
{
    let nil = Seq::<Seq<u8>>::empty();
    let data = joined(parts, rest);
    assert(nil + parts =~= parts);
    let frames = lemma_adts_joined(Seq::empty(), nil, Seq::empty(), parts, rest);
    assert(Seq::<u8>::empty() + data =~= data);
    let pos = data.len() - rest.len();
    if rest.len() >= 7 {
        assert forall|i: int| 0 <= i < 7 implies #[trigger] data[pos + i] == rest[i] by {
            assert(data.skip(pos)[i] == rest[i]);
        }
        assert(data[pos] == data[pos + 0] && data[pos + 1] == rest[1] && data[pos + 3] == rest[3]
            && data[pos + 4] == rest[4] && data[pos + 5] == rest[5]);
        adts_header_tells_its_frame(data, pos);
    }
}

proof fn lemma_adts_joined(
    acc: Seq<FrameModel>,
    done: Seq<Seq<u8>>,
    before: Seq<u8>,
    parts: Seq<Seq<u8>>,
    rest: Seq<u8>,
) -> (frames: Seq<FrameModel>)
    requires
        frames_of_parts(acc, done),
        forall|k: int| 0 <= k < parts.len() ==> is_adts_frame(#[trigger] parts[k]),
    ensures
        frames_of_parts(frames, done + parts),
        ({
            let data = before + joined(parts, rest);
            &&& data.len() >= rest.len()
            &&& data.skip(data.len() - rest.len()) == rest
            &&& adts_from(acc, data, before.len() as int) == adts_from(
                frames,
                data,
                data.len() - rest.len(),
            )
        }),
    decreases parts.len(),
{
    let data = before + joined(parts, rest);
    let pos = before.len() as int;
    if parts.len() == 0 {
        assert(done + parts =~= done);
        assert(data.skip(pos) =~= rest);
        acc
    } else {
        let part = parts[0];
        let len = part.len() as u32;
        let tail = parts.skip(1);
        assert(is_adts_frame(part));
        assert(data =~= (before + part) + joined(tail, rest));
        assert(data[pos] == part[0] && data[pos + 1] == part[1] && data[pos + 3] == part[3]
            && data[pos + 4] == part[4] && data[pos + 5] == part[5]);
        adts_header_tells_its_frame(data, pos);
        lemma_frames_of_parts(acc, done, part);
        assert forall|k: int| 0 <= k < tail.len() implies is_adts_frame(#[trigger] tail[k]) by {
            assert(tail[k] == parts[k + 1]);
        }
        assert(done.push(part) + tail =~= done + parts);
        lemma_adts_joined(acc.push(audio_frame(len)), done.push(part), before + part, tail, rest)
    }
}

/// Bits two to five of the third byte, counted from the lowest, tell the sample rate. Three
/// rates are the highest of their families; each rate but the last is half of the one three
/// places before it.
pub proof fn adts_header_tells_its_rate(data: Seq<u8>)
    requires
        data.len() >= 4,
    ensures
        ({
            let code = (data[2] / 4) % 16;
            &&& code == 0 ==> adts_rate(data) == Some(96000u32)
            &&& code == 1 ==> adts_rate(data) == Some(88200u32)
            &&& code == 2 ==> adts_rate(data) == Some(64000u32)
            &&& code == 12 ==> adts_rate(data) == Some(7350u32)
            &&& code > 12 ==> adts_rate(data) is None
            &&& code <= 12 ==> adts_rate(data) == Some(RATES@[code as int])
        }),
        forall|i: int| 3 <= i < 12 ==> 2 * #[trigger] RATES@[i] == RATES@[i - 3],
{
    let b = data[2];
    assert((b >> 2) & 0x0F == (b / 4) % 16) by (bit_vector);
}

/// An ADTS frame lasts as long as 1024 samples.
pub proof fn adts_frames_last_1024_samples(data: Seq<u8>)
    ensures
        lasts(
            adts_duration(data),
            1024,
            match adts_rate(data) {
                Some(rate) => rate,
                None => 48000,
            },
        ),
{
    let rate: u32 = match adts_rate(data) {
        Some(rate) => rate,
        None => 48000,
    };
    assert(forall|i: int| 0 <= i < 13 ==> #[trigger] RATES@[i] >= 7350);
    lemma_lasts(1024, rate);
}

/// A track is told by one frame size exactly where all its frames have that size; number
/// and size of the frames then make up the size of the whole track.
pub proof fn equal_frames_are_told_by_one_size(
    frames: Seq<FrameModel>,
    r: ParseResult,
    ns: u64,
    lang: Seq<char>,
)
    requires
        frames.len() > 0,
        frames.len() <= u64::MAX,
        audio_result(frames, r, ns, lang),
    ensures
        match r {
            ParseResult::Cbr(info) => {
                &&& info.frame_count * info.cbr_frame_size == sizes_upto(frames, frames.len())
                &&& forall|k: int|
                    0 <= k < frames.len() ==> (#[trigger] frames[k]).frame_size
                        == info.cbr_frame_size
                &&& info.frame_count == frames.len()
                &&& info.frame_duration_ns == ns
                &&& info.language@ == lang
            },
            ParseResult::Vbr { frames: fs, has_nal_lengths } => {
                &&& !has_nal_lengths
                &&& frame_models(fs@) == frames
                &&& exists|a: int, b: int|
                    0 <= a < b < frames.len() && (#[trigger] frames[a]).frame_size != (
                    #[trigger] frames[b]).frame_size
            },
        },
{
    match r {
        ParseResult::Cbr(info) => {
            lemma_sizes_product(frames, info.cbr_frame_size, frames.len());
        },
        ParseResult::Vbr { frames: fs, has_nal_lengths } => {
            assert(common_size(frames) is None);
            let b = choose|b: int|
                0 <= b < frames.len() && (#[trigger] frames[b]).frame_size != frames[0].frame_size;
            assert(frames[0].frame_size != frames[b].frame_size);
        },
    }
}

proof fn lemma_sizes_product(frames: Seq<FrameModel>, size: u32, n: nat)
    requires
        n <= frames.len(),
        forall|k: int| 0 <= k < frames.len() ==> (#[trigger] frames[k]).frame_size == size,
    ensures
        sizes_upto(frames, n) == n * size,
    decreases n,
{
    if n > 0 {
        lemma_sizes_product(frames, size, (n - 1) as nat);
        assert(n * size == (n - 1) * size + size) by (nonlinear_arith);
    } else {
        assert(0 * size == 0) by (nonlinear_arith);
    }
}

/// The lowest bit of the flags marks a keyframe.
pub proof fn lowest_bit_marks_a_keyframe(flags: u8)
    ensures
        marks_keyframe(flags) == (flags % 2 == 1),
{
    assert((flags & 0x01 != 0) == (flags % 2 == 1)) by (bit_vector);
}

/// The index of AC-3 frames in a row: with one length for all, their number, that length, the
/// time of 1536 samples and the language; else each frame; and of nothing an error.
pub proof fn ac3_rows_have_their_index(
    parts: Seq<Seq<u8>>,
    language: Seq<char>,
    r: Result<ParseResult, String>,
)
    requires
        forall|k: int| 0 <= k < parts.len() ==> is_ac3_frame(#[trigger] parts[k]),
        parts.len() <= u64::MAX,
        crate::parsers::ac3::is_index(joined(parts, Seq::empty()), language, r),
    ensures
        parts.len() == 0 ==> r is Err,
        parts.len() > 0 ==> match r {
            Ok(ParseResult::Cbr(info)) => {
                &&& info.frame_count == parts.len()
                &&& forall|k: int|
                    0 <= k < parts.len() ==> (#[trigger] parts[k]).len() == info.cbr_frame_size
                &&& lasts(
                    info.frame_duration_ns,
                    1536,
                    match ac3_rate(joined(parts, Seq::empty())) {
                        Some(rate) => rate,
                        None => 48000,
                    },
                )
                &&& info.language@ == language
            },
            Ok(ParseResult::Vbr { frames, has_nal_lengths }) => {
                &&& !has_nal_lengths
                &&& frames_of_parts(frame_models(frames@), parts)
                &&& exists|a: int, b: int|
                    0 <= a < b < parts.len() && (#[trigger] parts[a]).len() != (
                    #[trigger] parts[b]).len()
            },
            Err(_) => false,
        },
{
    let nil = Seq::<u8>::empty();
    let data = joined(parts, nil);
    ac3_row_is_indexed(parts, nil);
    ac3_frames_last_1536_samples(data);
    if parts.len() > 0 {
        let frames = ac3_frames(data)->Ok_0;
        let p = r->Ok_0;
        equal_frames_are_told_by_one_size(frames, p, ac3_duration(data), language);
        match p {
            ParseResult::Cbr(info) => {
                assert forall|k: int| 0 <= k < parts.len() implies (#[trigger] parts[k]).len()
                    == info.cbr_frame_size by {
                    assert(frames[k].frame_size == parts[k].len());
                }
            },
            ParseResult::Vbr { frames: fs, has_nal_lengths } => {
                let (a, b) = choose|a: int, b: int|
                    0 <= a < b < frames.len() && (#[trigger] frames[a]).frame_size != (
                    #[trigger] frames[b]).frame_size;
                assert(parts[a].len() != parts[b].len());
            },
        }
    }
}

/// The index of ADTS frames in a row: with one length for all, their number, that length, the
/// time of 1024 samples and the language; else each frame; and of nothing an error.
pub proof fn adts_rows_have_their_index(
    parts: Seq<Seq<u8>>,
    language: Seq<char>,
    r: Result<ParseResult, String>,
)
    requires
        forall|k: int| 0 <= k < parts.len() ==> is_adts_frame(#[trigger] parts[k]),
        parts.len() <= u64::MAX,
        crate::parsers::aac::is_index(joined(parts, Seq::empty()), language, r),
    ensures
        parts.len() == 0 ==> r is Err,
        parts.len() > 0 ==> match r {
            Ok(ParseResult::Cbr(info)) => {
                &&& info.frame_count == parts.len()
                &&& forall|k: int|
                    0 <= k < parts.len() ==> (#[trigger] parts[k]).len() == info.cbr_frame_size
                &&& lasts(
                    info.frame_duration_ns,
                    1024,
                    match adts_rate(joined(parts, Seq::empty())) {
                        Some(rate) => rate,
                        None => 48000,
                    },
                )
                &&& info.language@ == language
            },
            Ok(ParseResult::Vbr { frames, has_nal_lengths }) => {
                &&& !has_nal_lengths
                &&& frames_of_parts(frame_models(frames@), parts)
                &&& exists|a: int, b: int|
                    0 <= a < b < parts.len() && (#[trigger] parts[a]).len() != (
                    #[trigger] parts[b]).len()
            },
            Err(_) => false,
        },
{
    let nil = Seq::<u8>::empty();
    let data = joined(parts, nil);
    adts_row_is_indexed(parts, nil);
    adts_frames_last_1024_samples(data);
    if parts.len() > 0 {
        let frames = adts_frames(data)->Ok_0;
        let p = r->Ok_0;
        equal_frames_are_told_by_one_size(frames, p, adts_duration(data), language);
        match p {
            ParseResult::Cbr(info) => {
                assert forall|k: int| 0 <= k < parts.len() implies (#[trigger] parts[k]).len()
                    == info.cbr_frame_size by {
                    assert(frames[k].frame_size == parts[k].len());
                }
            },
            ParseResult::Vbr { frames: fs, has_nal_lengths } => {
                let (a, b) = choose|a: int, b: int|
                    0 <= a < b < frames.len() && (#[trigger] frames[a]).frame_size != (
                    #[trigger] frames[b]).frame_size;
                assert(parts[a].len() != parts[b].len());
            },
        }
    }
}

} // verus!
