//! AC-3 bitstreams.
use crate::parsers::common::{
    audio_entry, audio_frame, audio_result, audio_track, frame_models, FrameEntry, FrameModel,
    ParseResult,
};
use crate::text::{decimal, push_decimal};
use vstd::prelude::*;
use vstd::string::*;

verus! {

/// Frame sizes in bytes by sample rate code and frame size code.
pub const AC3_FRAME_SIZES: [[u16; 38]; 3] = [
    [
        256, 256, 320, 320, 384, 384, 448, 448, 512, 512, 640, 640, 768, 768, 896, 896, 1024, 1024,
        1280, 1280, 1536, 1536, 1792, 1792, 2048, 2048, 2304, 2304, 2560, 2560, 2816, 2816, 3072,
        3072, 3328, 3328, 3584, 3584,
    ],
    [
        276, 280, 348, 350, 416, 418, 484, 488, 556, 560, 696, 700, 834, 836, 974, 976, 1114, 1116,
        1394, 1396, 1664, 1670, 1950, 1954, 2228, 2232, 2506, 2512, 2786, 2790, 3066, 3070, 3346,
        3350, 3626, 3630, 3906, 3908,
    ],
    [
        384, 384, 480, 480, 576, 576, 672, 672, 768, 768, 960, 960, 1152, 1152, 1344, 1344, 1536,
        1536, 1920, 1920, 2304, 2304, 2688, 2688, 3072, 3072, 3456, 3456, 3840, 3840, 4224, 4224,
        4608, 4608, 4992, 4992, 5376, 5376,
    ],
];

pub const AC3_SAMPLE_RATES: [u32; 3] = [48000, 44100, 32000];

/// The frame size that the header at `pos` tells; its fifth byte holds both codes.
pub open spec fn ac3_size_at(data: Seq<u8>, pos: int) -> Option<u32> {
    if pos + 5 > data.len() {
        None
    } else {
        let fscod = data[pos + 4] >> 6;
        let frmsizecod = data[pos + 4] & 0x3F;
        if fscod >= 3 || frmsizecod >= 38 {
            None
        } else {
            Some(AC3_FRAME_SIZES@[fscod as int]@[frmsizecod as int] as u32)
        }
    }
}

/// No frame size is zero.
proof fn lemma_sizes_positive()
    ensures
        forall|i: int, j: int|
            0 <= i < 3 && 0 <= j < 38 ==> #[trigger] AC3_FRAME_SIZES@[i]@[j] > 0,
{
}

/// The frame size that the header at the start of `header` tells.
pub fn ac3_frame_size(header: &[u8]) -> (r: Option<u32>)
    ensures
        r == ac3_size_at(header@, 0),
{
    if header.len() < 5 {
        return None;
    }
    let fscod: usize = (header[4] >> 6) as usize;
    let frmsizecod: usize = (header[4] & 0x3F) as usize;
    if fscod >= 3 || frmsizecod >= 38 {
        return None;
    }
    Some(AC3_FRAME_SIZES[fscod][frmsizecod] as u32)
}

/// The sample rate that the first header tells.
pub open spec fn ac3_rate(data: Seq<u8>) -> Option<u32> {
    if data.len() < 5 {
        None
    } else {
        let fscod = data[4] >> 6;
        if fscod < 3 {
            Some(AC3_SAMPLE_RATES@[fscod as int])
        } else {
            None
        }
    }
}

/// The sample rate that the first header tells.
pub fn ac3_sample_rate(data: &[u8]) -> (r: Option<u32>)
    ensures
        r == ac3_rate(data@),
{
    if data.len() < 5 {
        return None;
    }
    let fscod: usize = (data[4] >> 6) as usize;
    if fscod < 3 {
        Some(AC3_SAMPLE_RATES[fscod])
    } else {
        None
    }
}

/// The frames from `pos` on, after those in `acc`. A frame that the data cuts short
/// ends the list.
pub open spec fn ac3_from(acc: Seq<FrameModel>, data: Seq<u8>, pos: int) -> Result<
    Seq<FrameModel>,
    Seq<char>,
>
    decreases data.len() - pos,
{
    if pos + 7 > data.len() {
        Ok(acc)
    } else if data[pos] != 0x0B || data[pos + 1] != 0x77 {
        Err("invalid AC-3 syncword at byte "@ + decimal(pos as nat))
    } else {
        match ac3_size_at(data, pos) {
            None => Err("cannot determine frame size at byte "@ + decimal(pos as nat)),
            Some(len) => if pos + len > data.len() || len == 0 {
                Ok(acc)
            } else {
                ac3_from(acc.push(audio_frame(len)), data, pos + len)
            },
        }
    }
}

/// The frames of a bitstream.
pub open spec fn ac3_frames(data: Seq<u8>) -> Result<Seq<FrameModel>, Seq<char>> {
    ac3_from(Seq::empty(), data, 0)
}

/// The frames of an AC-3 bitstream.
pub fn index_ac3(data: &[u8]) -> (r: Result<Vec<FrameEntry>, String>)
    ensures
        match r {
            Ok(v) => ac3_frames(data@) == Ok::<Seq<FrameModel>, Seq<char>>(frame_models(v@)),
            Err(s) => ac3_frames(data@) == Err::<Seq<FrameModel>, Seq<char>>(s@),
        },
{
    let mut frames: Vec<FrameEntry> = Vec::new();
    let mut pos: usize = 0;
    let size: usize = data.len();
    assert(frame_models(frames@) =~= Seq::<FrameModel>::empty());
    while size - pos >= 7
        invariant
            size == data@.len(),
            pos <= size,
            ac3_frames(data@) == ac3_from(frame_models(frames@), data@, pos as int),
        decreases size - pos,
    {
        if data[pos] != 0x0B || data[pos + 1] != 0x77 {
            let mut s: String = "invalid AC-3 syncword at byte ".to_owned();
            push_decimal(&mut s, pos as u128);
            return Err(s);
        }
        let frame_size: u32 = match ac3_frame_size(&data[pos..size]) {
            Some(n) => n,
            None => {
                let mut s: String = "cannot determine frame size at byte ".to_owned();
                push_decimal(&mut s, pos as u128);
                return Err(s);
            },
        };
        proof {
            lemma_sizes_positive();
        }
        if frame_size as usize > size - pos {
            // Truncated final frame: stop.
            return Ok(frames);
        }
        let entry: FrameEntry = audio_entry(frame_size);
        proof {
            assert(frame_models(frames@.push(entry)) =~= frame_models(frames@).push(entry@));
        }
        frames.push(entry);
        pos = pos + frame_size as usize;
    }
    Ok(frames)
}

/// The duration of a frame of 1536 samples in nanoseconds; at 48 kHz where the rate
/// is not known.
pub open spec fn ac3_duration(data: Seq<u8>) -> u64 {
    match ac3_rate(data) {
        Some(rate) => (1_536_000_000_000int / rate as int) as u64,
        None => (1_536_000_000_000int / 48000) as u64,
    }
}

/// Whether `r` is the index of a bitstream: its frames, or the one size that they have, or why
/// there is none.
pub open spec fn is_index(
    data: Seq<u8>,
    language: Seq<char>,
    r: Result<ParseResult, String>,
) -> bool {
    match ac3_frames(data) {
        Err(fault) => r matches Err(s) && s@ == "parse error: "@ + fault,
        Ok(frames) => if frames.len() == 0 {
            r matches Err(s) && s@ == "no AC-3 sync frames found"@
        } else {
            r matches Ok(p) && audio_result(frames, p, ac3_duration(data), language)
        },
    }
}

/// Indexes a bitstream: its frames, or the one size that they have.
pub fn index_track(data: &[u8], language: String) -> (r: Result<ParseResult, String>)
    ensures
        is_index(data@, language@, r),
{
    match index_ac3(data) {
        Err(e) => {
            let mut s: String = "parse error: ".to_owned();
            s.append(e.as_str());
            Err(s)
        },
        Ok(frames) => {
            if frames.len() == 0 {
                return Err("no AC-3 sync frames found".to_owned());
            }
            let rate: u64 = match ac3_sample_rate(data) {
                Some(r) => r as u64,
                None => 48000,
            };
            Ok(audio_track(frames, 1_536_000_000_000u64 / rate, language))
        },
    }
}

} // verus!
