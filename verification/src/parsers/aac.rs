//! AAC ADTS bitstreams.
use crate::parsers::common::{
    audio_entry, audio_frame, audio_result, audio_track, frame_models, FrameEntry, FrameModel,
    ParseResult,
};
use crate::text::{decimal, push_decimal};
use vstd::prelude::*;
use vstd::string::*;

verus! {

/// Whether the 12 bits of the syncword stand at `pos`.
pub open spec fn adts_sync(data: Seq<u8>, pos: int) -> bool {
    data[pos] == 0xFF && (data[pos + 1] & 0xF0) == 0xF0
}

/// The length of the header at `pos`: with a checksum nine bytes, else seven.
pub open spec fn adts_header_len(data: Seq<u8>, pos: int) -> int {
    if (data[pos + 1] & 0x01) != 0 {
        7
    } else {
        9
    }
}

/// The 13 bits of the frame length in the header at `pos`.
pub open spec fn adts_frame_len(data: Seq<u8>, pos: int) -> u32 {
    (((data[pos + 3] & 0x03) as u32) << 11) | ((data[pos + 4] as u32) << 3) | ((
    data[pos + 5] as u32) >> 5)
}

/// The frames from `pos` on, after those in `acc`. A header or frame that the data
/// cuts short, or a frame shorter than its header, ends the list.
pub open spec fn adts_from(acc: Seq<FrameModel>, data: Seq<u8>, pos: int) -> Result<
    Seq<FrameModel>,
    Seq<char>,
>
    decreases data.len() - pos,
{
    if pos + 7 > data.len() {
        Ok(acc)
    } else if !adts_sync(data, pos) {
        Err("invalid ADTS syncword at byte "@ + decimal(pos as nat))
    } else {
        let header = adts_header_len(data, pos);
        let len = adts_frame_len(data, pos);
        if pos + header > data.len() || len < header || pos + len > data.len() {
            Ok(acc)
        } else {
            adts_from(acc.push(audio_frame(len)), data, pos + len)
        }
    }
}

/// The frames of a bitstream.
pub open spec fn adts_frames(data: Seq<u8>) -> Result<Seq<FrameModel>, Seq<char>> {
    adts_from(Seq::empty(), data, 0)
}

/// The frames of an AAC ADTS bitstream.
pub fn index_adts(data: &[u8]) -> (r: Result<Vec<FrameEntry>, String>)
    ensures
        match r {
            Ok(v) => adts_frames(data@) == Ok::<Seq<FrameModel>, Seq<char>>(frame_models(v@)),
            Err(s) => adts_frames(data@) == Err::<Seq<FrameModel>, Seq<char>>(s@),
        },
{
    let mut frames: Vec<FrameEntry> = Vec::new();
    let mut pos: usize = 0;
    let size: usize = data.len();
    assert(frame_models(frames@) =~= Seq::<FrameModel>::empty());
    while size - pos >= 7
        invariant
            size == data@.len(),
            pos <= size,
            adts_frames(data@) == adts_from(frame_models(frames@), data@, pos as int),
        decreases size - pos,
    {
        if data[pos] != 0xFF || (data[pos + 1] & 0xF0) != 0xF0 {
            let mut s: String = "invalid ADTS syncword at byte ".to_owned();
            push_decimal(&mut s, pos as u128);
            return Err(s);
        }
        let header_len: usize = if (data[pos + 1] & 0x01) != 0 {
            7
        } else {
            9
        };
        if header_len > size - pos {
            return Ok(frames);
        }
        let frame_length: u32 = (((data[pos + 3] & 0x03) as u32) << 11) | ((
        data[pos + 4] as u32) << 3) | ((data[pos + 5] as u32) >> 5);
        if frame_length < header_len as u32 || frame_length as usize > size - pos {
            // Truncated or invalid final frame: stop without error.
            return Ok(frames);
        }
        let entry: FrameEntry = audio_entry(frame_length);
        proof {
            assert(frame_models(frames@.push(entry)) =~= frame_models(frames@).push(entry@));
        }
        frames.push(entry);
        pos = pos + frame_length as usize;
    }
    Ok(frames)
}

pub const RATES: [u32; 13] = [
    96000,
    88200,
    64000,
    48000,
    44100,
    32000,
    24000,
    22050,
    16000,
    12000,
    11025,
    8000,
    7350,
];

/// The sample rate that the first header tells.
pub open spec fn adts_rate(data: Seq<u8>) -> Option<u32> {
    if data.len() < 4 {
        None
    } else {
        let sfi = (data[2] >> 2) & 0x0F;
        if sfi < 13 {
            Some(RATES@[sfi as int])
        } else {
            None
        }
    }
}

/// Extract sample rate from the first ADTS frame header (sampling_frequency_index).
pub fn adts_sample_rate(data: &[u8]) -> (r: Option<u32>)
    ensures
        r == adts_rate(data@),
{
    if data.len() < 4 {
        return None;
    }
    let sfi: u8 = (data[2] >> 2) & 0x0F;
    if sfi < 13 {
        Some(RATES[sfi as usize])
    } else {
        None
    }
}

/// The duration of a frame of 1024 samples in nanoseconds; at 48 kHz where the rate
/// is not known.
pub open spec fn adts_duration(data: Seq<u8>) -> u64 {
    match adts_rate(data) {
        Some(rate) => (1_024_000_000_000int / rate as int) as u64,
        None => (1_024_000_000_000int / 48000) as u64,
    }
}

/// Whether `r` is the index of a bitstream: its frames, or the one size that they have, or why
/// there is none.
pub open spec fn is_index(
    data: Seq<u8>,
    language: Seq<char>,
    r: Result<ParseResult, String>,
) -> bool {
    match adts_frames(data) {
        Err(fault) => r matches Err(s) && s@ == "parse error: "@ + fault,
        Ok(frames) => if frames.len() == 0 {
            r matches Err(s) && s@ == "no ADTS frames found"@
        } else {
            r matches Ok(p) && audio_result(frames, p, adts_duration(data), language)
        },
    }
}

/// Indexes a bitstream: its frames, or the one size that they have.
pub fn index_track(data: &[u8], language: String) -> (r: Result<ParseResult, String>)
    ensures
        is_index(data@, language@, r),
{
    match index_adts(data) {
        Err(e) => {
            let mut s: String = "parse error: ".to_owned();
            s.append(e.as_str());
            Err(s)
        },
        Ok(frames) => {
            if frames.len() == 0 {
                return Err("no ADTS frames found".to_owned());
            }
            let rate: u64 = match adts_sample_rate(data) {
                Some(r) => r as u64,
                None => 48000,
            };
            Ok(audio_track(frames, 1_024_000_000_000u64 / rate, language))
        },
    }
}

} // verus!
