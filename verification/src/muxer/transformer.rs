//! Codec transforms from raw frames to block payloads.
use crate::bytes::{append_bytes, be_bytes, lemma_be_bytes_len, push_be, to_vec};
use crate::muxer::types::{MuxerError, MuxerFault};
use crate::text::{decimal, push_decimal};
use vstd::prelude::*;
use vstd::string::*;

verus! {

/// The length of the Annex B start code at `pos`: four, three, or zero for none.
pub open spec fn start_code_len(data: Seq<u8>, pos: int) -> int {
    if pos + 4 <= data.len() && data[pos] == 0 && data[pos + 1] == 0 && data[pos + 2] == 0
        && data[pos + 3] == 1 {
        4
    } else if pos + 3 <= data.len() && data[pos] == 0 && data[pos + 1] == 0 && data[pos + 2] == 1 {
        3
    } else {
        0
    }
}

pub open spec fn no_start_code(pos: int) -> MuxerFault {
    MuxerFault::InvalidBitstream(
        "Annex B start code not found at offset "@ + decimal(pos as nat),
    )
}

pub open spec fn nal_overrun(pos: int, len: u64, frame_len: nat) -> MuxerFault {
    MuxerFault::InvalidBitstream(
        "NAL payload overruns frame: pos="@ + decimal(pos as nat) + ", nal_len="@ + decimal(
            len as nat,
        ) + ", frame_len="@ + decimal(frame_len),
    )
}

pub open spec fn nal_too_long(len: u64) -> MuxerFault {
    MuxerFault::InvalidBitstream("NAL length "@ + decimal(len as nat) + " exceeds u32"@)
}

/// The NAL units from number `k` on, which stand from `pos` on, in length-prefixed
/// form after `acc`.
pub open spec fn avcc_from(
    acc: Seq<u8>,
    data: Seq<u8>,
    lens: Seq<u64>,
    k: nat,
    pos: int,
) -> Result<Seq<u8>, MuxerFault>
    decreases lens.len() - k,
{
    if k >= lens.len() {
        Ok(acc)
    } else {
        let code = start_code_len(data, pos);
        let start = pos + code;
        let len = lens[k as int];
        if code == 0 {
            Err(no_start_code(pos))
        } else if start + len > data.len() {
            Err(nal_overrun(start, len, data.len()))
        } else if len > u32::MAX {
            Err(nal_too_long(len))
        } else {
            avcc_from(
                acc + be_bytes(len as nat, 4) + data.subrange(start, start + len),
                data,
                lens,
                k + 1,
                start + len,
            )
        }
    }
}

/// A frame in length-prefixed form.
pub open spec fn avcc(data: Seq<u8>, lens: Seq<u64>) -> Result<Seq<u8>, MuxerFault> {
    avcc_from(Seq::empty(), data, lens, 0, 0)
}

/// The sum of the first `k` lengths.
pub open spec fn sum_to(lens: Seq<u64>, k: nat) -> nat
    decreases k,
{
    if k == 0 {
        0
    } else {
        sum_to(lens, (k - 1) as nat) + lens[k - 1] as nat
    }
}

/// A frame in length-prefixed form takes four bytes per NAL unit and the units.
pub proof fn avcc_len(data: Seq<u8>, lens: Seq<u64>)
    ensures
        avcc(data, lens) matches Ok(out) ==> out.len() == 4 * lens.len() + sum_to(
            lens,
            lens.len(),
        ),
{
    lemma_avcc_from_len(Seq::empty(), data, lens, 0, 0);
}

proof fn lemma_avcc_from_len(acc: Seq<u8>, data: Seq<u8>, lens: Seq<u64>, k: nat, pos: int)
    requires
        k <= lens.len(),
        0 <= pos,
    ensures
        avcc_from(acc, data, lens, k, pos) matches Ok(out) ==> out.len() == acc.len() + 4 * (
        lens.len() - k) + sum_to(lens, lens.len()) - sum_to(lens, k),
    decreases lens.len() - k,
{
    if k < lens.len() {
        let start = pos + start_code_len(data, pos);
        let len = lens[k as int];
        lemma_be_bytes_len(len as nat, 4);
        lemma_avcc_from_len(
            acc + be_bytes(len as nat, 4) + data.subrange(start, start + len),
            data,
            lens,
            k + 1,
            start + len,
        );
    }
}

/// Identity transform (audio): copy bytes verbatim.
pub fn transform_raw(frame_bytes: &[u8]) -> (r: Vec<u8>)
    ensures
        r@ == frame_bytes@,
{
    to_vec(frame_bytes)
}

/// Convert an Annex B encoded frame to AVCC.
///
/// `nal_lengths` lists the lengths of each NAL unit *payload* (excluding the
/// start code). The function detects 3-byte (`0x00 0x00 0x01`) or 4-byte
/// (`0x00 0x00 0x00 0x01`) start codes.
///
/// Output layout: for each NAL, a 4-byte big-endian length prefix followed by
/// the NAL payload. Total size: `4 * nal_lengths.len() + sum(nal_lengths)`.
pub fn transform_avcc(frame_bytes: &[u8], nal_lengths: &[u64]) -> (r: Result<Vec<u8>, MuxerError>)
    ensures
        match r {
            Ok(out) => avcc(frame_bytes@, nal_lengths@) == Ok::<Seq<u8>, MuxerFault>(out@),
            Err(e) => avcc(frame_bytes@, nal_lengths@) == Err::<Seq<u8>, MuxerFault>(e@),
        },
        r matches Ok(out) ==> out@.len() == 4 * nal_lengths@.len() + sum_to(
            nal_lengths@,
            nal_lengths@.len(),
        ),
{
    proof {
        avcc_len(frame_bytes@, nal_lengths@);
    }
    let mut out: Vec<u8> = Vec::new();
    let mut pos: usize = 0;
    let mut k: usize = 0;
    let size: usize = frame_bytes.len();
    while k < nal_lengths.len()
        invariant
            size == frame_bytes@.len(),
            k <= nal_lengths@.len(),
            pos <= frame_bytes@.len(),
            avcc(frame_bytes@, nal_lengths@) == avcc_from(
                out@,
                frame_bytes@,
                nal_lengths@,
                k as nat,
                pos as int,
            ),
        decreases nal_lengths@.len() - k,
    {
        let nal_len: u64 = nal_lengths[k];
        let left: usize = size - pos;
        if left >= 4 && frame_bytes[pos] == 0 && frame_bytes[pos + 1] == 0 && frame_bytes[pos + 2]
            == 0 && frame_bytes[pos + 3] == 1 {
            pos = pos + 4;
        } else if left >= 3 && frame_bytes[pos] == 0 && frame_bytes[pos + 1] == 0
            && frame_bytes[pos + 2] == 1 {
            pos = pos + 3;
        } else {
            let mut s: String = "Annex B start code not found at offset ".to_owned();
            push_decimal(&mut s, pos as u128);
            return Err(MuxerError::InvalidBitstream(s));
        }
        if nal_len > (size - pos) as u64 {
            let mut s: String = "NAL payload overruns frame: pos=".to_owned();
            push_decimal(&mut s, pos as u128);
            s.append(", nal_len=");
            push_decimal(&mut s, nal_len as u128);
            s.append(", frame_len=");
            push_decimal(&mut s, size as u128);
            return Err(MuxerError::InvalidBitstream(s));
        }
        if nal_len > u32::MAX as u64 {
            let mut s: String = "NAL length ".to_owned();
            push_decimal(&mut s, nal_len as u128);
            s.append(" exceeds u32");
            return Err(MuxerError::InvalidBitstream(s));
        }
        let n: usize = nal_len as usize;
        push_be(&mut out, nal_len, 4);
        append_bytes(&mut out, &frame_bytes[pos..pos + n]);
        pos = pos + n;
        k = k + 1;
    }
    Ok(out)
}

} // verus!
