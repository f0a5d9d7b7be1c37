//! Matroska elements: ids, VINT sizes, and the fields of track entries.
use crate::bytes::{append_bytes, bytes_equal};
use crate::muxer::types::{MuxerError, MuxerFault};
use crate::vfr::{length_bytes, vint_byte_len};
use crate::vint::{
    decode_uint, decode_vint, encode_uint, lemma_vint_at_value, lemma_vint_bytes_len, push_vint,
    uint_bytes, uint_value, vint_at, vint_bytes, vint_round_trip, vint_size, vint_width,
    width_of, VintRead,
};
use vstd::prelude::*;
use vstd::string::*;

verus! {

/// Byte length of the EBML VINT encoding of `value`; the all-ones pattern of a
/// width is kept free.
pub fn vint_len(value: u64) -> (r: usize)
    ensures
        r == vint_size(value),
        1 <= r <= 8,
{
    vint_byte_len(value)
}

/// Appends the shortest VINT of `value`.
pub fn write_vint(w: &mut Vec<u8>, value: u64)
    ensures
        final(w)@ == old(w)@ + length_bytes(value),
{
    write_vint_with_len(w, value, vint_len(value));
}

/// Appends a VINT of `n` bytes (useful for the unknown-size pattern).
pub fn write_vint_with_len(w: &mut Vec<u8>, value: u64, n: usize)
    requires
        1 <= n <= 8,
    ensures
        final(w)@ == old(w)@ + vint_bytes(value, n as nat),
{
    push_vint(w, value, n);
}

/// The shortest VINT of `value`.
pub fn encode_vint(value: u64) -> (r: Vec<u8>)
    ensures
        r@ == length_bytes(value),
{
    let mut buf: Vec<u8> = Vec::new();
    write_vint(&mut buf, value);
    assert(buf@ =~= length_bytes(value));
    buf
}

/// EBML "unknown size" pattern packed into 8 bytes (all 1s after the leading
/// marker bit).
pub const UNKNOWN_SIZE_8B: u64 = 0x00FF_FFFF_FFFF_FFFFu64;

/// Encode a uint as the minimal big-endian payload (no length prefix).
pub fn encode_uint_be(value: u64) -> (r: Vec<u8>)
    ensures
        r@ == uint_bytes(value),
{
    encode_uint(value)
}

pub const ID_SEGMENT_BYTES: [u8; 4] = [0x18, 0x53, 0x80, 0x67];

pub const ID_SEEKHEAD_BYTES: [u8; 4] = [0x11, 0x4D, 0x9B, 0x74];

pub const ID_SEEK_BYTES: [u8; 2] = [0x4D, 0xBB];

pub const ID_SEEKID_BYTES: [u8; 2] = [0x53, 0xAB];

pub const ID_SEEKPOSITION_BYTES: [u8; 2] = [0x53, 0xAC];

pub const ID_INFO_BYTES: [u8; 4] = [0x15, 0x49, 0xA9, 0x66];

pub const ID_TRACKS_BYTES: [u8; 4] = [0x16, 0x54, 0xAE, 0x6B];

pub const ID_CLUSTER_BYTES: [u8; 4] = [0x1F, 0x43, 0xB6, 0x75];

pub const ID_TIMESTAMP_BYTES: [u8; 1] = [0xE7];

pub const ID_SIMPLEBLOCK_BYTES: [u8; 1] = [0xA3];

pub const ID_CUES_BYTES: [u8; 4] = [0x1C, 0x53, 0xBB, 0x6B];

pub const ID_CUEPOINT_BYTES: [u8; 1] = [0xBB];

pub const ID_CUETIME_BYTES: [u8; 1] = [0xB3];

pub const ID_CUETRACKPOSITIONS_BYTES: [u8; 1] = [0xB7];

pub const ID_CUETRACK_BYTES: [u8; 1] = [0xF7];

pub const ID_CUECLUSTERPOSITION_BYTES: [u8; 1] = [0xF1];

pub const TE_TRACKNUMBER_ID: [u8; 1] = [0xD7];

pub const TE_FLAGDEFAULT_ID: [u8; 1] = [0x88];

pub const TE_TRACKENTRY_ID: [u8; 1] = [0xAE];

/// The VINT at `pos`, or why there is none.
pub open spec fn vint_at_pos(bytes: Seq<u8>, pos: int) -> Result<(u64, usize), MuxerFault> {
    if pos >= bytes.len() {
        Err(MuxerFault::InvalidBitstream("unexpected EOF reading VINT"@))
    } else {
        match vint_at(bytes.skip(pos)) {
            VintRead::Value(v, n) => Ok((v, n)),
            VintRead::Invalid => Err(MuxerFault::InvalidBitstream("invalid VINT leading 0"@)),
            _ => Err(MuxerFault::InvalidBitstream("truncated VINT"@)),
        }
    }
}

/// The width of the element id at `pos`, or why there is none.
pub open spec fn id_at_pos(bytes: Seq<u8>, pos: int) -> Result<usize, MuxerFault> {
    if pos >= bytes.len() {
        Err(MuxerFault::InvalidBitstream("unexpected EOF reading element ID"@))
    } else if bytes[pos] == 0 {
        Err(MuxerFault::InvalidBitstream("invalid element ID"@))
    } else {
        let n = vint_width(bytes[pos]);
        if n > 4 || pos + n > bytes.len() {
            Err(MuxerFault::InvalidBitstream("truncated element ID"@))
        } else {
            Ok(n)
        }
    }
}

/// Where the payload of the first child with this id stands, from `pos` on: its
/// start and its length.
pub open spec fn child_from(blob: Seq<u8>, id: Seq<u8>, pos: int) -> Result<
    Option<(int, int)>,
    MuxerFault,
>
    decreases blob.len() - pos,
{
    if pos >= blob.len() {
        Ok(None)
    } else {
        match id_at_pos(blob, pos) {
            Err(e) => Err(e),
            Ok(idn) => match vint_at_pos(blob, pos + idn) {
                Err(e) => Err(e),
                Ok((size, sn)) => {
                    let start = pos + idn + sn;
                    if start + size > blob.len() {
                        Err(MuxerFault::InvalidBitstream("child element overflows blob"@))
                    } else if blob.subrange(pos, pos + idn) == id {
                        Ok(Some((start, size as int)))
                    } else if start + size > pos {
                        child_from(blob, id, start + size)
                    } else {
                        Ok(None)
                    }
                },
            },
        }
    }
}

/// The part of a TrackEntry blob that holds the children, with or without the
/// element's own head.
pub open spec fn entry_body(blob: Seq<u8>) -> Result<Seq<u8>, MuxerFault> {
    if blob.len() == 0 {
        Err(MuxerFault::InvalidBitstream("empty TrackEntry blob"@))
    } else if blob[0] == 0xAE {
        match vint_at_pos(blob, 1) {
            Err(e) => Err(e),
            Ok((size, sn)) => if 1 + sn + size > blob.len() {
                Err(MuxerFault::InvalidBitstream("TrackEntry size overflows blob"@))
            } else {
                Ok(blob.subrange(1 + sn, 1 + sn + size))
            },
        }
    } else {
        Ok(blob)
    }
}

/// Where the value of FlagDefault stands in a TrackEntry blob.
pub open spec fn flag_default_at(blob: Seq<u8>) -> Result<Option<int>, MuxerFault> {
    let head: Result<int, MuxerFault> = if blob.len() > 0 && blob[0] == 0xAE {
        match vint_at_pos(blob, 1) {
            Err(e) => Err(e),
            Ok((_, sn)) => Ok(1 + sn),
        }
    } else {
        Ok(0)
    };
    match head {
        Err(e) => Err(e),
        Ok(h) => match child_from(blob.skip(h), seq![0x88u8], 0) {
            Err(e) => Err(e),
            Ok(None) => Ok(None),
            Ok(Some((start, size))) => if size != 1 {
                Err(MuxerFault::InvalidBitstream("FlagDefault must be 1 byte"@))
            } else {
                Ok(Some(h + start))
            },
        },
    }
}

/// The TrackNumber of a TrackEntry blob.
pub open spec fn track_number_of(blob: Seq<u8>) -> Result<Option<u64>, MuxerFault> {
    match entry_body(blob) {
        Err(e) => Err(e),
        Ok(body) => match child_from(body, seq![0xD7u8], 0) {
            Err(e) => Err(e),
            Ok(None) => Ok(None),
            Ok(Some((start, size))) => Ok(Some(uint_value(body.subrange(start, start + size)))),
        },
    }
}

/// The payload of a found child lies in the blob, behind `pos`.
pub proof fn lemma_child_bounds(blob: Seq<u8>, id: Seq<u8>, pos: int)
    requires
        0 <= pos,
    ensures
        child_from(blob, id, pos) matches Ok(Some(p)) ==> {
            &&& pos < p.0
            &&& 0 <= p.1
            &&& p.0 + p.1 <= blob.len()
        },
    decreases blob.len() - pos,
{
    if pos < blob.len() {
        if let Ok(idn) = id_at_pos(blob, pos) {
            if let Ok((size, sn)) = vint_at_pos(blob, pos + idn) {
                let end = pos + idn + sn + size;
                if end <= blob.len() && end > pos {
                    lemma_child_bounds(blob, id, end);
                }
            }
        }
    }
}

/// The value of FlagDefault is a byte of the blob.
pub proof fn lemma_flag_default_bounds(blob: Seq<u8>)
    ensures
        flag_default_at(blob) matches Ok(Some(off)) ==> 0 <= off < blob.len(),
{
    if blob.len() > 0 && blob[0] == 0xAE {
        lemma_vint_at_value(blob.skip(1));
        if let Ok((_, sn)) = vint_at_pos(blob, 1) {
            lemma_child_bounds(blob.skip(1 + sn), seq![0x88u8], 0);
        }
    } else {
        assert(blob.skip(0) =~= blob);
        lemma_child_bounds(blob.skip(0), seq![0x88u8], 0);
    }
}

/// A VINT that was written with the shortest width reads back at its place.
pub proof fn shortest_vint_round_trip(value: u64, rest: Seq<u8>)
    requires
        value < 0x100_0000_0000_0000,
    ensures
        vint_at_pos(length_bytes(value) + rest, 0) == Ok::<(u64, usize), MuxerFault>(
            (value, vint_size(value) as usize),
        ),
        length_bytes(value).len() == vint_size(value),
{
    let data = length_bytes(value) + rest;
    crate::vint::lemma_pow128_values();
    lemma_vint_bytes_len(value, vint_size(value));
    vint_round_trip(value, vint_size(value), rest);
    assert(data.skip(0) =~= data);
}

/// Read a VINT from `bytes[pos..]`. Returns `(value, n)` where `n` is the
/// number of bytes consumed.
pub fn read_vint(bytes: &[u8], pos: usize) -> (r: Result<(u64, usize), MuxerError>)
    ensures
        match r {
            Ok(p) => vint_at_pos(bytes@, pos as int) == Ok::<(u64, usize), MuxerFault>(p) && 1
                <= p.1 && pos + p.1 <= bytes@.len(),
            Err(e) => vint_at_pos(bytes@, pos as int) == Err::<(u64, usize), MuxerFault>(e@),
        },
{
    if pos >= bytes.len() {
        return Err(MuxerError::InvalidBitstream("unexpected EOF reading VINT".to_owned()));
    }
    let tail: &[u8] = &bytes[pos..bytes.len()];
    proof {
        assert(tail@ =~= bytes@.skip(pos as int));
        lemma_vint_at_value(tail@);
    }
    match decode_vint(tail) {
        VintRead::Value(v, n) => Ok((v, n)),
        VintRead::Invalid => Err(MuxerError::InvalidBitstream("invalid VINT leading 0".to_owned())),
        _ => Err(MuxerError::InvalidBitstream("truncated VINT".to_owned())),
    }
}

/// Read a Matroska element ID at `bytes[pos..]`. Returns `(id_bytes, n)`,
/// preserving the leading marker bit (Matroska IDs are stored "raw").
pub fn read_element_id<'a>(bytes: &'a [u8], pos: usize) -> (r: Result<
    (&'a [u8], usize),
    MuxerError,
>)
    ensures
        match r {
            Ok(p) => {
                &&& id_at_pos(bytes@, pos as int) == Ok::<usize, MuxerFault>(p.1)
                &&& 1 <= p.1 <= 4
                &&& pos + p.1 <= bytes@.len()
                &&& p.0@ == bytes@.subrange(pos as int, pos + p.1)
            },
            Err(e) => id_at_pos(bytes@, pos as int) == Err::<usize, MuxerFault>(e@),
        },
{
    if pos >= bytes.len() {
        return Err(MuxerError::InvalidBitstream("unexpected EOF reading element ID".to_owned()));
    }
    let first: u8 = bytes[pos];
    if first == 0 {
        return Err(MuxerError::InvalidBitstream("invalid element ID".to_owned()));
    }
    let n: usize = width_of(first);
    if n > 4 || n > bytes.len() - pos {
        return Err(MuxerError::InvalidBitstream("truncated element ID".to_owned()));
    }
    Ok((&bytes[pos..pos + n], n))
}

/// The start and length of the payload of the first child of `blob` whose ID is
/// `id`. `blob` is a master element's body; only its own children are scanned.
pub fn find_child_payload(blob: &[u8], id: &[u8]) -> (r: Result<
    Option<(usize, usize)>,
    MuxerError,
>)
    ensures
        match r {
            Ok(None) => child_from(blob@, id@, 0) == Ok::<Option<(int, int)>, MuxerFault>(None),
            Ok(Some(p)) => child_from(blob@, id@, 0) == Ok::<Option<(int, int)>, MuxerFault>(
                Some((p.0 as int, p.1 as int)),
            ) && p.0 + p.1 <= blob@.len(),
            Err(e) => child_from(blob@, id@, 0) == Err::<Option<(int, int)>, MuxerFault>(e@),
        },
{
    let mut pos: usize = 0;
    while pos < blob.len()
        invariant
            pos <= blob@.len(),
            child_from(blob@, id@, 0) == child_from(blob@, id@, pos as int),
        decreases blob@.len() - pos,
    {
        let (cid, idn): (&[u8], usize) = match read_element_id(blob, pos) {
            Ok(t) => t,
            Err(e) => return Err(e),
        };
        let (size, sn): (u64, usize) = match read_vint(blob, pos + idn) {
            Ok(t) => t,
            Err(e) => return Err(e),
        };
        let start: usize = pos + idn + sn;
        if size > (blob.len() - start) as u64 {
            return Err(MuxerError::InvalidBitstream("child element overflows blob".to_owned()));
        }
        if bytes_equal(cid, id) {
            return Ok(Some((start, size as usize)));
        }
        pos = start + size as usize;
    }
    Ok(None)
}

/// A TrackEntry blob can be stored either as the entire `0xAE <size> <body>`
/// element or as just `<body>`. This helper returns the body slice.
pub fn track_entry_body(blob: &[u8]) -> (r: Result<&[u8], MuxerError>)
    ensures
        match r {
            Ok(b) => entry_body(blob@) == Ok::<Seq<u8>, MuxerFault>(b@),
            Err(e) => entry_body(blob@) == Err::<Seq<u8>, MuxerFault>(e@),
        },
{
    if blob.len() == 0 {
        return Err(MuxerError::InvalidBitstream("empty TrackEntry blob".to_owned()));
    }
    if blob[0] == 0xAE {
        let (size, sn): (u64, usize) = match read_vint(blob, 1) {
            Ok(t) => t,
            Err(e) => return Err(e),
        };
        let start: usize = 1 + sn;
        if size > (blob.len() - start) as u64 {
            return Err(MuxerError::InvalidBitstream("TrackEntry size overflows blob".to_owned()));
        }
        Ok(&blob[start..start + size as usize])
    } else {
        Ok(blob)
    }
}

/// Returns the byte offset of the FlagDefault *value byte* within `blob`, if
/// the TrackEntry has a FlagDefault child of size 1. Offsets are relative to
/// the start of `blob`.
pub fn find_flag_default_value_offset(blob: &[u8]) -> (r: Result<Option<usize>, MuxerError>)
    ensures
        match r {
            Ok(None) => flag_default_at(blob@) == Ok::<Option<int>, MuxerFault>(None),
            Ok(Some(off)) => flag_default_at(blob@) == Ok::<Option<int>, MuxerFault>(
                Some(off as int),
            ) && off < blob@.len(),
            Err(e) => flag_default_at(blob@) == Err::<Option<int>, MuxerFault>(e@),
        },
{
    let body_offset: usize = if blob.len() > 0 && blob[0] == 0xAE {
        match read_vint(blob, 1) {
            Ok((_size, sn)) => 1 + sn,
            Err(e) => return Err(e),
        }
    } else {
        0
    };
    let body: &[u8] = &blob[body_offset..blob.len()];
    let id: [u8; 1] = [0x88u8];
    proof {
        assert(body@ =~= blob@.skip(body_offset as int));
        assert(id@ =~= seq![0x88u8]);
    }
    match find_child_payload(body, &id) {
        Err(e) => Err(e),
        Ok(None) => Ok(None),
        Ok(Some((start, size))) => {
            if size != 1 {
                return Err(MuxerError::InvalidBitstream("FlagDefault must be 1 byte".to_owned()));
            }
            Ok(Some(body_offset + start))
        },
    }
}

/// Reads the TrackNumber value from a TrackEntry blob, if present.
pub fn find_track_number(blob: &[u8]) -> (r: Result<Option<u64>, MuxerError>)
    ensures
        match r {
            Ok(v) => track_number_of(blob@) == Ok::<Option<u64>, MuxerFault>(v),
            Err(e) => track_number_of(blob@) == Err::<Option<u64>, MuxerFault>(e@),
        },
{
    let body: &[u8] = match track_entry_body(blob) {
        Ok(b) => b,
        Err(e) => return Err(e),
    };
    let limit: usize = body.len();
    let id: [u8; 1] = [0xD7u8];
    assert(id@ =~= seq![0xD7u8]);
    match find_child_payload(body, &id) {
        Err(e) => Err(e),
        Ok(None) => Ok(None),
        Ok(Some((off, size))) => {
            assert(off + size <= limit);
            Ok(Some(decode_uint(&body[off..off + size])))
        },
    }
}

/// An element: id, payload length, payload.
#[verifier::opaque]
pub open spec fn mkv_elem(id: Seq<u8>, payload: Seq<u8>) -> Seq<u8> {
    id + length_bytes(payload.len() as u64) + payload
}

/// An element that holds a number.
pub open spec fn mkv_uint(id: Seq<u8>, value: u64) -> Seq<u8> {
    mkv_elem(id, uint_bytes(value))
}

pub proof fn lemma_mkv_elem_len(id: Seq<u8>, payload: Seq<u8>)
    ensures
        mkv_elem(id, payload).len() == id.len() + vint_size(payload.len() as u64) + payload.len(),
{
    reveal(mkv_elem);
    lemma_vint_bytes_len(payload.len() as u64, vint_size(payload.len() as u64));
}

/// Write `id_bytes` + VINT(payload.len()) + payload.
pub fn write_element(w: &mut Vec<u8>, id_bytes: &[u8], payload: &[u8])
    ensures
        final(w)@ == old(w)@ + mkv_elem(id_bytes@, payload@),
{
    append_bytes(w, id_bytes);
    write_vint(w, payload.len() as u64);
    append_bytes(w, payload);
    reveal(mkv_elem);
    assert(w@ =~= old(w)@ + mkv_elem(id_bytes@, payload@));
}

/// Write `id_bytes` + VINT(value_be.len()) + value_be (minimal UInt).
pub fn write_uint_element(w: &mut Vec<u8>, id_bytes: &[u8], value: u64)
    ensures
        final(w)@ == old(w)@ + mkv_uint(id_bytes@, value),
{
    let v: Vec<u8> = encode_uint_be(value);
    write_element(w, id_bytes, &v);
}

} // verus!
