//! Scanning Matroska files for what a binstruct file keeps.
use crate::bytes::{
    append_bytes, be_value, lemma_be_value_bound, lemma_pow256_values, to_vec,
};
use crate::filter::track_meta::id_width;
use crate::muxer::materializer::fill;
use crate::muxer::types::{MuxerError, MuxerFault, RawFile};
use crate::text::{hex_text, push_hex, string_from_utf8};
use crate::vfr::end_of_data;
use crate::vint::{
    decode_vint, lemma_pow128_values, lemma_vint_at_value, pow128, uint_value, vint_at, VintRead,
};
use vstd::prelude::*;
use vstd::string::*;
use vstd::utf8::{decode_utf8, valid_utf8};

verus! {

pub const ID_EBML_HEADER: u32 = 0x1A45DFA3;

pub const ID_SEGMENT: u32 = 0x18538067;

pub const ID_SEEK_HEAD: u32 = 0x114D9B74;

pub const ID_INFO: u32 = 0x1549A966;

pub const ID_TRACKS: u32 = 0x1654AE6B;

pub const ID_TRACK_ENTRY: u32 = 0x000000AE;

pub const ID_TRACK_NUMBER: u32 = 0x000000D7;

pub const ID_TRACK_TYPE: u32 = 0x00000083;

pub const ID_FLAG_DEFAULT: u32 = 0x00000088;

pub const ID_LANGUAGE: u32 = 0x0022B59C;

pub const ID_CODEC_ID: u32 = 0x00000086;

pub const ID_VIDEO: u32 = 0x000000E0;

pub const ID_PIXEL_WIDTH: u32 = 0x000000B0;

pub const ID_PIXEL_HEIGHT: u32 = 0x000000BA;

pub const ID_CLUSTER: u32 = 0x1F43B675;

pub const ID_TIMESTAMP: u32 = 0x000000E7;

/// Why a Matroska file could not be scanned.
#[derive(Debug, Clone, PartialEq, Eq)]
pub enum MkvError {
    /// A read failed.
    Read(MuxerError),
    /// The file is not as expected.
    Text(String),
}

/// [`MkvError`] with sequences for strings.
pub ghost enum MkvFault {
    Read(MuxerFault),
    Text(Seq<char>),
}

impl View for MkvError {
    type V = MkvFault;

    open spec fn view(&self) -> MkvFault {
        match self {
            MkvError::Read(e) => MkvFault::Read(e@),
            MkvError::Text(s) => MkvFault::Text(s@),
        }
    }
}

/// What stands at the start of a byte string read as the head of an element.
#[derive(Debug, Clone, Copy, PartialEq, Eq)]
pub enum HeadRead {
    /// Id, size (none for an unknown one), and the length of the head.
    Head { id: u32, size: Option<u64>, len: usize },
    /// There is no byte.
    NoId,
    /// The string ends inside the id.
    CutId,
    /// The first byte does not begin an id.
    BadId(u8),
    /// The string ends after the id.
    NoSize,
    /// The string ends inside the size.
    CutSize,
    /// The byte does not begin a size; the length of the id comes second.
    BadSize(u8, usize),
}

/// The head of an element at the start of `d`. A size with all bits set is unknown.
pub open spec fn head_at(d: Seq<u8>) -> HeadRead {
    if d.len() == 0 {
        HeadRead::NoId
    } else {
        let w = id_width(d[0]);
        if w == 0 {
            HeadRead::BadId(d[0])
        } else if d.len() < w {
            HeadRead::CutId
        } else {
            match vint_at(d.skip(w)) {
                VintRead::Empty => HeadRead::NoSize,
                VintRead::Invalid => HeadRead::BadSize(d[w], w as usize),
                VintRead::Truncated => HeadRead::CutSize,
                VintRead::Value(v, n) => HeadRead::Head {
                    id: be_value(d.take(w)) as u32,
                    size: if v == pow128(n as nat) - 1 {
                        None
                    } else {
                        Some(v)
                    },
                    len: (w + n) as usize,
                },
            }
        }
    }
}

/// A head takes at most twelve bytes.
proof fn lemma_head_short(d: Seq<u8>)
    requires
        d.len() > 12,
    ensures
        head_at(d) == head_at(d.take(12)),
{
    let t = d.take(12);
    let w = id_width(d[0]);
    if w > 0 {
        assert(d.take(w) =~= t.take(w));
        let a = d.skip(w);
        let b = t.skip(w);
        assert(a[0] == b[0]);
        let n = crate::vint::vint_width(a[0]);
        if n <= 8 {
            assert(a.take(n as int) =~= b.take(n as int));
        }
    }
}

proof fn lemma_head_bounds(d: Seq<u8>)
    ensures
        head_at(d) matches HeadRead::Head { id, size, len } ==> {
            &&& 2 <= len <= 12
            &&& len <= d.len()
            &&& size matches Some(s) ==> s < 0x100_0000_0000_0000
        },
{
    if d.len() > 0 {
        let w = id_width(d[0]);
        if 0 < w <= d.len() {
            lemma_vint_at_value(d.skip(w));
        }
    }
}

/// Reads the head of an element at the start of `data`.
pub fn decode_head(data: &[u8]) -> (r: HeadRead)
    ensures
        r == head_at(data@),
{
    let size: usize = data.len();
    if size == 0 {
        return HeadRead::NoId;
    }
    let b0: u8 = data[0];
    let w: usize = if b0 >= 0x80 {
        1
    } else if b0 >= 0x40 {
        2
    } else if b0 >= 0x20 {
        3
    } else if b0 >= 0x10 {
        4
    } else {
        return HeadRead::BadId(b0);
    };
    if size < w {
        return HeadRead::CutId;
    }
    let mut id: u64 = 0;
    let mut i: usize = 0;
    assert(data@.take(0) =~= Seq::<u8>::empty());
    while i < w
        invariant
            w <= 4,
            i <= w <= data@.len(),
            id == be_value(data@.take(i as int)),
        decreases w - i,
    {
        proof {
            lemma_pow256_values();
            let t = data@.take(i + 1);
            assert(t.drop_last() =~= data@.take(i as int));
            lemma_be_value_bound(t.drop_last());
        }
        id = id * 256 + data[i] as u64;
        i = i + 1;
    }
    let tail: &[u8] = &data[w..size];
    proof {
        assert(tail@ =~= data@.skip(w as int));
        lemma_vint_at_value(tail@);
        lemma_pow128_values();
    }
    match decode_vint(tail) {
        VintRead::Empty => HeadRead::NoSize,
        VintRead::Invalid => HeadRead::BadSize(tail[0], w),
        VintRead::Truncated => HeadRead::CutSize,
        VintRead::Value(v, n) => {
            let all_ones: u64 = match n {
                1 => 0x7F,
                2 => 0x3FFF,
                3 => 0x1F_FFFF,
                4 => 0x0FFF_FFFF,
                5 => 0x07_FFFF_FFFF,
                6 => 0x03FF_FFFF_FFFF,
                7 => 0x01_FFFF_FFFF_FFFF,
                _ => 0xFF_FFFF_FFFF_FFFF,
            };
            HeadRead::Head {
                id: id as u32,
                size: if v == all_ones {
                    None
                } else {
                    Some(v)
                },
                len: w + n,
            }
        },
    }
}

/// The error for a head that cannot be read from a stream.
pub open spec fn stream_fault(h: HeadRead) -> Seq<char> {
    match h {
        HeadRead::BadId(b) => "invalid EBML ID byte: 0x"@ + hex_text(b as nat, 2, 'A'),
        HeadRead::BadSize(b, _) => "invalid EBML VINT size byte: 0x"@ + hex_text(b as nat, 2, 'A'),
        _ => end_of_data(),
    }
}

/// The error for a head that cannot be read from a buffer.
pub open spec fn buffer_fault(h: HeadRead) -> Seq<char> {
    match h {
        HeadRead::NoId => "EOF reading EBML ID"@,
        HeadRead::BadId(b) => "invalid EBML ID byte: 0x"@ + hex_text(b as nat, 2, 'A'),
        HeadRead::NoSize => "EOF reading VINT size"@,
        HeadRead::BadSize(_, _) => "invalid EBML VINT size byte"@,
        _ => end_of_data(),
    }
}

fn stream_error(h: HeadRead) -> (r: String)
    ensures
        r@ == stream_fault(h),
{
    match h {
        HeadRead::BadId(b) => {
            let mut s: String = "invalid EBML ID byte: 0x".to_owned();
            push_hex(&mut s, b as u64, 2, 'A');
            s
        },
        HeadRead::BadSize(b, _) => {
            let mut s: String = "invalid EBML VINT size byte: 0x".to_owned();
            push_hex(&mut s, b as u64, 2, 'A');
            s
        },
        _ => "failed to fill whole buffer".to_owned(),
    }
}

fn buffer_error(h: HeadRead) -> (r: String)
    ensures
        r@ == buffer_fault(h),
{
    match h {
        HeadRead::NoId => "EOF reading EBML ID".to_owned(),
        HeadRead::BadId(b) => {
            let mut s: String = "invalid EBML ID byte: 0x".to_owned();
            push_hex(&mut s, b as u64, 2, 'A');
            s
        },
        HeadRead::NoSize => "EOF reading VINT size".to_owned(),
        HeadRead::BadSize(_, _) => "invalid EBML VINT size byte".to_owned(),
        _ => "failed to fill whole buffer".to_owned(),
    }
}

/// How much of a string of length `n` a try to read a head takes.
pub open spec fn taken(h: HeadRead, n: int) -> int {
    match h {
        HeadRead::Head { id, size, len } => len as int,
        HeadRead::BadId(_) => 1,
        HeadRead::BadSize(_, w) => w + 1,
        _ => n,
    }
}

/// Read an EBML element ID (1–4 bytes) and its VINT size, and move `r` behind what was
/// read. Returns (id, size); no size means "unknown" (all data bits set).
pub fn read_element_header<'a>(r: &mut &'a [u8]) -> (h: Result<(u32, Option<u64>), String>)
    ensures
        final(r)@ == old(r)@.skip(taken(head_at(old(r)@), old(r)@.len() as int)),
        match head_at(old(r)@) {
            HeadRead::Head { id, size, len } => h == Ok::<(u32, Option<u64>), String>((id, size)),
            bad => h matches Err(s) && s@ == stream_fault(bad),
        },
{
    let data: &'a [u8] = *r;
    let size: usize = data.len();
    let head: HeadRead = decode_head(data);
    proof {
        lemma_head_bounds(data@);
    }
    let n: usize = match head {
        HeadRead::Head { id, size, len } => len,
        HeadRead::BadId(_) => 1,
        HeadRead::BadSize(_, w) => w + 1,
        _ => size,
    };
    let rest: &'a [u8] = &data[n..size];
    assert(rest@ =~= data@.skip(n as int));
    *r = rest;
    match head {
        HeadRead::Head { id, size, len } => Ok((id, size)),
        bad => Err(stream_error(bad)),
    }
}

/// The low 64 bits of the big-endian number that `bytes` spell.
pub fn decode_uint(bytes: &[u8]) -> (r: u64)
    ensures
        r == uint_value(bytes@),
{
    crate::vint::decode_uint(bytes)
}

/// A track entry of a Matroska file.
#[derive(Debug, Clone, PartialEq, Eq)]
pub struct ParsedTrackEntry {
    pub track_id: u64,
    pub track_type: u8,
    pub flag_default: u8,
    pub language: String,
    pub codec_id: String,
    pub pixel_width: Option<u32>,
    pub pixel_height: Option<u32>,
    /// Verbatim bytes of the TrackEntry element (including its ID and size header).
    pub raw_bytes: Vec<u8>,
}

/// [`ParsedTrackEntry`] with sequences for strings and vectors.
pub ghost struct ParsedModel {
    pub track_id: u64,
    pub track_type: u8,
    pub flag_default: u8,
    pub language: Seq<char>,
    pub codec_id: Seq<char>,
    pub pixel_width: Option<u32>,
    pub pixel_height: Option<u32>,
    pub raw_bytes: Seq<u8>,
}

impl View for ParsedTrackEntry {
    type V = ParsedModel;

    open spec fn view(&self) -> ParsedModel {
        ParsedModel {
            track_id: self.track_id,
            track_type: self.track_type,
            flag_default: self.flag_default,
            language: self.language@,
            codec_id: self.codec_id@,
            pixel_width: self.pixel_width,
            pixel_height: self.pixel_height,
            raw_bytes: self.raw_bytes@,
        }
    }
}

pub open spec fn parsed_views(s: Seq<ParsedTrackEntry>) -> Seq<ParsedModel> {
    Seq::new(s.len(), |i: int| s[i]@)
}

/// What a scan of a Matroska file gives.
#[derive(Debug, Clone, PartialEq, Eq)]
pub struct ParsedMkv {
    /// Bytes from file start to just before Tracks element, with SeekHead excluded.
    pub pre_tracks_blob: Vec<u8>,
    /// TrackEntry elements (raw bytes + parsed metadata).
    pub track_entries: Vec<ParsedTrackEntry>,
    /// Bytes from end of Tracks element to start of first Cluster (may be empty).
    pub post_tracks_blob: Vec<u8>,
    /// Timestamps (ms) from each Cluster's Timestamp element, in order.
    pub cluster_timestamps: Vec<u64>,
}

/// [`ParsedMkv`] with sequences for vectors.
pub ghost struct MkvModel {
    pub pre_tracks_blob: Seq<u8>,
    pub track_entries: Seq<ParsedModel>,
    pub post_tracks_blob: Seq<u8>,
    pub cluster_timestamps: Seq<u64>,
}

impl View for ParsedMkv {
    type V = MkvModel;

    open spec fn view(&self) -> MkvModel {
        MkvModel {
            pre_tracks_blob: self.pre_tracks_blob@,
            track_entries: parsed_views(self.track_entries@),
            post_tracks_blob: self.post_tracks_blob@,
            cluster_timestamps: self.cluster_timestamps@,
        }
    }
}

/// A size, or zero for an unknown one.
pub open spec fn size_or_zero(size: Option<u64>) -> u64 {
    match size {
        Some(s) => s,
        None => 0,
    }
}

/// The pixel sizes in a Video element from `pos` on; the last of each counts.
pub open spec fn video_from(
    data: Seq<u8>,
    pos: int,
    width: Option<u32>,
    height: Option<u32>,
) -> (Option<u32>, Option<u32>)
    decreases data.len() - pos,
{
    if pos >= data.len() {
        (width, height)
    } else {
        match head_at(data.skip(pos)) {
            HeadRead::Head { id, size, len } => {
                let start = pos + len;
                let next = start + size_or_zero(size);
                if next > data.len() || next <= pos {
                    (width, height)
                } else {
                    let value = uint_value(data.subrange(start, next)) as u32;
                    if id == ID_PIXEL_WIDTH {
                        video_from(data, next, Some(value), height)
                    } else if id == ID_PIXEL_HEIGHT {
                        video_from(data, next, width, Some(value))
                    } else {
                        video_from(data, next, width, height)
                    }
                }
            },
            _ => (width, height),
        }
    }
}

/// The text that bytes encode; empty where they are not valid UTF-8.
pub open spec fn text_or_none(bytes: Seq<u8>) -> Seq<char> {
    if valid_utf8(bytes) {
        decode_utf8(bytes)
    } else {
        Seq::empty()
    }
}

/// The first byte, or zero.
pub open spec fn first_byte(bytes: Seq<u8>) -> u8 {
    if bytes.len() > 0 {
        bytes[0]
    } else {
        0
    }
}

/// What a child adds to what is known about a track.
pub open spec fn entry_with(st: ParsedModel, id: u32, p: Seq<u8>) -> ParsedModel {
    if id == ID_TRACK_NUMBER {
        ParsedModel { track_id: uint_value(p), ..st }
    } else if id == ID_TRACK_TYPE {
        ParsedModel { track_type: first_byte(p), ..st }
    } else if id == ID_FLAG_DEFAULT {
        ParsedModel { flag_default: first_byte(p), ..st }
    } else if id == ID_LANGUAGE {
        ParsedModel { language: text_or_none(p), ..st }
    } else if id == ID_CODEC_ID {
        ParsedModel { codec_id: text_or_none(p), ..st }
    } else if id == ID_VIDEO {
        let (w, h) = video_from(p, 0, None, None);
        ParsedModel { pixel_width: w, pixel_height: h, ..st }
    } else {
        st
    }
}

/// What the children from `pos` on add; what cannot be read ends it.
pub open spec fn entry_from(st: ParsedModel, data: Seq<u8>, pos: int) -> ParsedModel
    decreases data.len() - pos,
{
    if pos >= data.len() {
        st
    } else {
        match head_at(data.skip(pos)) {
            HeadRead::Head { id, size, len } => {
                let start = pos + len;
                let next = start + size_or_zero(size);
                if next > data.len() || next <= pos {
                    st
                } else {
                    entry_from(entry_with(st, id, data.subrange(start, next)), data, next)
                }
            },
            _ => st,
        }
    }
}

/// What a TrackEntry with this payload tells.
pub open spec fn entry_of(payload: Seq<u8>, raw: Seq<u8>) -> ParsedModel {
    entry_from(
        ParsedModel {
            track_id: 0,
            track_type: 0,
            flag_default: 0,
            language: Seq::empty(),
            codec_id: Seq::empty(),
            pixel_width: None,
            pixel_height: None,
            raw_bytes: raw,
        },
        payload,
        0,
    )
}

/// The track entries among the children of a Tracks element from `pos` up to `end`, after
/// those in `acc`.
pub open spec fn tracks_from(acc: Seq<ParsedModel>, body: Seq<u8>, pos: int, end: int) -> Result<
    Seq<ParsedModel>,
    Seq<char>,
>
    decreases body.len() - pos,
{
    if pos >= end {
        Ok(acc)
    } else {
        match head_at(body.skip(pos)) {
            HeadRead::Head { id, size, len } => {
                let start = pos + len;
                let next = start + size_or_zero(size);
                if next > body.len() || next <= pos || pos < 0 {
                    Ok(acc)
                } else if id == ID_TRACK_ENTRY {
                    tracks_from(
                        acc.push(entry_of(body.subrange(start, next), body.subrange(pos, next))),
                        body,
                        next,
                        end,
                    )
                } else {
                    tracks_from(acc, body, next, end)
                }
            },
            bad => Err(buffer_fault(bad)),
        }
    }
}

/// The track entries of a Tracks element.
pub open spec fn tracks_of(body: Seq<u8>) -> Result<Seq<ParsedModel>, Seq<char>> {
    match head_at(body) {
        HeadRead::Head { id, size, len } => if id != ID_TRACKS {
            Err("expected Tracks element, got 0x"@ + hex_text(id as nat, 8, 'A'))
        } else {
            tracks_from(
                Seq::empty(),
                body,
                len as int,
                len + (match size {
                    Some(s) => s as int,
                    None => body.len() as int,
                }),
            )
        },
        bad => Err(buffer_fault(bad)),
    }
}

fn parse_video_element(data: &[u8]) -> (r: (Option<u32>, Option<u32>))
    ensures
        r == video_from(data@, 0, None, None),
{
    let size: usize = data.len();
    let mut width: Option<u32> = None;
    let mut height: Option<u32> = None;
    let mut pos: usize = 0;
    while pos < size
        invariant
            size == data@.len(),
            pos <= size,
            video_from(data@, 0, None, None) == video_from(data@, pos as int, width, height),
        decreases size - pos,
    {
        proof {
            lemma_head_bounds(data@.skip(pos as int));
            assert(data@.subrange(pos as int, size as int) =~= data@.skip(pos as int));
        }
        match decode_head(&data[pos..size]) {
            HeadRead::Head { id, size: s, len } => {
                let start: usize = pos + len;
                let n: u64 = match s {
                    Some(v) => v,
                    None => 0,
                };
                if n > (size - start) as u64 {
                    return (width, height);
                }
                let next: usize = start + n as usize;
                let payload: &[u8] = &data[start..next];
                if id == ID_PIXEL_WIDTH {
                    width = Some(decode_uint(payload) as u32);
                } else if id == ID_PIXEL_HEIGHT {
                    height = Some(decode_uint(payload) as u32);
                }
                pos = next;
            },
            _ => {
                return (width, height);
            },
        }
    }
    (width, height)
}

fn text_of_bytes(bytes: &[u8]) -> (r: String)
    ensures
        r@ == text_or_none(bytes@),
{
    match string_from_utf8(to_vec(bytes)) {
        Some(s) => s,
        None => String::new(),
    }
}

fn parse_track_entry(payload: &[u8], raw_bytes: Vec<u8>) -> (r: ParsedTrackEntry)
    ensures
        r@ == entry_of(payload@, raw_bytes@),
{
    let size: usize = payload.len();
    let ghost whole = entry_of(payload@, raw_bytes@);
    let mut e = ParsedTrackEntry {
        track_id: 0,
        track_type: 0,
        flag_default: 0,
        language: String::new(),
        codec_id: String::new(),
        pixel_width: None,
        pixel_height: None,
        raw_bytes,
    };
    let mut pos: usize = 0;
    while pos < size
        invariant
            size == payload@.len(),
            pos <= size,
            whole == entry_of(payload@, raw_bytes@),
            whole == entry_from(e@, payload@, pos as int),
        decreases size - pos,
    {
        proof {
            lemma_head_bounds(payload@.skip(pos as int));
            assert(payload@.subrange(pos as int, size as int) =~= payload@.skip(pos as int));
        }
        match decode_head(&payload[pos..size]) {
            HeadRead::Head { id, size: s, len } => {
                let start: usize = pos + len;
                let n: u64 = match s {
                    Some(v) => v,
                    None => 0,
                };
                if n > (size - start) as u64 {
                    return e;
                }
                let next: usize = start + n as usize;
                let p: &[u8] = &payload[start..next];
                let first: u8 = if p.len() > 0 {
                    p[0]
                } else {
                    0
                };
                if id == ID_TRACK_NUMBER {
                    e.track_id = decode_uint(p);
                } else if id == ID_TRACK_TYPE {
                    e.track_type = first;
                } else if id == ID_FLAG_DEFAULT {
                    e.flag_default = first;
                } else if id == ID_LANGUAGE {
                    e.language = text_of_bytes(p);
                } else if id == ID_CODEC_ID {
                    e.codec_id = text_of_bytes(p);
                } else if id == ID_VIDEO {
                    let (w, h): (Option<u32>, Option<u32>) = parse_video_element(p);
                    e.pixel_width = w;
                    e.pixel_height = h;
                }
                pos = next;
            },
            _ => {
                return e;
            },
        }
    }
    e
}

/// The track entries of a Tracks element.
pub fn parse_tracks_body(body: &[u8]) -> (r: Result<Vec<ParsedTrackEntry>, MkvError>)
    ensures
        match tracks_of(body@) {
            Ok(list) => r matches Ok(v) && parsed_views(v@) == list,
            Err(fault) => r matches Err(e) && e@ == MkvFault::Text(fault),
        },
{
    let size: usize = body.len();
    proof {
        lemma_head_bounds(body@);
    }
    let (mut pos, known, end): (usize, bool, u64) = match decode_head(body) {
        HeadRead::Head { id, size: s, len } => {
            if id != ID_TRACKS {
                let mut m: String = "expected Tracks element, got 0x".to_owned();
                push_hex(&mut m, id as u64, 8, 'A');
                return Err(MkvError::Text(m));
            }
            // An element of unknown size ends where the data does, and then some: the
            // head that is missing there is an error.
            match s {
                Some(v) => (len, true, len as u64 + v),
                None => (len, false, 0),
            }
        },
        bad => return Err(MkvError::Text(buffer_error(bad))),
    };
    let ghost limit = match head_at(body@) {
        HeadRead::Head { id, size, len } => len + (match size {
            Some(s) => s as int,
            None => body@.len() as int,
        }),
        _ => 0,
    };
    let mut entries: Vec<ParsedTrackEntry> = Vec::new();
    assert(parsed_views(entries@) =~= Seq::<ParsedModel>::empty());
    while !known || (pos as u64) < end
        invariant
            size == body@.len(),
            pos <= size,
            if known {
                end == limit
            } else {
                limit > size
            },
            tracks_of(body@) == tracks_from(parsed_views(entries@), body@, pos as int, limit),
        decreases size - pos,
    {
        proof {
            lemma_head_bounds(body@.skip(pos as int));
            assert(body@.subrange(pos as int, size as int) =~= body@.skip(pos as int));
        }
        match decode_head(&body[pos..size]) {
            HeadRead::Head { id, size: s, len } => {
                let start: usize = pos + len;
                let n: u64 = match s {
                    Some(v) => v,
                    None => 0,
                };
                if n > (size - start) as u64 {
                    return Ok(entries);
                }
                let next: usize = start + n as usize;
                if id == ID_TRACK_ENTRY {
                    let raw: Vec<u8> = to_vec(&body[pos..next]);
                    let e: ParsedTrackEntry = parse_track_entry(&body[start..next], raw);
                    assert(parsed_views(entries@.push(e)) =~= parsed_views(entries@).push(e@));
                    entries.push(e);
                }
                pos = next;
            },
            bad => return Err(MkvError::Text(buffer_error(bad))),
        }
    }
    Ok(entries)
}

/// The bytes of a file from `pos` on.
pub open spec fn tail(c: Seq<u8>, pos: int) -> Seq<u8> {
    if pos <= c.len() {
        c.skip(pos)
    } else {
        Seq::empty()
    }
}

/// Where a skip of `n` bytes from `pos` on ends: at the latest at the end of the file.
pub open spec fn skipped(c: Seq<u8>, pos: int, n: int) -> int {
    if pos >= c.len() {
        pos
    } else if pos + n <= c.len() {
        pos + n
    } else {
        c.len() as int
    }
}

/// Start and end of the elements of a Segment that a scan looks for.
pub ghost struct Bounds {
    pub seekhead: Option<(int, int)>,
    pub tracks: Option<(int, int)>,
    pub cluster: Option<int>,
}

/// Scans the elements of a Segment from `pos` on, up to its end if that is known, or to
/// the first Cluster.
pub open spec fn segment_from(c: Seq<u8>, pos: int, end: Option<int>, b: Bounds) -> Result<
    Bounds,
    Seq<char>,
>
    decreases c.len() - pos,
{
    if end matches Some(e) && pos >= e {
        Ok(b)
    } else {
        match head_at(tail(c, pos)) {
            HeadRead::Head { id, size, len } => match size {
                None => if id == ID_CLUSTER {
                    Ok(Bounds { cluster: Some(pos), ..b })
                } else {
                    Err(
                        "unexpected unknown-size element 0x"@ + hex_text(id as nat, 8, 'A')
                            + " in Segment"@,
                    )
                },
                Some(s) => {
                    let start = pos + len;
                    let next = skipped(c, start, s as int);
                    if id == ID_CLUSTER {
                        Ok(Bounds { cluster: Some(pos), ..b })
                    } else if next <= pos || next > c.len() {
                        Ok(b)
                    } else if id == ID_SEEK_HEAD {
                        segment_from(
                            c,
                            next,
                            end,
                            Bounds { seekhead: Some((pos, start + s)), ..b },
                        )
                    } else if id == ID_TRACKS {
                        segment_from(c, next, end, Bounds { tracks: Some((pos, start + s)), ..b })
                    } else {
                        segment_from(c, next, end, b)
                    }
                },
            },
            _ => Ok(b),
        }
    }
}

/// Where SeekHead, Tracks and the first Cluster of a file stand.
pub ghost struct ScanModel {
    pub seekhead: Option<(int, int)>,
    pub tracks: (int, int),
    pub cluster: int,
}

/// What a scan of a file finds.
pub open spec fn scan_of(c: Seq<u8>) -> Result<ScanModel, Seq<char>> {
    match head_at(c) {
        HeadRead::Head { id, size, len } => if id != ID_EBML_HEADER {
            Err("expected EBML header (0x1A45DFA3), got 0x"@ + hex_text(id as nat, 8, 'A'))
        } else {
            let p = skipped(c, len as int, size_or_zero(size) as int);
            match head_at(tail(c, p)) {
                HeadRead::Head { id: id2, size: size2, len: len2 } => if id2 != ID_SEGMENT {
                    Err("expected Segment element, got 0x"@ + hex_text(id2 as nat, 8, 'A'))
                } else {
                    let body = p + len2;
                    let end = match size2 {
                        Some(s) => Some(body + s),
                        None => None,
                    };
                    match segment_from(
                        c,
                        body,
                        end,
                        Bounds { seekhead: None, tracks: None, cluster: None },
                    ) {
                        Err(e) => Err(e),
                        Ok(b) => if b.tracks is None {
                            Err("no Tracks element found in MKV"@)
                        } else if b.cluster is None {
                            Err("no Cluster element found in MKV"@)
                        } else {
                            Ok(
                                ScanModel {
                                    seekhead: b.seekhead,
                                    tracks: b.tracks->0,
                                    cluster: b.cluster->0,
                                },
                            )
                        },
                    }
                },
                bad => Err(stream_fault(bad)),
            }
        },
        bad => Err(stream_fault(bad)),
    }
}

/// The bytes of a file from `a` up to `b`.
pub open spec fn range_of(c: Seq<u8>, a: int, b: int) -> Result<Seq<u8>, Seq<char>> {
    if b <= a {
        Ok(Seq::empty())
    } else if b > c.len() {
        Err(end_of_data())
    } else {
        Ok(c.subrange(a, b))
    }
}

/// The bytes before Tracks, without the SeekHead.
pub open spec fn pre_of(c: Seq<u8>, scan: ScanModel) -> Result<Seq<u8>, Seq<char>> {
    match scan.seekhead {
        None => range_of(c, 0, scan.tracks.0),
        Some((a, b)) => match range_of(
            c,
            0,
            if a < scan.tracks.0 {
                a
            } else {
                scan.tracks.0
            },
        ) {
            Err(e) => Err(e),
            Ok(x) => match range_of(c, b, scan.tracks.0) {
                Err(e) => Err(e),
                Ok(y) => Ok(x + y),
            },
        },
    }
}

/// The timestamp among the children of a cluster from `pos` up to `end`, if there is one.
pub open spec fn cluster_time(c: Seq<u8>, pos: int, end: int) -> Result<Option<u64>, Seq<char>>
    decreases c.len() - pos,
{
    if pos >= end {
        Ok(None)
    } else {
        match head_at(tail(c, pos)) {
            HeadRead::Head { id, size, len } => {
                let start = pos + len;
                let n = size_or_zero(size);
                let next = skipped(c, start, n as int);
                if id == ID_TIMESTAMP {
                    if start + n > c.len() {
                        Err(end_of_data())
                    } else {
                        Ok(Some(uint_value(c.subrange(start, start + n))))
                    }
                } else if next <= pos || next > c.len() {
                    Ok(None)
                } else {
                    cluster_time(c, next, end)
                }
            },
            _ => Ok(None),
        }
    }
}

/// The timestamp of a cluster of unknown size, and where the cluster ends: its children go
/// up to the next element with a four-byte id, which is one of the level above, or to what
/// is no element. `t` is the timestamp among the children before `pos`; the first counts.
pub open spec fn open_cluster(c: Seq<u8>, pos: int, t: Option<u64>) -> Result<
    (Option<u64>, int),
    Seq<char>,
>
    decreases c.len() - pos,
{
    let h = head_at(tail(c, pos));
    match h {
        HeadRead::Head { id, size, len } => {
            let start = pos + len;
            let n = size_or_zero(size);
            let next = skipped(c, start, n as int);
            if id >= 0x0100_0000 {
                Ok((t, pos))
            } else if id == ID_TIMESTAMP && t is None && start + n > c.len() {
                Err(end_of_data())
            } else if next <= pos || next > c.len() {
                Ok((t, next))
            } else if id == ID_TIMESTAMP && t is None {
                open_cluster(c, next, Some(uint_value(c.subrange(start, start + n))))
            } else {
                open_cluster(c, next, t)
            }
        },
        _ => Ok((t, pos + taken(h, tail(c, pos).len() as int))),
    }
}

/// The timestamps of the clusters from `pos` on, after those in `acc`, up to the first
/// element that is no cluster; with an error where a timestamp is cut off, after those
/// before it.
pub open spec fn clusters_from(acc: Seq<u64>, c: Seq<u8>, pos: int) -> (
    Seq<u64>,
    Option<Seq<char>>,
)
    decreases
            if pos < c.len() {
                c.len() - pos
            } else {
                0
            },
{
    match head_at(tail(c, pos)) {
        HeadRead::Head { id, size, len } => if id != ID_CLUSTER || pos >= c.len() {
            (acc, None)
        } else {
            let start = pos + len;
            match size {
                Some(s) => match cluster_time(c, start, start + s) {
                    Err(e) => (acc, Some(e)),
                    Ok(t) => clusters_from(with_time(acc, t), c, start + s),
                },
                None => match open_cluster(c, start, None) {
                    Err(e) => (acc, Some(e)),
                    Ok((t, next)) => if next <= pos {
                        (with_time(acc, t), None)
                    } else {
                        clusters_from(with_time(acc, t), c, next)
                    },
                },
            }
        },
        _ => (acc, None),
    }
}

/// The timestamps of all clusters of a file from `first` on.
pub open spec fn cluster_times(c: Seq<u8>, first: int) -> (Seq<u64>, Option<Seq<char>>) {
    clusters_from(Seq::empty(), c, first)
}

/// Whether `times` can be had of the clusters from `pos` on where reads may fail: a failed
/// read among the children of a cluster leaves out its timestamp, unless its size is
/// unknown; one elsewhere ends the list.
pub open spec fn may_be_listed(c: Seq<u8>, pos: int, times: Seq<u64>) -> bool
    decreases
            if pos < c.len() {
                c.len() - pos
            } else {
                0
            },
{
    times.len() == 0 || match head_at(tail(c, pos)) {
        HeadRead::Head { id, size, len } => id == ID_CLUSTER && pos < c.len() && {
            let start = pos + len;
            match size {
                Some(s) => may_be_listed(c, start + s, times) || (cluster_time(c, start, start + s)
                    == Ok::<Option<u64>, Seq<char>>(Some(times[0])) && may_be_listed(
                    c,
                    start + s,
                    times.skip(1),
                )),
                None => match open_cluster(c, start, None) {
                    Err(_) => false,
                    Ok((None, next)) => next > pos && may_be_listed(c, next, times),
                    Ok((Some(t), next)) => times[0] == t && (if next > pos {
                        may_be_listed(c, next, times.skip(1))
                    } else {
                        times.len() == 1
                    }),
                },
            }
        },
        _ => false,
    }
}

/// Whether the list of timestamps from `first` on can go on after `times` with what can be
/// had from `pos` on.
spec fn goes_on(c: Seq<u8>, first: int, times: Seq<u64>, pos: int) -> bool {
    forall|rest: Seq<u64>| #[trigger]
        may_be_listed(c, pos, rest) ==> may_be_listed(c, first, times + rest)
}

/// The list may end where it has come to.
proof fn lemma_list_ends(c: Seq<u8>, first: int, times: Seq<u64>, pos: int)
    requires
        goes_on(c, first, times, pos),
    ensures
        may_be_listed(c, first, times),
{
    let none = Seq::<u64>::empty();
    assert(may_be_listed(c, pos, none));
    assert(times + none =~= times);
}

/// The list goes on behind a cluster, without its timestamp or with it.
proof fn lemma_list_goes_on(
    c: Seq<u8>,
    first: int,
    times: Seq<u64>,
    pos: int,
    t: Option<u64>,
    next: int,
)
    requires
        goes_on(c, first, times, pos),
        forall|rest: Seq<u64>| #[trigger]
            may_be_listed(c, next, rest) ==> may_be_listed(c, pos, with_time(Seq::empty(), t) + rest),
    ensures
        goes_on(c, first, with_time(times, t), next),
{
    let own = with_time(Seq::<u64>::empty(), t);
    assert forall|rest: Seq<u64>| #[trigger] may_be_listed(c, next, rest) implies may_be_listed(
        c,
        first,
        with_time(times, t) + rest,
    ) by {
        assert(may_be_listed(c, pos, own + rest));
        assert(times + (own + rest) =~= with_time(times, t) + rest);
    }
}

/// What can be had of a cluster of known size and those after it.
proof fn lemma_known_listed(c: Seq<u8>, pos: int, t: Option<u64>, rest: Seq<u64>)
    requires
        pos < c.len(),
        head_at(tail(c, pos)) matches HeadRead::Head { id, size, len } && id == ID_CLUSTER && (
        size matches Some(s) && (t is Some ==> cluster_time(c, pos + len, pos + len + s) == Ok::<
            Option<u64>,
            Seq<char>,
        >(t)) && may_be_listed(c, pos + len + s, rest)),
    ensures
        may_be_listed(c, pos, with_time(Seq::empty(), t) + rest),
{
    let all = with_time(Seq::<u64>::empty(), t) + rest;
    if t is Some {
        assert(all.skip(1) =~= rest);
    } else {
        assert(all =~= rest);
    }
}

/// What can be had of a cluster of unknown size and those after it.
proof fn lemma_open_listed(c: Seq<u8>, pos: int, t: Option<u64>, next: int, rest: Seq<u64>)
    requires
        pos < c.len(),
        pos < next,
        head_at(tail(c, pos)) matches HeadRead::Head { id, size, len } && id == ID_CLUSTER && size
            is None && open_cluster(c, pos + len, None) == Ok::<(Option<u64>, int), Seq<char>>(
            (t, next),
        ),
        may_be_listed(c, next, rest),
    ensures
        may_be_listed(c, pos, with_time(Seq::empty(), t) + rest),
{
    let all = with_time(Seq::<u64>::empty(), t) + rest;
    if t is Some {
        assert(all.skip(1) =~= rest);
    } else {
        assert(all =~= rest);
    }
}

/// The only error among the children of a cluster is that the file ends.
proof fn lemma_time_fault(c: Seq<u8>, pos: int, end: int)
    ensures
        cluster_time(c, pos, end) matches Err(e) ==> e == end_of_data(),
    decreases c.len() - pos,
{
    if pos < end {
        if let HeadRead::Head { id, size, len } = head_at(tail(c, pos)) {
            let next = skipped(c, pos + len, size_or_zero(size) as int);
            if id != ID_TIMESTAMP && pos < next && next <= c.len() {
                lemma_time_fault(c, next, end);
            }
        }
    }
}

proof fn lemma_open_fault(c: Seq<u8>, pos: int, t: Option<u64>)
    ensures
        open_cluster(c, pos, t) matches Err(e) ==> e == end_of_data(),
    decreases c.len() - pos,
{
    if let HeadRead::Head { id, size, len } = head_at(tail(c, pos)) {
        let start = pos + len;
        let n = size_or_zero(size);
        let next = skipped(c, start, n as int);
        if id < 0x0100_0000 && pos < next && next <= c.len() {
            lemma_open_fault(c, next, t);
            lemma_open_fault(c, next, Some(uint_value(c.subrange(start, start + n))));
        }
    }
}

/// Whether a timestamp is cut off does not depend on those before it; the error is that the
/// file ends.
proof fn lemma_clusters_fault(a: Seq<u64>, b: Seq<u64>, c: Seq<u8>, pos: int)
    ensures
        clusters_from(a, c, pos).1 == clusters_from(b, c, pos).1,
        clusters_from(a, c, pos).1 matches Some(e) ==> e == end_of_data(),
    decreases
            if pos < c.len() {
                c.len() - pos
            } else {
                0
            },
{
    if let HeadRead::Head { id, size, len } = head_at(tail(c, pos)) {
        if id == ID_CLUSTER && pos < c.len() {
            let start = pos + len;
            lemma_head_bounds(tail(c, pos));
            match size {
                Some(s) => {
                    lemma_time_fault(c, start, start + s);
                    if let Ok(t) = cluster_time(c, start, start + s) {
                        lemma_clusters_fault(with_time(a, t), with_time(b, t), c, start + s);
                    }
                },
                None => {
                    lemma_open_fault(c, start, None);
                    if let Ok((t, next)) = open_cluster(c, start, None) {
                        if next > pos {
                            lemma_clusters_fault(with_time(a, t), with_time(b, t), c, next);
                        }
                    }
                },
            }
        }
    }
}

/// A timestamp that was found is that of the cluster.
proof fn lemma_open_kept(c: Seq<u8>, pos: int, t: u64)
    ensures
        open_cluster(c, pos, Some(t)) matches Ok(p) && p.0 == Some(t),
    decreases c.len() - pos,
{
    if let HeadRead::Head { id, size, len } = head_at(tail(c, pos)) {
        let next = skipped(c, pos + len, size_or_zero(size) as int);
        if id < 0x0100_0000 && pos < next && next <= c.len() {
            lemma_open_kept(c, next, t);
        }
    }
}

pub open spec fn with_time(acc: Seq<u64>, t: Option<u64>) -> Seq<u64> {
    match t {
        Some(v) => acc.push(v),
        None => acc,
    }
}

/// What is collected of a scanned file.
pub open spec fn collected(c: Seq<u8>, scan: ScanModel) -> Result<MkvModel, Seq<char>> {
    match pre_of(c, scan) {
        Err(e) => Err(e),
        Ok(pre) => match range_of(c, scan.tracks.0, scan.tracks.1) {
            Err(e) => Err(e),
            Ok(body) => match tracks_of(body) {
                Err(e) => Err(e),
                Ok(entries) => match range_of(c, scan.tracks.1, scan.cluster) {
                    Err(e) => Err(e),
                    Ok(post) => match cluster_times(c, scan.cluster) {
                        (_, Some(e)) => Err(e),
                        (times, None) => Ok(
                            MkvModel {
                                pre_tracks_blob: pre,
                                track_entries: entries,
                                post_tracks_blob: post,
                                cluster_timestamps: times,
                            },
                        ),
                    },
                },
            },
        },
    }
}

/// Whether `m` is what a scanned file holds: the blobs and the track entries, and of the
/// timestamps those that can be had where reads may fail.
pub open spec fn is_collected(c: Seq<u8>, scan: ScanModel, m: MkvModel) -> bool {
    &&& pre_of(c, scan) == Ok::<Seq<u8>, Seq<char>>(m.pre_tracks_blob)
    &&& range_of(c, scan.tracks.0, scan.tracks.1) matches Ok(body) && tracks_of(body) == Ok::<
        Seq<ParsedModel>,
        Seq<char>,
    >(m.track_entries)
    &&& range_of(c, scan.tracks.1, scan.cluster) == Ok::<Seq<u8>, Seq<char>>(m.post_tracks_blob)
    &&& may_be_listed(c, scan.cluster, m.cluster_timestamps)
}

/// Whether an error is the given fault of the content, or that of a failed read, which a
/// reliable file does not have.
pub open spec fn is_fault(e: MkvFault, faulty: bool, fault: Seq<char>, reliable: bool) -> bool {
    match e {
        MkvFault::Text(text) => faulty && text == fault,
        MkvFault::Read(_) => !reliable,
    }
}

/// Reads the head of the element at `pos`.
fn read_head<R: RawFile + ?Sized>(file: &R, pos: u64) -> (r: Result<HeadRead, MuxerError>)
    ensures
        file.reliable() ==> r is Ok,
        r matches Ok(h) ==> h == head_at(tail(file.content(), pos as int)),
{
    match fill(file, pos, 12) {
        Err(e) => Err(e),
        Ok((buf, filled)) => {
            proof {
                let c = file.content();
                let t = tail(c, pos as int);
                if t.len() > 12 {
                    lemma_head_short(t);
                    assert(buf@.subrange(0, filled as int) =~= t.take(12));
                } else {
                    assert(buf@.subrange(0, filled as int) =~= t);
                }
            }
            Ok(decode_head(&buf.as_slice()[0..filled]))
        },
    }
}

/// Reads the bytes from `start` up to `end`.
fn read_range<R: RawFile + ?Sized>(file: &R, start: u64, end: u64) -> (r: Result<
    Vec<u8>,
    MkvError,
>)
    ensures
        match r {
            Ok(v) => range_of(file.content(), start as int, end as int) == Ok::<
                Seq<u8>,
                Seq<char>,
            >(v@),
            Err(e) => is_fault(
                e@,
                range_of(file.content(), start as int, end as int) is Err,
                range_of(file.content(), start as int, end as int)->Err_0,
                file.reliable(),
            ),
        },
{
    if end <= start {
        let v: Vec<u8> = Vec::new();
        assert(v@ =~= Seq::<u8>::empty());
        return Ok(v);
    }
    let size: u64 = file.size();
    if end > size {
        return Err(MkvError::Text("failed to fill whole buffer".to_owned()));
    }
    let n: u64 = end - start;
    match read_all(file, start, n) {
        Ok(v) => {
            assert(v@ =~= file.content().subrange(start as int, end as int));
            Ok(v)
        },
        Err(e) => Err(MkvError::Read(e)),
    }
}

/// Reads `n` bytes that the file has.
fn read_all<R: RawFile + ?Sized>(file: &R, start: u64, n: u64) -> (r: Result<Vec<u8>, MuxerError>)
    requires
        start + n <= file.content().len(),
    ensures
        file.reliable() ==> r is Ok,
        r matches Ok(v) ==> v@ == file.content().subrange(start as int, start + n),
{
    let mut out: Vec<u8> = Vec::new();
    let mut done: u64 = 0;
    let ghost c = file.content();
    let size: u64 = file.size();
    assert(out@ =~= c.subrange(start as int, start as int));
    while done < n
        invariant
            c == file.content(),
            size == c.len(),
            start + n <= c.len(),
            done <= n,
            out@ == c.subrange(start as int, start + done),
        decreases n - done,
    {
        let left: u64 = n - done;
        let step: usize = if left < 0x100_0000 {
            left as usize
        } else {
            0x100_0000
        };
        match fill(file, start + done, step) {
            Err(e) => return Err(e),
            Ok((buf, filled)) => {
                assert(filled == step);
                append_bytes(&mut out, &buf);
                done = done + step as u64;
                assert(out@ =~= c.subrange(start as int, start + done));
            },
        }
    }
    Ok(out)
}

/// Where a skip of `n` bytes ends.
fn skip_to(pos: u64, n: u64, size: u64) -> (r: u64)
    ensures
        forall|c: Seq<u8>| #![trigger skipped(c, pos as int, n as int)]
            c.len() == size ==> skipped(c, pos as int, n as int) == r,
{
    if pos >= size {
        pos
    } else if n <= size - pos {
        pos + n
    } else {
        size
    }
}

/// Start and end of an element.
#[derive(Debug, Clone, Copy, PartialEq, Eq)]
pub struct ElementSpan {
    /// Absolute file offset of the first byte of this element (ID byte).
    pub start: u64,
    /// Absolute file offset of the byte past the last byte of this element.
    pub end: u64,
}

pub open spec fn span_view(s: Option<ElementSpan>) -> Option<(int, int)> {
    match s {
        Some(x) => Some((x.start as int, x.end as int)),
        None => None,
    }
}

/// Where SeekHead, Tracks and the first Cluster of a file stand.
#[derive(Debug, Clone, Copy, PartialEq, Eq)]
pub struct ScanResult {
    pub seekhead_span: Option<ElementSpan>,
    pub tracks_span: ElementSpan,
    pub first_cluster_start: u64,
}

impl View for ScanResult {
    type V = ScanModel;

    open spec fn view(&self) -> ScanModel {
        ScanModel {
            seekhead: span_view(self.seekhead_span),
            tracks: (self.tracks_span.start as int, self.tracks_span.end as int),
            cluster: self.first_cluster_start as int,
        }
    }
}

fn hex_error(before: &str, id: u32, after: &str) -> (r: MkvError)
    ensures
        r@ == MkvFault::Text(before@ + hex_text(id as nat, 8, 'A') + after@),
{
    let mut s: String = before.to_owned();
    push_hex(&mut s, id as u64, 8, 'A');
    s.append(after);
    MkvError::Text(s)
}

/// Scans a file for the boundaries of its elements, without reading its clusters.
pub fn scan_boundaries<R: RawFile + ?Sized>(file: &R) -> (r: Result<ScanResult, MkvError>)
    requires
        file.content().len() <= i64::MAX,
    ensures
        file.reliable() ==> match scan_of(file.content()) {
            Ok(m) => r matches Ok(s) && s@ == m,
            Err(fault) => r matches Err(e) && e@ == MkvFault::Text(fault),
        },
        r matches Ok(s) ==> scan_of(file.content()) == Ok::<ScanModel, Seq<char>>(s@),
        r matches Ok(s) ==> s.tracks_span.start <= i64::MAX && s.first_cluster_start <= i64::MAX,
{
    let ghost c = file.content();
    let size: u64 = file.size();
    proof {
        assert(tail(c, 0) =~= c);
        lemma_head_bounds(c);
    }
    let mut pos: u64 = match read_head(file, 0) {
        Err(e) => return Err(MkvError::Read(e)),
        Ok(HeadRead::Head { id, size: s, len }) => {
            if id != ID_EBML_HEADER {
                let e: MkvError = hex_error("expected EBML header (0x1A45DFA3), got 0x", id, "");
                proof {
                    reveal_strlit("");
                    let t = "expected EBML header (0x1A45DFA3), got 0x"@ + hex_text(
                        id as nat,
                        8,
                        'A',
                    );
                    assert(t + ""@ =~= t);
                }
                return Err(e);
            }
            let n: u64 = match s {
                Some(v) => v,
                None => 0,
            };
            skip_to(len as u64, n, size)
        },
        Ok(bad) => return Err(MkvError::Text(stream_error(bad))),
    };
    let ghost p = pos as int;
    proof {
        if head_at(c) is Head {
            assert(p == skipped(
                c,
                head_at(c)->len as int,
                size_or_zero(head_at(c)->size) as int,
            ));
        }
        lemma_head_bounds(tail(c, p));
    }
    let (known, end): (bool, u64) = match read_head(file, pos) {
        Err(e) => return Err(MkvError::Read(e)),
        Ok(HeadRead::Head { id, size: s, len }) => {
            if id != ID_SEGMENT {
                let e: MkvError = hex_error("expected Segment element, got 0x", id, "");
                proof {
                    reveal_strlit("");
                    let t = "expected Segment element, got 0x"@ + hex_text(id as nat, 8, 'A');
                    assert(t + ""@ =~= t);
                }
                return Err(e);
            }
            pos = pos + len as u64;
            match s {
                Some(v) => (true, pos + v),
                None => (false, 0),
            }
        },
        Ok(bad) => return Err(MkvError::Text(stream_error(bad))),
    };
    let ghost limit = if known {
        Some(end as int)
    } else {
        None
    };
    let ghost none = Bounds { seekhead: None, tracks: None, cluster: None };
    let ghost start = pos as int;
    let mut seekhead_span: Option<ElementSpan> = None;
    let mut tracks_span: Option<ElementSpan> = None;
    let mut first_cluster_start: Option<u64> = None;
    while !known || pos < end
        invariant_except_break
            first_cluster_start is None,
        invariant
            c == file.content(),
            size == c.len(),
            c.len() <= i64::MAX,
            pos <= c.len(),
            limit == (if known {
                Some(end as int)
            } else {
                None
            }),
            tracks_span matches Some(t) ==> t.start <= i64::MAX,
            first_cluster_start matches Some(t) ==> t <= i64::MAX,
            match segment_from(c, start, limit, none) {
                Err(e) => scan_of(c) == Err::<ScanModel, Seq<char>>(e),
                Ok(b) => scan_of(c) == (if b.tracks is None {
                    Err("no Tracks element found in MKV"@)
                } else if b.cluster is None {
                    Err("no Cluster element found in MKV"@)
                } else {
                    Ok(
                        ScanModel {
                            seekhead: b.seekhead,
                            tracks: b.tracks->0,
                            cluster: b.cluster->0,
                        },
                    )
                }),
            },
            first_cluster_start is None ==> segment_from(c, start, limit, none) == segment_from(
                c,
                pos as int,
                limit,
                Bounds {
                    seekhead: span_view(seekhead_span),
                    tracks: span_view(tracks_span),
                    cluster: None,
                },
            ),
        ensures
            file.reliable() || first_cluster_start is Some ==> segment_from(
                c,
                start,
                limit,
                none,
            ) == Ok::<Bounds, Seq<char>>(
                Bounds {
                    seekhead: span_view(seekhead_span),
                    tracks: span_view(tracks_span),
                    cluster: match first_cluster_start {
                        Some(t) => Some(t as int),
                        None => None,
                    },
                },
            ),
        decreases c.len() - pos,
    {
        proof {
            lemma_head_bounds(tail(c, pos as int));
        }
        let head: HeadRead = match read_head(file, pos) {
            Ok(h) => h,
            Err(_) => {
                break ;
            },
        };
        match head {
            HeadRead::Head { id, size: s, len } => {
                let body: u64 = pos + len as u64;
                match s {
                    None => {
                        if id == ID_CLUSTER {
                            first_cluster_start = Some(pos);
                            break ;
                        }
                        return Err(
                            hex_error("unexpected unknown-size element 0x", id, " in Segment"),
                        );
                    },
                    Some(n) => {
                        if id == ID_CLUSTER {
                            first_cluster_start = Some(pos);
                            break ;
                        }
                        let next: u64 = skip_to(body, n, size);
                        assert(next == skipped(c, body as int, n as int));
                        if id == ID_SEEK_HEAD {
                            seekhead_span = Some(ElementSpan { start: pos, end: body + n });
                        } else if id == ID_TRACKS {
                            tracks_span = Some(ElementSpan { start: pos, end: body + n });
                        }
                        pos = next;
                    },
                }
            },
            _ => {
                break ;
            },
        }
    }
    let tracks_span: ElementSpan = match tracks_span {
        Some(t) => t,
        None => return Err(MkvError::Text("no Tracks element found in MKV".to_owned())),
    };
    let first_cluster_start: u64 = match first_cluster_start {
        Some(t) => t,
        None => return Err(MkvError::Text("no Cluster element found in MKV".to_owned())),
    };
    Ok(ScanResult { seekhead_span, tracks_span, first_cluster_start })
}

/// The timestamp among the children of a cluster from `from` up to `end`, if there is one
/// and no read before it failed.
fn find_cluster_time<R: RawFile + ?Sized>(file: &R, from: u64, end: u64) -> (r: Result<
    Option<u64>,
    MkvError,
>)
    requires
        file.content().len() <= i64::MAX,
        from <= file.content().len(),
    ensures
        ({
            let whole = cluster_time(file.content(), from as int, end as int);
            match r {
                Ok(t) => whole == Ok::<Option<u64>, Seq<char>>(t) || t is None && !file.reliable(),
                Err(e) => is_fault(e@, whole is Err, whole->Err_0, file.reliable()),
            }
        }),
{
    let ghost c = file.content();
    let size: u64 = file.size();
    let ghost whole = cluster_time(c, from as int, end as int);
    let mut pos: u64 = from;
    while pos < end
        invariant
            c == file.content(),
            size == c.len(),
            c.len() <= i64::MAX,
            pos <= c.len(),
            whole == cluster_time(c, from as int, end as int),
            whole == cluster_time(c, pos as int, end as int),
        decreases c.len() - pos,
    {
        proof {
            lemma_head_bounds(tail(c, pos as int));
        }
        match read_head(file, pos) {
            Ok(HeadRead::Head { id, size: s, len }) => {
                let start: u64 = pos + len as u64;
                let n: u64 = match s {
                    Some(v) => v,
                    None => 0,
                };
                if id == ID_TIMESTAMP {
                    return match read_payload(file, start, n) {
                        Ok(v) => Ok(Some(decode_uint(&v))),
                        Err(e) => Err(e),
                    };
                }
                let next: u64 = skip_to(start, n, size);
                assert(next == skipped(c, start as int, n as int));
                pos = next;
            },
            _ => return Ok(None),
        }
    }
    Ok(None)
}

/// Reads `n` bytes from `start` on; an error where the file ends before.
fn read_payload<R: RawFile + ?Sized>(file: &R, start: u64, n: u64) -> (r: Result<
    Vec<u8>,
    MkvError,
>)
    requires
        file.content().len() <= i64::MAX,
        start <= file.content().len(),
        n < 0x100_0000_0000_0000,
    ensures
        match r {
            Ok(v) => start + n <= file.content().len() && v@ == file.content().subrange(
                start as int,
                start + n,
            ),
            Err(e) => is_fault(
                e@,
                start + n > file.content().len(),
                end_of_data(),
                file.reliable(),
            ),
        },
{
    match read_range(file, start, start + n) {
        Ok(v) => {
            if n == 0 {
                assert(v@ =~= file.content().subrange(start as int, start + n));
            }
            Ok(v)
        },
        Err(e) => Err(e),
    }
}

/// The timestamp of a cluster of unknown size, and where the cluster ends; without the end
/// where a read failed.
fn find_open_cluster<R: RawFile + ?Sized>(file: &R, from: u64) -> (r: Result<
    (Option<u64>, Option<u64>),
    MkvError,
>)
    requires
        file.content().len() <= i64::MAX,
        from <= file.content().len(),
    ensures
        ({
            let whole = open_cluster(file.content(), from as int, None);
            match r {
                Ok((t, Some(next))) => whole == Ok::<(Option<u64>, int), Seq<char>>(
                    (t, next as int),
                ) && from <= next <= file.content().len(),
                Ok((t, None)) => !file.reliable() && (t is Some ==> (whole matches Ok(p) && p.0
                    == t)),
                Err(e) => is_fault(e@, whole is Err, whole->Err_0, file.reliable()),
            }
        }),
{
    let ghost c = file.content();
    let size: u64 = file.size();
    let ghost whole = open_cluster(c, from as int, None);
    let mut pos: u64 = from;
    let mut time: Option<u64> = None;
    loop
        invariant
            c == file.content(),
            size == c.len(),
            c.len() <= i64::MAX,
            from <= pos <= c.len(),
            whole == open_cluster(c, from as int, None),
            whole == open_cluster(c, pos as int, time),
        decreases c.len() - pos,
    {
        proof {
            lemma_head_bounds(tail(c, pos as int));
            if let Some(t) = time {
                lemma_open_kept(c, pos as int, t);
            }
        }
        let head: HeadRead = match read_head(file, pos) {
            Ok(h) => h,
            Err(_) => return Ok((time, None)),
        };
        match head {
            HeadRead::Head { id, size: s, len } => {
                // A four-byte id is one of the level above.
                if id >= 0x0100_0000 {
                    return Ok((time, Some(pos)));
                }
                let start: u64 = pos + len as u64;
                let n: u64 = match s {
                    Some(v) => v,
                    None => 0,
                };
                let next: u64 = skip_to(start, n, size);
                assert(next == skipped(c, start as int, n as int));
                if id == ID_TIMESTAMP && time.is_none() {
                    match read_payload(file, start, n) {
                        Ok(v) => {
                            time = Some(decode_uint(&v));
                        },
                        Err(e) => return Err(e),
                    }
                }
                pos = next;
            },
            HeadRead::BadId(_) => return Ok((time, Some(pos + 1))),
            HeadRead::BadSize(_, w) => {
                assert(w + 1 <= tail(c, pos as int).len());
                return Ok((time, Some(pos + w as u64 + 1)));
            },
            _ => return Ok((time, Some(size))),
        }
    }
}

/// The timestamps of all clusters from `first` on. A read that fails among the children of a
/// cluster of known size leaves out the timestamp of that cluster.
pub fn collect_cluster_timestamps<R: RawFile + ?Sized>(file: &R, first: u64) -> (r: Result<
    Vec<u64>,
    MkvError,
>)
    requires
        file.content().len() <= i64::MAX,
        first <= i64::MAX,
    ensures
        ({
            let whole = cluster_times(file.content(), first as int);
            match r {
                Ok(v) => {
                    &&& may_be_listed(file.content(), first as int, v@)
                    &&& file.reliable() ==> whole == (v@, None::<Seq<char>>)
                },
                Err(e) => is_fault(e@, whole.1 is Some, whole.1->0, file.reliable()),
            }
        }),
{
    let ghost c = file.content();
    let size: u64 = file.size();
    let ghost whole = cluster_times(c, first as int);
    let mut timestamps: Vec<u64> = Vec::new();
    let mut pos: u64 = first;
    proof {
        let none = Seq::<u64>::empty();
        assert(timestamps@ =~= none);
        assert forall|rest: Seq<u64>| #[trigger]
            may_be_listed(c, first as int, rest) implies may_be_listed(
            c,
            first as int,
            timestamps@ + rest,
        ) by {
            assert(none + rest =~= rest);
        }
        lemma_clusters_fault(none, none, c, first as int);
    }
    while pos < size
        invariant
            c == file.content(),
            size == c.len(),
            c.len() <= i64::MAX,
            whole == cluster_times(c, first as int),
            whole.1 matches Some(e) ==> e == end_of_data(),
            clusters_from(Seq::empty(), c, pos as int).1 is Some ==> whole.1 is Some,
            file.reliable() ==> whole == clusters_from(timestamps@, c, pos as int),
            goes_on(c, first as int, timestamps@, pos as int),
        decreases
                if pos < size {
                    size - pos
                } else {
                    0
                },
    {
        let ghost before = timestamps@;
        let ghost at = pos as int;
        proof {
            lemma_head_bounds(tail(c, at));
            lemma_list_ends(c, first as int, before, at);
            lemma_clusters_fault(Seq::empty(), Seq::empty(), c, at);
        }
        match read_head(file, pos) {
            Ok(HeadRead::Head { id, size: s, len }) => {
                if id != ID_CLUSTER {
                    return Ok(timestamps);
                }
                let start: u64 = pos + len as u64;
                match s {
                    Some(n) => {
                        let t: Option<u64> = match find_cluster_time(file, start, start + n) {
                            Ok(t) => t,
                            Err(e) => {
                                proof {
                                    lemma_time_fault(c, start as int, start + n);
                                }
                                return Err(e);
                            },
                        };
                        proof {
                            assert forall|rest: Seq<u64>| #[trigger]
                                may_be_listed(c, start + n, rest) implies may_be_listed(
                                c,
                                at,
                                with_time(Seq::empty(), t) + rest,
                            ) by {
                                lemma_known_listed(c, at, t, rest);
                            }
                            lemma_list_goes_on(c, first as int, before, at, t, start + n);
                            if let Ok(x) = cluster_time(c, start as int, start + n) {
                                lemma_clusters_fault(
                                    with_time(Seq::empty(), x),
                                    Seq::empty(),
                                    c,
                                    start + n,
                                );
                            }
                        }
                        if let Some(v) = t {
                            timestamps.push(v);
                        }
                        pos = start + n;
                    },
                    None => {
                        match find_open_cluster(file, start) {
                            Ok((t, end)) => {
                                proof {
                                    if let Ok((x, next)) = open_cluster(c, start as int, None) {
                                        lemma_clusters_fault(
                                            with_time(Seq::empty(), x),
                                            Seq::empty(),
                                            c,
                                            next,
                                        );
                                        if next > at && (t == x) {
                                            assert forall|rest: Seq<u64>| #[trigger]
                                                may_be_listed(c, next, rest) implies may_be_listed(
                                                c,
                                                at,
                                                with_time(Seq::empty(), t) + rest,
                                            ) by {
                                                lemma_open_listed(c, at, t, next, rest);
                                            }
                                            lemma_list_goes_on(
                                                c,
                                                first as int,
                                                before,
                                                at,
                                                t,
                                                next,
                                            );
                                            lemma_list_ends(
                                                c,
                                                first as int,
                                                with_time(before, t),
                                                next,
                                            );
                                        } else if t == x && t is Some {
                                            let own = seq![t->0];
                                            assert(may_be_listed(c, at, own));
                                            assert(before + own =~= with_time(before, t));
                                        }
                                    }
                                }
                                if let Some(v) = t {
                                    timestamps.push(v);
                                }
                                match end {
                                    Some(next) => {
                                        pos = next;
                                    },
                                    None => return Ok(timestamps),
                                }
                            },
                            Err(e) => {
                                proof {
                                    lemma_open_fault(c, start as int, None);
                                }
                                return Err(e);
                            },
                        }
                    },
                }
            },
            _ => return Ok(timestamps),
        }
    }
    proof {
        assert(tail(c, pos as int) =~= Seq::<u8>::empty());
        lemma_list_ends(c, first as int, timestamps@, pos as int);
    }
    Ok(timestamps)
}

/// Collects the parts of a scanned file.
pub fn collect_data<R: RawFile + ?Sized>(file: &R, scan: &ScanResult) -> (r: Result<
    ParsedMkv,
    MkvError,
>)
    requires
        file.content().len() <= i64::MAX,
        scan.first_cluster_start <= i64::MAX,
    ensures
        ({
            let whole = collected(file.content(), scan@);
            match r {
                Ok(p) => {
                    &&& is_collected(file.content(), scan@, p@)
                    &&& file.reliable() ==> whole == Ok::<MkvModel, Seq<char>>(p@)
                },
                Err(e) => is_fault(e@, whole is Err, whole->Err_0, file.reliable()),
            }
        }),
{
    let tracks: ElementSpan = scan.tracks_span;
    let pre_tracks_blob: Vec<u8> = match scan.seekhead_span {
        None => match read_range(file, 0, tracks.start) {
            Ok(v) => v,
            Err(e) => return Err(e),
        },
        Some(sh) => {
            // Bytes before SeekHead, then bytes between it and Tracks.
            let first_end: u64 = if sh.start < tracks.start {
                sh.start
            } else {
                tracks.start
            };
            let mut blob: Vec<u8> = match read_range(file, 0, first_end) {
                Ok(v) => v,
                Err(e) => return Err(e),
            };
            match read_range(file, sh.end, tracks.start) {
                Ok(v) => {
                    append_bytes(&mut blob, &v);
                },
                Err(e) => return Err(e),
            }
            blob
        },
    };
    let body: Vec<u8> = match read_range(file, tracks.start, tracks.end) {
        Ok(v) => v,
        Err(e) => return Err(e),
    };
    let track_entries: Vec<ParsedTrackEntry> = match parse_tracks_body(&body) {
        Ok(v) => v,
        Err(e) => return Err(e),
    };
    let post_tracks_blob: Vec<u8> = match read_range(file, tracks.end, scan.first_cluster_start) {
        Ok(v) => v,
        Err(e) => return Err(e),
    };
    let cluster_timestamps: Vec<u64> = match collect_cluster_timestamps(
        file,
        scan.first_cluster_start,
    ) {
        Ok(v) => v,
        Err(e) => return Err(e),
    };
    Ok(ParsedMkv { pre_tracks_blob, track_entries, post_tracks_blob, cluster_timestamps })
}

/// What a Matroska file means to the toolchain.
pub open spec fn mkv_of(c: Seq<u8>) -> Result<MkvModel, Seq<char>> {
    match scan_of(c) {
        Err(e) => Err(e),
        Ok(scan) => collected(c, scan),
    }
}

/// Scans a Matroska file: its parts before the clusters, and the times of those.
pub fn parse_mkv<R: RawFile + ?Sized>(file: &R) -> (r: Result<ParsedMkv, MkvError>)
    requires
        file.content().len() <= i64::MAX,
    ensures
        file.reliable() ==> match mkv_of(file.content()) {
            Ok(m) => r matches Ok(p) && p@ == m,
            Err(fault) => r matches Err(e) && e@ == MkvFault::Text(fault),
        },
        r matches Ok(p) ==> (scan_of(file.content()) matches Ok(scan) && is_collected(
            file.content(),
            scan,
            p@,
        )),
{
    match scan_boundaries(file) {
        Ok(scan) => collect_data(file, &scan),
        Err(e) => Err(e),
    }
}

/// Whether `part` stands somewhere in `whole`.
pub open spec fn is_part(whole: Seq<u8>, part: Seq<u8>) -> bool {
    exists|a: int| #[trigger] part_at(whole, part, a)
}

pub open spec fn part_at(whole: Seq<u8>, part: Seq<u8>, a: int) -> bool {
    0 <= a && a + part.len() <= whole.len() && part == whole.subrange(a, a + part.len())
}

/// The bytes that are kept of each track entry stand in the Tracks element as they are.
pub proof fn track_entries_are_verbatim(body: Seq<u8>)
    ensures
        tracks_of(body) matches Ok(entries) ==> forall|i: int|
            0 <= i < entries.len() ==> is_part(body, (#[trigger] entries[i]).raw_bytes),
{
    if let HeadRead::Head { id, size, len } = head_at(body) {
        let end = len + (match size {
            Some(s) => s as int,
            None => body.len() as int,
        });
        lemma_verbatim(Seq::empty(), body, len as int, end);
    }
}

proof fn lemma_verbatim(acc: Seq<ParsedModel>, body: Seq<u8>, pos: int, end: int)
    requires
        forall|i: int| 0 <= i < acc.len() ==> is_part(body, (#[trigger] acc[i]).raw_bytes),
    ensures
        tracks_from(acc, body, pos, end) matches Ok(entries) ==> forall|i: int|
            0 <= i < entries.len() ==> is_part(body, (#[trigger] entries[i]).raw_bytes),
    decreases body.len() - pos,
{
    if pos < end {
        if let HeadRead::Head { id, size, len } = head_at(body.skip(pos)) {
            let start = pos + len;
            let next = start + size_or_zero(size);
            if next <= body.len() && next > pos && pos >= 0 {
                if id == ID_TRACK_ENTRY {
                    let raw = body.subrange(pos, next);
                    let e = entry_of(body.subrange(start, next), raw);
                    lemma_raw_kept(
                        ParsedModel {
                            track_id: 0,
                            track_type: 0,
                            flag_default: 0,
                            language: Seq::empty(),
                            codec_id: Seq::empty(),
                            pixel_width: None,
                            pixel_height: None,
                            raw_bytes: raw,
                        },
                        body.subrange(start, next),
                        0,
                    );
                    assert(part_at(body, raw, pos));
                    assert(is_part(body, e.raw_bytes));
                    lemma_verbatim(acc.push(e), body, next, end);
                } else {
                    lemma_verbatim(acc, body, next, end);
                }
            }
        }
    }
}

/// The children of a track entry change none of its bytes.
proof fn lemma_raw_kept(st: ParsedModel, data: Seq<u8>, pos: int)
    ensures
        entry_from(st, data, pos).raw_bytes == st.raw_bytes,
    decreases data.len() - pos,
{
    if pos < data.len() {
        if let HeadRead::Head { id, size, len } = head_at(data.skip(pos)) {
            let start = pos + len;
            let next = start + size_or_zero(size);
            if next <= data.len() && next > pos {
                lemma_raw_kept(entry_with(st, id, data.subrange(start, next)), data, next);
            }
        }
    }
}

} // verus!
