//! Binstruct files: what is needed to rebuild a Matroska file around raw tracks.
//!
//! This file holds the types and the format; `codec` writes and reads it.
pub mod codec;
pub mod laws;
use crate::bytes::concat_map;
use crate::compress::{is_zstd, zstd_decoded, zstd_encoded};
use crate::vfr::end_of_data;
use crate::vint::{length_size, uint_bytes, uint_value, vint_at, vint_bytes, VintRead};
use vstd::prelude::*;
use vstd::utf8::{decode_utf8, encode_utf8, valid_utf8};

verus! {

/// Why a binstruct file could not be written or read.
#[derive(Debug, Clone, PartialEq, Eq)]
pub enum BinstructError {
    /// The header's magic is not `VFUS`.
    InvalidMagic([u8; 4]),
    UnsupportedVersion(u64),
    MissingElement(&'static str),
    /// The bytes ended early.
    Io(&'static str),
    Zstd(String),
    Ebml(&'static str),
}

/// [`BinstructError`] with sequences for arrays and strings.
pub ghost enum BinstructFault {
    InvalidMagic(Seq<u8>),
    UnsupportedVersion(u64),
    MissingElement(Seq<char>),
    Io(Seq<char>),
    Zstd(Seq<char>),
    Ebml(Seq<char>),
}

impl View for BinstructError {
    type V = BinstructFault;

    open spec fn view(&self) -> BinstructFault {
        match self {
            BinstructError::InvalidMagic(m) => BinstructFault::InvalidMagic(m@),
            BinstructError::UnsupportedVersion(v) => BinstructFault::UnsupportedVersion(*v),
            BinstructError::MissingElement(s) => BinstructFault::MissingElement(s@),
            BinstructError::Io(s) => BinstructFault::Io(s@),
            BinstructError::Zstd(s) => BinstructFault::Zstd(s@),
            BinstructError::Ebml(s) => BinstructFault::Ebml(s@),
        }
    }
}

/// A whole binstruct file.
#[derive(Debug, Clone, PartialEq, Eq)]
pub struct BinstructFile {
    pub header: Header,
    pub source: Source,
    pub mkv_skeleton: MkvSkeleton,
    pub cluster_timestamps: ClusterTimestamps,
    pub track_policies: Vec<TrackPolicy>,
}

#[derive(Debug, Clone, Copy, PartialEq, Eq)]
pub struct Header {
    pub version: u64,
    /// bit 0: compressed with zstd
    pub config_flags: u8,
}

/// Where the content comes from.
#[derive(Debug, Clone, PartialEq, Eq)]
pub struct Source {
    pub original_mkv_hash: [u8; 32],
    pub publisher_info: String,
    pub creation_timestamp: u64,
    pub original_language: String,
    pub original_default_track_id: u64,
    pub build_tools: Vec<ToolEntry>,
}

#[derive(Debug, Clone, PartialEq, Eq)]
pub struct ToolEntry {
    pub name: String,
    pub version: String,
}

/// The parts of the original file around its clusters.
#[derive(Debug, Clone, PartialEq, Eq)]
pub struct MkvSkeleton {
    pub pre_tracks_blob: Vec<u8>,
    pub track_entries: Vec<TrackEntryRecord>,
    pub post_tracks_blob: Vec<u8>,
}

#[derive(Debug, Clone, PartialEq, Eq)]
pub struct TrackEntryRecord {
    pub track_id: u64,
    pub bytes: Vec<u8>,
}

#[derive(Debug, Clone, PartialEq, Eq)]
pub struct ClusterTimestamps {
    pub cluster_count: u64,
    /// Signed deltas between consecutive cluster timestamps.
    pub deltas: Vec<i64>,
}

#[derive(Debug, Clone, Copy, PartialEq, Eq, Structural)]
pub enum CodecType {
    Video,
    Audio,
}

/// How the frames of a track are stored.
#[derive(Debug, Clone, PartialEq, Eq)]
pub struct TrackPolicy {
    pub track_id: u64,
    pub codec_type: CodecType,
    pub language_code: String,
    pub frame_count: u64,
    pub is_vbr: bool,
    pub frame_duration: u64,
    pub cbr_frame_size: Option<u64>,
    pub raw_file_hash: [u8; 32],
    pub vfr_file_hash: Option<[u8; 32]>,
}

/// [`BinstructFile`] with sequences for vectors and strings.
pub ghost struct BinstructModel {
    pub header: Header,
    pub source: SourceModel,
    pub mkv_skeleton: SkeletonModel,
    pub cluster_timestamps: TimestampsModel,
    pub track_policies: Seq<PolicyModel>,
}

/// [`Source`] with sequences for arrays and strings.
pub ghost struct SourceModel {
    pub original_mkv_hash: Seq<u8>,
    pub publisher_info: Seq<char>,
    pub creation_timestamp: u64,
    pub original_language: Seq<char>,
    pub original_default_track_id: u64,
    pub build_tools: Seq<ToolModel>,
}

/// [`ToolEntry`] with sequences for strings.
pub ghost struct ToolModel {
    pub name: Seq<char>,
    pub version: Seq<char>,
}

/// [`MkvSkeleton`] with sequences for vectors.
pub ghost struct SkeletonModel {
    pub pre_tracks_blob: Seq<u8>,
    pub track_entries: Seq<EntryModel>,
    pub post_tracks_blob: Seq<u8>,
}

/// [`TrackEntryRecord`] with a sequence for the vector.
pub ghost struct EntryModel {
    pub track_id: u64,
    pub bytes: Seq<u8>,
}

/// [`ClusterTimestamps`] with a sequence for the vector.
pub ghost struct TimestampsModel {
    pub cluster_count: u64,
    pub deltas: Seq<i64>,
}

/// [`TrackPolicy`] with sequences for arrays and the string.
pub ghost struct PolicyModel {
    pub track_id: u64,
    pub codec_type: CodecType,
    pub language_code: Seq<char>,
    pub frame_count: u64,
    pub is_vbr: bool,
    pub frame_duration: u64,
    pub cbr_frame_size: Option<u64>,
    pub raw_file_hash: Seq<u8>,
    pub vfr_file_hash: Option<Seq<u8>>,
}

impl View for ToolEntry {
    type V = ToolModel;

    open spec fn view(&self) -> ToolModel {
        ToolModel { name: self.name@, version: self.version@ }
    }
}

impl View for TrackEntryRecord {
    type V = EntryModel;

    open spec fn view(&self) -> EntryModel {
        EntryModel { track_id: self.track_id, bytes: self.bytes@ }
    }
}

impl View for ClusterTimestamps {
    type V = TimestampsModel;

    open spec fn view(&self) -> TimestampsModel {
        TimestampsModel { cluster_count: self.cluster_count, deltas: self.deltas@ }
    }
}

pub open spec fn tool_models(s: Seq<ToolEntry>) -> Seq<ToolModel> {
    Seq::new(s.len(), |i: int| s[i]@)
}

pub open spec fn entry_models(s: Seq<TrackEntryRecord>) -> Seq<EntryModel> {
    Seq::new(s.len(), |i: int| s[i]@)
}

pub open spec fn policy_models(s: Seq<TrackPolicy>) -> Seq<PolicyModel> {
    Seq::new(s.len(), |i: int| s[i]@)
}

impl View for Source {
    type V = SourceModel;

    open spec fn view(&self) -> SourceModel {
        SourceModel {
            original_mkv_hash: self.original_mkv_hash@,
            publisher_info: self.publisher_info@,
            creation_timestamp: self.creation_timestamp,
            original_language: self.original_language@,
            original_default_track_id: self.original_default_track_id,
            build_tools: tool_models(self.build_tools@),
        }
    }
}

impl View for MkvSkeleton {
    type V = SkeletonModel;

    open spec fn view(&self) -> SkeletonModel {
        SkeletonModel {
            pre_tracks_blob: self.pre_tracks_blob@,
            track_entries: entry_models(self.track_entries@),
            post_tracks_blob: self.post_tracks_blob@,
        }
    }
}

impl View for TrackPolicy {
    type V = PolicyModel;

    open spec fn view(&self) -> PolicyModel {
        PolicyModel {
            track_id: self.track_id,
            codec_type: self.codec_type,
            language_code: self.language_code@,
            frame_count: self.frame_count,
            is_vbr: self.is_vbr,
            frame_duration: self.frame_duration,
            cbr_frame_size: self.cbr_frame_size,
            raw_file_hash: self.raw_file_hash@,
            vfr_file_hash: match self.vfr_file_hash {
                Some(h) => Some(h@),
                None => None,
            },
        }
    }
}

impl View for BinstructFile {
    type V = BinstructModel;

    open spec fn view(&self) -> BinstructModel {
        BinstructModel {
            header: self.header,
            source: self.source@,
            mkv_skeleton: self.mkv_skeleton@,
            cluster_timestamps: self.cluster_timestamps@,
            track_policies: policy_models(self.track_policies@),
        }
    }
}

pub const ID_BINSTRUCT_FILE: u8 = 0x80;

pub const ID_HEADER: u8 = 0x81;

pub const ID_MAGIC: u8 = 0x82;

pub const ID_VERSION: u8 = 0x83;

pub const ID_CONFIG_FLAGS: u8 = 0x84;

pub const ID_SOURCE: u8 = 0x85;

pub const ID_ORIGINAL_MKV_HASH: u8 = 0x86;

pub const ID_PUBLISHER_INFO: u8 = 0x87;

pub const ID_CREATION_TIMESTAMP: u8 = 0x88;

pub const ID_ORIGINAL_LANGUAGE: u8 = 0x89;

pub const ID_ORIGINAL_DEFAULT_TRACK: u8 = 0x8A;

pub const ID_MKV_SKELETON: u8 = 0x8B;

pub const ID_PRE_TRACKS_BLOB: u8 = 0x8C;

pub const ID_TRACK_ENTRIES: u8 = 0x8D;

pub const ID_TRACK_ENTRY_RECORD: u8 = 0x8E;

pub const ID_TRACK_ENTRY_ID: u8 = 0x8F;

pub const ID_TRACK_ENTRY_BYTES: u8 = 0x90;

pub const ID_POST_TRACKS_BLOB: u8 = 0x91;

pub const ID_CLUSTER_TIMESTAMPS: u8 = 0x92;

pub const ID_CLUSTER_COUNT: u8 = 0x93;

pub const ID_CLUSTER_TIMESTAMP_DELTAS: u8 = 0x94;

pub const ID_TRACK_POLICIES: u8 = 0x95;

pub const ID_TRACK_POLICY: u8 = 0x96;

pub const ID_TRACK_ID: u8 = 0x97;

pub const ID_CODEC_TYPE: u8 = 0x98;

pub const ID_LANGUAGE_CODE: u8 = 0x99;

pub const ID_FRAME_COUNT: u8 = 0x9A;

pub const ID_IS_VBR: u8 = 0x9B;

pub const ID_FRAME_DURATION: u8 = 0x9C;

pub const ID_CBR_FRAME_SIZE: u8 = 0x9D;

pub const ID_RAW_FILE_HASH: u8 = 0x9E;

pub const ID_VFR_FILE_HASH: u8 = 0x9F;

pub const ID_BUILD_TOOLS: u8 = 0xA0;

pub const ID_TOOL_ENTRY: u8 = 0xA1;

pub const ID_TOOL_NAME: u8 = 0xA2;

pub const ID_TOOL_VERSION: u8 = 0xA3;

/// An element: its id, the length of its payload, its payload.
#[verifier::opaque]
pub open spec fn elem_bytes(id: u8, payload: Seq<u8>) -> Seq<u8> {
    seq![id] + vint_bytes(payload.len() as u64, length_size(payload.len() as u64)) + payload
}

/// The head of the element at the start of `data`: id, payload length, bytes after the head.
pub open spec fn elem_head_at(data: Seq<u8>) -> Result<(u8, u64, Seq<u8>), BinstructFault> {
    if data.len() == 0 {
        Err(BinstructFault::Io(end_of_data()))
    } else {
        match vint_at(data.skip(1)) {
            VintRead::Invalid => Err(BinstructFault::Ebml("invalid VINT size byte"@)),
            VintRead::Value(size, n) => Ok((data[0], size, data.skip(1 + n as int))),
            _ => Err(BinstructFault::Io(end_of_data())),
        }
    }
}

/// The element at the start of `data`: id, payload, and the bytes after it.
pub open spec fn elem_at(data: Seq<u8>) -> Result<(u8, Seq<u8>, Seq<u8>), BinstructFault> {
    match elem_head_at(data) {
        Err(e) => Err(e),
        Ok((id, size, rest)) => if rest.len() < size {
            Err(BinstructFault::Io(end_of_data()))
        } else {
            Ok((id, rest.take(size as int), rest.skip(size as int)))
        },
    }
}

/// Folds the elements of `data` into `st`, one after the other; the first error ends it.
pub open spec fn walk<S>(
    data: Seq<u8>,
    st: S,
    f: spec_fn(S, u8, Seq<u8>) -> Result<S, BinstructFault>,
) -> Result<S, BinstructFault>
    decreases data.len(),
{
    if data.len() == 0 {
        Ok(st)
    } else {
        match elem_at(data) {
            Err(e) => Err(e),
            Ok((id, payload, rest)) => match f(st, id, payload) {
                Err(e) => Err(e),
                Ok(next) => if rest.len() < data.len() {
                    walk(rest, next, f)
                } else {
                    Ok(next)
                },
            },
        }
    }
}

/// The greatest magnitude of a signed VINT of `n` bytes, and what is added to store one.
pub open spec fn signed_bias(n: nat) -> int {
    if n == 1 {
        0x3F
    } else if n == 2 {
        0x1FFF
    } else if n == 3 {
        0xF_FFFF
    } else if n == 4 {
        0x7FF_FFFF
    } else if n == 5 {
        0x3_FFFF_FFFF
    } else if n == 6 {
        0x1FF_FFFF_FFFF
    } else if n == 7 {
        0xFFFF_FFFF_FFFF
    } else {
        0x7F_FFFF_FFFF_FFFF
    }
}

/// The least width that holds `value`, at most eight.
pub open spec fn signed_size(value: i64) -> nat {
    let fits = |n: nat| -signed_bias(n) <= value <= signed_bias(n);
    if fits(1) {
        1
    } else if fits(2) {
        2
    } else if fits(3) {
        3
    } else if fits(4) {
        4
    } else if fits(5) {
        5
    } else if fits(6) {
        6
    } else if fits(7) {
        7
    } else {
        8
    }
}

/// The number stored for `value`: the value plus its bias, in 64 bits.
pub open spec fn signed_stored(value: i64) -> u64 {
    let sum = value + signed_bias(signed_size(value));
    if sum < 0 {
        (sum + 0x1_0000_0000_0000_0000) as u64
    } else {
        sum as u64
    }
}

/// The signed VINT for `value`.
pub open spec fn signed_bytes(value: i64) -> Seq<u8> {
    vint_bytes(signed_stored(value), signed_size(value))
}

/// The signed number that a VINT of `n` bytes with number `stored` means.
pub open spec fn signed_value(stored: u64, n: usize) -> i64 {
    (stored - signed_bias(n as nat)) as i64
}

pub open spec fn signed_coder() -> spec_fn(i64) -> Seq<u8> {
    |d: i64| signed_bytes(d)
}

/// The error for a signed VINT that cannot be read.
pub open spec fn signed_fault(r: VintRead) -> BinstructFault {
    match r {
        VintRead::Invalid => BinstructFault::Ebml("invalid signed VINT"@),
        _ => BinstructFault::Io(end_of_data()),
    }
}

/// Reads signed VINTs to the end of `data`, after those in `acc`.
pub open spec fn deltas_from(acc: Seq<i64>, data: Seq<u8>) -> Result<Seq<i64>, BinstructFault>
    decreases data.len(),
{
    if data.len() == 0 {
        Ok(acc)
    } else {
        match vint_at(data) {
            VintRead::Value(stored, n) => if 1 <= n <= data.len() {
                deltas_from(acc.push(signed_value(stored, n)), data.skip(n as int))
            } else {
                Ok(acc)
            },
            bad => Err(signed_fault(bad)),
        }
    }
}

/// The magic of the header element.
pub open spec fn header_magic() -> Seq<u8> {
    seq![0x56u8, 0x46u8, 0x55u8, 0x53u8]
}

pub open spec fn header_bytes(h: Header) -> Seq<u8> {
    elem_bytes(ID_MAGIC, header_magic()) + elem_bytes(ID_VERSION, uint_bytes(h.version))
        + elem_bytes(ID_CONFIG_FLAGS, seq![h.config_flags])
}

pub open spec fn tool_bytes(t: ToolModel) -> Seq<u8> {
    elem_bytes(ID_TOOL_NAME, encode_utf8(t.name)) + elem_bytes(
        ID_TOOL_VERSION,
        encode_utf8(t.version),
    )
}

pub open spec fn tool_coder() -> spec_fn(ToolModel) -> Seq<u8> {
    |t: ToolModel| elem_bytes(ID_TOOL_ENTRY, tool_bytes(t))
}

pub open spec fn source_bytes(s: SourceModel) -> Seq<u8> {
    elem_bytes(ID_ORIGINAL_MKV_HASH, s.original_mkv_hash) + elem_bytes(
        ID_PUBLISHER_INFO,
        encode_utf8(s.publisher_info),
    ) + elem_bytes(ID_CREATION_TIMESTAMP, uint_bytes(s.creation_timestamp)) + elem_bytes(
        ID_ORIGINAL_LANGUAGE,
        encode_utf8(s.original_language),
    ) + elem_bytes(ID_ORIGINAL_DEFAULT_TRACK, uint_bytes(s.original_default_track_id))
        + elem_bytes(ID_BUILD_TOOLS, concat_map(s.build_tools, tool_coder()))
}

pub open spec fn entry_bytes(e: EntryModel) -> Seq<u8> {
    elem_bytes(ID_TRACK_ENTRY_ID, uint_bytes(e.track_id)) + elem_bytes(
        ID_TRACK_ENTRY_BYTES,
        e.bytes,
    )
}

pub open spec fn entry_coder() -> spec_fn(EntryModel) -> Seq<u8> {
    |e: EntryModel| elem_bytes(ID_TRACK_ENTRY_RECORD, entry_bytes(e))
}

pub open spec fn skeleton_bytes(k: SkeletonModel) -> Seq<u8> {
    elem_bytes(ID_PRE_TRACKS_BLOB, k.pre_tracks_blob) + elem_bytes(
        ID_TRACK_ENTRIES,
        concat_map(k.track_entries, entry_coder()),
    ) + elem_bytes(ID_POST_TRACKS_BLOB, k.post_tracks_blob)
}

pub open spec fn timestamps_bytes(t: TimestampsModel) -> Seq<u8> {
    elem_bytes(ID_CLUSTER_COUNT, uint_bytes(t.cluster_count)) + elem_bytes(
        ID_CLUSTER_TIMESTAMP_DELTAS,
        concat_map(t.deltas, signed_coder()),
    )
}

/// The byte that stands for a codec type.
pub open spec fn codec_byte(c: CodecType) -> u8 {
    match c {
        CodecType::Video => 0,
        CodecType::Audio => 1,
    }
}

pub open spec fn bool_byte(b: bool) -> u8 {
    if b {
        1
    } else {
        0
    }
}

/// The element of an optional value: nothing where there is none.
pub open spec fn optional_elem(id: u8, payload: Option<Seq<u8>>) -> Seq<u8> {
    match payload {
        Some(p) => elem_bytes(id, p),
        None => Seq::empty(),
    }
}

pub open spec fn optional_uint(v: Option<u64>) -> Option<Seq<u8>> {
    match v {
        Some(x) => Some(uint_bytes(x)),
        None => None,
    }
}

pub open spec fn policy_bytes(p: PolicyModel) -> Seq<u8> {
    elem_bytes(ID_TRACK_ID, uint_bytes(p.track_id)) + elem_bytes(
        ID_CODEC_TYPE,
        seq![codec_byte(p.codec_type)],
    ) + elem_bytes(ID_LANGUAGE_CODE, encode_utf8(p.language_code)) + elem_bytes(
        ID_FRAME_COUNT,
        uint_bytes(p.frame_count),
    ) + elem_bytes(ID_IS_VBR, seq![bool_byte(p.is_vbr)]) + elem_bytes(
        ID_FRAME_DURATION,
        uint_bytes(p.frame_duration),
    ) + optional_elem(ID_CBR_FRAME_SIZE, optional_uint(p.cbr_frame_size)) + elem_bytes(
        ID_RAW_FILE_HASH,
        p.raw_file_hash,
    ) + optional_elem(ID_VFR_FILE_HASH, p.vfr_file_hash)
}

pub open spec fn policy_coder() -> spec_fn(PolicyModel) -> Seq<u8> {
    |p: PolicyModel| elem_bytes(ID_TRACK_POLICY, policy_bytes(p))
}

/// The children of the outermost element.
pub open spec fn body_bytes(m: BinstructModel) -> Seq<u8> {
    elem_bytes(ID_HEADER, header_bytes(m.header)) + elem_bytes(ID_SOURCE, source_bytes(m.source))
        + elem_bytes(ID_MKV_SKELETON, skeleton_bytes(m.mkv_skeleton)) + elem_bytes(
        ID_CLUSTER_TIMESTAMPS,
        timestamps_bytes(m.cluster_timestamps),
    ) + elem_bytes(ID_TRACK_POLICIES, concat_map(m.track_policies, policy_coder()))
}

/// The EBML form of a binstruct file.
pub open spec fn binstruct_bytes(m: BinstructModel) -> Seq<u8> {
    elem_bytes(ID_BINSTRUCT_FILE, body_bytes(m))
}

/// The text that `payload` encodes, or the error `what`.
pub open spec fn text_of(payload: Seq<u8>, what: Seq<char>) -> Result<Seq<char>, BinstructFault> {
    if valid_utf8(payload) {
        Ok(decode_utf8(payload))
    } else {
        Err(BinstructFault::Ebml(what))
    }
}

/// What has been read of a header.
pub ghost struct HeaderState {
    pub magic: bool,
    pub version: Option<u64>,
    pub config_flags: u8,
}

pub open spec fn header_step() -> spec_fn(HeaderState, u8, Seq<u8>) -> Result<
    HeaderState,
    BinstructFault,
> {
    |st: HeaderState, id: u8, p: Seq<u8>|
        if id == ID_MAGIC {
            if p.len() != 4 {
                Err(BinstructFault::Ebml("Magic must be 4 bytes"@))
            } else if p != header_magic() {
                Err(BinstructFault::InvalidMagic(p))
            } else {
                Ok(HeaderState { magic: true, ..st })
            }
        } else if id == ID_VERSION {
            if uint_value(p) != 1 {
                Err(BinstructFault::UnsupportedVersion(uint_value(p)))
            } else {
                Ok(HeaderState { version: Some(1u64), ..st })
            }
        } else if id == ID_CONFIG_FLAGS {
            if p.len() == 0 {
                Err(BinstructFault::Ebml("ConfigFlags empty"@))
            } else {
                Ok(HeaderState { config_flags: p[0], ..st })
            }
        } else {
            Ok(st)
        }
}

/// What a byte string means as a header.
#[verifier::opaque]
pub open spec fn header_parse(data: Seq<u8>) -> Result<Header, BinstructFault> {
    match walk(data, HeaderState { magic: false, version: None, config_flags: 0 }, header_step()) {
        Err(e) => Err(e),
        Ok(st) => if !st.magic {
            Err(BinstructFault::MissingElement("Magic"@))
        } else {
            match st.version {
                None => Err(BinstructFault::MissingElement("Version"@)),
                Some(version) => Ok(Header { version, config_flags: st.config_flags }),
            }
        },
    }
}

pub open spec fn tool_step() -> spec_fn(ToolModel, u8, Seq<u8>) -> Result<
    ToolModel,
    BinstructFault,
> {
    |st: ToolModel, id: u8, p: Seq<u8>|
        if id == ID_TOOL_NAME {
            match text_of(p, "ToolName not valid UTF-8"@) {
                Ok(name) => Ok(ToolModel { name, ..st }),
                Err(e) => Err(e),
            }
        } else if id == ID_TOOL_VERSION {
            match text_of(p, "ToolVersion not valid UTF-8"@) {
                Ok(version) => Ok(ToolModel { version, ..st }),
                Err(e) => Err(e),
            }
        } else {
            Ok(st)
        }
}

pub open spec fn tool_parse(data: Seq<u8>) -> Result<ToolModel, BinstructFault> {
    walk(data, ToolModel { name: Seq::empty(), version: Seq::empty() }, tool_step())
}

pub open spec fn tools_step() -> spec_fn(Seq<ToolModel>, u8, Seq<u8>) -> Result<
    Seq<ToolModel>,
    BinstructFault,
> {
    |st: Seq<ToolModel>, id: u8, p: Seq<u8>|
        if id == ID_TOOL_ENTRY {
            match tool_parse(p) {
                Ok(t) => Ok(st.push(t)),
                Err(e) => Err(e),
            }
        } else {
            Ok(st)
        }
}

#[verifier::opaque]
pub open spec fn tools_parse(data: Seq<u8>) -> Result<Seq<ToolModel>, BinstructFault> {
    walk(data, Seq::empty(), tools_step())
}

/// What has been read of a source element.
pub ghost struct SourceState {
    pub hash: Option<Seq<u8>>,
    pub rest: SourceModel,
}

pub open spec fn source_step() -> spec_fn(SourceState, u8, Seq<u8>) -> Result<
    SourceState,
    BinstructFault,
> {
    |st: SourceState, id: u8, p: Seq<u8>|
        if id == ID_ORIGINAL_MKV_HASH {
            if p.len() != 32 {
                Err(BinstructFault::Ebml("OriginalMkvHash must be 32 bytes"@))
            } else {
                Ok(SourceState { hash: Some(p), ..st })
            }
        } else if id == ID_PUBLISHER_INFO {
            match text_of(p, "PublisherInfo not valid UTF-8"@) {
                Ok(t) => Ok(
                    SourceState { rest: SourceModel { publisher_info: t, ..st.rest }, ..st },
                ),
                Err(e) => Err(e),
            }
        } else if id == ID_CREATION_TIMESTAMP {
            Ok(
                SourceState {
                    rest: SourceModel { creation_timestamp: uint_value(p), ..st.rest },
                    ..st
                },
            )
        } else if id == ID_ORIGINAL_LANGUAGE {
            match text_of(p, "OriginalLanguage not valid UTF-8"@) {
                Ok(t) => Ok(
                    SourceState { rest: SourceModel { original_language: t, ..st.rest }, ..st },
                ),
                Err(e) => Err(e),
            }
        } else if id == ID_ORIGINAL_DEFAULT_TRACK {
            Ok(
                SourceState {
                    rest: SourceModel { original_default_track_id: uint_value(p), ..st.rest },
                    ..st
                },
            )
        } else if id == ID_BUILD_TOOLS {
            match tools_parse(p) {
                Ok(t) => Ok(SourceState { rest: SourceModel { build_tools: t, ..st.rest }, ..st }),
                Err(e) => Err(e),
            }
        } else {
            Ok(st)
        }
}

pub open spec fn source_start() -> SourceState {
    SourceState {
        hash: None,
        rest: SourceModel {
            original_mkv_hash: Seq::empty(),
            publisher_info: Seq::empty(),
            creation_timestamp: 0,
            original_language: Seq::empty(),
            original_default_track_id: 0,
            build_tools: Seq::empty(),
        },
    }
}

/// What a byte string means as a source element.
#[verifier::opaque]
pub open spec fn source_parse(data: Seq<u8>) -> Result<SourceModel, BinstructFault> {
    match walk(data, source_start(), source_step()) {
        Err(e) => Err(e),
        Ok(st) => match st.hash {
            None => Err(BinstructFault::MissingElement("OriginalMkvHash"@)),
            Some(h) => Ok(SourceModel { original_mkv_hash: h, ..st.rest }),
        },
    }
}

pub open spec fn entry_step() -> spec_fn(EntryModel, u8, Seq<u8>) -> Result<
    EntryModel,
    BinstructFault,
> {
    |st: EntryModel, id: u8, p: Seq<u8>|
        if id == ID_TRACK_ENTRY_ID {
            Ok(EntryModel { track_id: uint_value(p), ..st })
        } else if id == ID_TRACK_ENTRY_BYTES {
            Ok(EntryModel { bytes: p, ..st })
        } else {
            Ok(st)
        }
}

pub open spec fn entry_parse(data: Seq<u8>) -> Result<EntryModel, BinstructFault> {
    walk(data, EntryModel { track_id: 0, bytes: Seq::empty() }, entry_step())
}

pub open spec fn entries_step() -> spec_fn(Seq<EntryModel>, u8, Seq<u8>) -> Result<
    Seq<EntryModel>,
    BinstructFault,
> {
    |st: Seq<EntryModel>, id: u8, p: Seq<u8>|
        if id == ID_TRACK_ENTRY_RECORD {
            match entry_parse(p) {
                Ok(t) => Ok(st.push(t)),
                Err(e) => Err(e),
            }
        } else {
            Ok(st)
        }
}

#[verifier::opaque]
pub open spec fn entries_parse(data: Seq<u8>) -> Result<Seq<EntryModel>, BinstructFault> {
    walk(data, Seq::empty(), entries_step())
}

pub open spec fn skeleton_step() -> spec_fn(SkeletonModel, u8, Seq<u8>) -> Result<
    SkeletonModel,
    BinstructFault,
> {
    |st: SkeletonModel, id: u8, p: Seq<u8>|
        if id == ID_PRE_TRACKS_BLOB {
            Ok(SkeletonModel { pre_tracks_blob: p, ..st })
        } else if id == ID_TRACK_ENTRIES {
            match entries_parse(p) {
                Ok(t) => Ok(SkeletonModel { track_entries: t, ..st }),
                Err(e) => Err(e),
            }
        } else if id == ID_POST_TRACKS_BLOB {
            Ok(SkeletonModel { post_tracks_blob: p, ..st })
        } else {
            Ok(st)
        }
}

pub open spec fn skeleton_start() -> SkeletonModel {
    SkeletonModel {
        pre_tracks_blob: Seq::empty(),
        track_entries: Seq::empty(),
        post_tracks_blob: Seq::empty(),
    }
}

/// What a byte string means as a skeleton element.
#[verifier::opaque]
pub open spec fn skeleton_parse(data: Seq<u8>) -> Result<SkeletonModel, BinstructFault> {
    walk(data, skeleton_start(), skeleton_step())
}

pub open spec fn timestamps_step() -> spec_fn(TimestampsModel, u8, Seq<u8>) -> Result<
    TimestampsModel,
    BinstructFault,
> {
    |st: TimestampsModel, id: u8, p: Seq<u8>|
        if id == ID_CLUSTER_COUNT {
            Ok(TimestampsModel { cluster_count: uint_value(p), ..st })
        } else if id == ID_CLUSTER_TIMESTAMP_DELTAS {
            match deltas_from(st.deltas, p) {
                Ok(deltas) => Ok(TimestampsModel { deltas, ..st }),
                Err(e) => Err(e),
            }
        } else {
            Ok(st)
        }
}

/// What a byte string means as a list of cluster timestamps.
#[verifier::opaque]
pub open spec fn timestamps_parse(data: Seq<u8>) -> Result<TimestampsModel, BinstructFault> {
    walk(data, TimestampsModel { cluster_count: 0, deltas: Seq::empty() }, timestamps_step())
}

/// The first byte of a payload, or zero.
pub open spec fn first_or_zero(p: Seq<u8>) -> u8 {
    if p.len() == 0 {
        0
    } else {
        p[0]
    }
}

pub open spec fn policy_step() -> spec_fn(PolicyModel, u8, Seq<u8>) -> Result<
    PolicyModel,
    BinstructFault,
> {
    |st: PolicyModel, id: u8, p: Seq<u8>|
        if id == ID_TRACK_ID {
            Ok(PolicyModel { track_id: uint_value(p), ..st })
        } else if id == ID_CODEC_TYPE {
            Ok(
                PolicyModel {
                    codec_type: if first_or_zero(p) == 0 {
                        CodecType::Video
                    } else {
                        CodecType::Audio
                    },
                    ..st
                },
            )
        } else if id == ID_LANGUAGE_CODE {
            match text_of(p, "LanguageCode not valid UTF-8"@) {
                Ok(t) => Ok(PolicyModel { language_code: t, ..st }),
                Err(e) => Err(e),
            }
        } else if id == ID_FRAME_COUNT {
            Ok(PolicyModel { frame_count: uint_value(p), ..st })
        } else if id == ID_IS_VBR {
            Ok(PolicyModel { is_vbr: first_or_zero(p) != 0, ..st })
        } else if id == ID_FRAME_DURATION {
            Ok(PolicyModel { frame_duration: uint_value(p), ..st })
        } else if id == ID_CBR_FRAME_SIZE {
            Ok(PolicyModel { cbr_frame_size: Some(uint_value(p)), ..st })
        } else if id == ID_RAW_FILE_HASH {
            if p.len() == 32 {
                Ok(PolicyModel { raw_file_hash: p, ..st })
            } else {
                Ok(st)
            }
        } else if id == ID_VFR_FILE_HASH {
            if p.len() == 32 {
                Ok(PolicyModel { vfr_file_hash: Some(p), ..st })
            } else {
                Ok(st)
            }
        } else {
            Ok(st)
        }
}

pub open spec fn policy_start() -> PolicyModel {
    PolicyModel {
        track_id: 0,
        codec_type: CodecType::Video,
        language_code: Seq::empty(),
        frame_count: 0,
        is_vbr: false,
        frame_duration: 0,
        cbr_frame_size: None,
        raw_file_hash: Seq::new(32, |i: int| 0u8),
        vfr_file_hash: None,
    }
}

/// What a byte string means as a track policy.
#[verifier::opaque]
pub open spec fn policy_parse(data: Seq<u8>) -> Result<PolicyModel, BinstructFault> {
    walk(data, policy_start(), policy_step())
}

pub open spec fn policies_step() -> spec_fn(Seq<PolicyModel>, u8, Seq<u8>) -> Result<
    Seq<PolicyModel>,
    BinstructFault,
> {
    |st: Seq<PolicyModel>, id: u8, p: Seq<u8>|
        if id == ID_TRACK_POLICY {
            match policy_parse(p) {
                Ok(t) => Ok(st.push(t)),
                Err(e) => Err(e),
            }
        } else {
            Ok(st)
        }
}

#[verifier::opaque]
pub open spec fn policies_parse(data: Seq<u8>) -> Result<Seq<PolicyModel>, BinstructFault> {
    walk(data, Seq::empty(), policies_step())
}

/// What has been read of a whole file.
pub ghost struct BodyState {
    pub header: Option<Header>,
    pub source: Option<SourceModel>,
    pub mkv_skeleton: Option<SkeletonModel>,
    pub cluster_timestamps: Option<TimestampsModel>,
    pub track_policies: Seq<PolicyModel>,
}

pub open spec fn body_step() -> spec_fn(BodyState, u8, Seq<u8>) -> Result<
    BodyState,
    BinstructFault,
> {
    |st: BodyState, id: u8, p: Seq<u8>|
        if id == ID_HEADER {
            match header_parse(p) {
                Ok(t) => Ok(BodyState { header: Some(t), ..st }),
                Err(e) => Err(e),
            }
        } else if id == ID_SOURCE {
            match source_parse(p) {
                Ok(t) => Ok(BodyState { source: Some(t), ..st }),
                Err(e) => Err(e),
            }
        } else if id == ID_MKV_SKELETON {
            match skeleton_parse(p) {
                Ok(t) => Ok(BodyState { mkv_skeleton: Some(t), ..st }),
                Err(e) => Err(e),
            }
        } else if id == ID_CLUSTER_TIMESTAMPS {
            match timestamps_parse(p) {
                Ok(t) => Ok(BodyState { cluster_timestamps: Some(t), ..st }),
                Err(e) => Err(e),
            }
        } else if id == ID_TRACK_POLICIES {
            match policies_parse(p) {
                Ok(t) => Ok(BodyState { track_policies: t, ..st }),
                Err(e) => Err(e),
            }
        } else {
            Ok(st)
        }
}

pub open spec fn body_start() -> BodyState {
    BodyState {
        header: None,
        source: None,
        mkv_skeleton: None,
        cluster_timestamps: None,
        track_policies: Seq::empty(),
    }
}

/// The file that the children of the outermost element make, if none is missing.
pub open spec fn body_finish(st: BodyState) -> Result<BinstructModel, BinstructFault> {
    if st.header is None {
        Err(BinstructFault::MissingElement("Header"@))
    } else if st.source is None {
        Err(BinstructFault::MissingElement("Source"@))
    } else if st.mkv_skeleton is None {
        Err(BinstructFault::MissingElement("MkvSkeleton"@))
    } else if st.cluster_timestamps is None {
        Err(BinstructFault::MissingElement("ClusterTimestamps"@))
    } else {
        Ok(
            BinstructModel {
                header: st.header->0,
                source: st.source->0,
                mkv_skeleton: st.mkv_skeleton->0,
                cluster_timestamps: st.cluster_timestamps->0,
                track_policies: st.track_policies,
            },
        )
    }
}

/// What a byte string means as the EBML form of a binstruct file.
pub open spec fn ebml_parse(data: Seq<u8>) -> Result<BinstructModel, BinstructFault> {
    match elem_head_at(data) {
        Err(e) => Err(e),
        Ok((id, size, rest)) => if id != ID_BINSTRUCT_FILE {
            Err(BinstructFault::Ebml("expected BinstructFile element"@))
        } else if rest.len() < size {
            Err(BinstructFault::Io(end_of_data()))
        } else {
            match walk(rest.take(size as int), body_start(), body_step()) {
                Err(e) => Err(e),
                Ok(st) => body_finish(st),
            }
        },
    }
}

/// What a byte string, compressed or not, means as a binstruct file.
pub open spec fn binstruct_parse(data: Seq<u8>) -> Result<BinstructModel, BinstructFault> {
    if is_zstd(data) {
        match zstd_decoded(data) {
            Err(e) => Err(BinstructFault::Zstd(e)),
            Ok(raw) => ebml_parse(raw),
        }
    } else {
        ebml_parse(data)
    }
}

/// What `serialize` gives: the EBML form, compressed where the header asks for it.
pub open spec fn binstruct_file_bytes(m: BinstructModel) -> Result<Seq<u8>, BinstructFault> {
    if m.header.config_flags & 0x01 != 0 {
        match zstd_encoded(binstruct_bytes(m), 9) {
            Err(e) => Err(BinstructFault::Zstd(e)),
            Ok(v) => Ok(v),
        }
    } else {
        Ok(binstruct_bytes(m))
    }
}

} // verus!
