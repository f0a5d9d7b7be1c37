//! Writing and reading binstruct files.
use super::{
    binstruct_bytes, binstruct_file_bytes, binstruct_parse, body_bytes, body_finish, body_start,
    body_step, codec_byte, deltas_from, ebml_parse, elem_at, elem_bytes, elem_head_at,
    entries_parse, entries_step, entry_bytes, entry_coder, entry_models, entry_parse,
    entry_step, header_bytes, header_magic, header_parse, header_step, policies_parse,
    policies_step, policy_bytes, policy_coder, policy_models, policy_parse, policy_start,
    policy_step, signed_bias, signed_bytes, signed_coder, signed_fault, signed_size,
    signed_value, skeleton_bytes, skeleton_parse, skeleton_step, source_bytes, source_parse,
    source_start, source_step, text_of, timestamps_bytes, timestamps_parse, timestamps_step,
    tool_bytes, tool_coder, tool_models, tool_parse, tool_step, tools_parse, tools_step, walk,
    BinstructError, BinstructFault, BinstructFile, BinstructModel, BodyState, ClusterTimestamps,
    CodecType, EntryModel, Header, HeaderState, MkvSkeleton, PolicyModel, SkeletonModel, Source,
    SourceModel, SourceState, TimestampsModel, ToolEntry, ToolModel, TrackEntryRecord,
    TrackPolicy, ID_BINSTRUCT_FILE, ID_BUILD_TOOLS, ID_CBR_FRAME_SIZE, ID_CLUSTER_COUNT,
    ID_CLUSTER_TIMESTAMPS, ID_CLUSTER_TIMESTAMP_DELTAS, ID_CODEC_TYPE, ID_CONFIG_FLAGS,
    ID_CREATION_TIMESTAMP, ID_FRAME_COUNT, ID_FRAME_DURATION, ID_HEADER, ID_IS_VBR,
    ID_LANGUAGE_CODE, ID_MAGIC, ID_MKV_SKELETON, ID_ORIGINAL_DEFAULT_TRACK,
    ID_ORIGINAL_LANGUAGE, ID_ORIGINAL_MKV_HASH, ID_POST_TRACKS_BLOB, ID_PRE_TRACKS_BLOB,
    ID_PUBLISHER_INFO, ID_RAW_FILE_HASH, ID_SOURCE, ID_TOOL_ENTRY, ID_TOOL_NAME,
    ID_TOOL_VERSION, ID_TRACK_ENTRIES, ID_TRACK_ENTRY_BYTES, ID_TRACK_ENTRY_ID,
    ID_TRACK_ENTRY_RECORD, ID_TRACK_ID, ID_TRACK_POLICIES, ID_TRACK_POLICY, ID_VERSION,
    ID_VFR_FILE_HASH,
};
use crate::bytes::{
    append_bytes, bytes_equal, bytes_start_with, concat_map, lemma_concat_map_push, to_array32,
    to_array4, to_vec,
};
use super::laws::{binstruct_round_trip, lemma_first_byte, storable};
use crate::compress::{decode_all, encode_all, is_zstd, zstd_magic};
use crate::text::string_from_utf8;
use crate::vint::{
    decode_uint, decode_vint, encode_uint, lemma_pow128_values, lemma_vint_at_value,
    length_size, push_vint, vint_at, vint_bytes, VintRead,
};
use vstd::prelude::*;

verus! {

impl CodecType {
    /// The byte that stands for this codec type.
    pub fn as_u8(&self) -> (r: u8)
        ensures
            r == codec_byte(*self),
    {
        match self {
            CodecType::Video => 0,
            CodecType::Audio => 1,
        }
    }
}

/// Appends the shortest VINT for a payload length.
pub(crate) fn write_vint_size(w: &mut Vec<u8>, value: u64)
    ensures
        final(w)@ == old(w)@ + vint_bytes(value, length_size(value)),
{
    proof {
        lemma_pow128_values();
    }
    let n: usize = if value <= 0x7F {
        1
    } else if value <= 0x3FFF {
        2
    } else if value <= 0x1F_FFFF {
        3
    } else if value <= 0x0FFF_FFFF {
        4
    } else if value <= 0x07_FFFF_FFFF {
        5
    } else if value <= 0x03FF_FFFF_FFFF {
        6
    } else if value <= 0x01_FFFF_FFFF_FFFF {
        7
    } else {
        8
    };
    push_vint(w, value, n);
}

/// Appends an element: id, payload length, payload.
fn write_element(w: &mut Vec<u8>, id: u8, payload: &[u8])
    ensures
        final(w)@ == old(w)@ + elem_bytes(id, payload@),
{
    w.push(id);
    write_vint_size(w, payload.len() as u64);
    append_bytes(w, payload);
    reveal(elem_bytes);
    assert(w@ =~= old(w)@ + elem_bytes(id, payload@));
}

/// Reads the head of the element at the start of `data`.
fn read_element_header(data: &[u8]) -> (r: Result<(u8, u64, &[u8]), BinstructError>)
    ensures
        match r {
            Ok(t) => elem_head_at(data@) == Ok::<(u8, u64, Seq<u8>), BinstructFault>(
                (t.0, t.1, t.2@),
            ) && t.2@.len() < data@.len(),
            Err(e) => elem_head_at(data@) == Err::<(u8, u64, Seq<u8>), BinstructFault>(e@),
        },
{
    if data.len() == 0 {
        return Err(BinstructError::Io("failed to fill whole buffer"));
    }
    let tail: &[u8] = &data[1..data.len()];
    proof {
        assert(tail@ =~= data@.skip(1));
        lemma_vint_at_value(tail@);
    }
    match decode_vint(tail) {
        VintRead::Invalid => Err(BinstructError::Ebml("invalid VINT size byte")),
        VintRead::Value(size, n) => {
            let rest: &[u8] = &tail[n..tail.len()];
            assert(rest@ =~= data@.skip(1 + n as int));
            Ok((data[0], size, rest))
        },
        _ => Err(BinstructError::Io("failed to fill whole buffer")),
    }
}

/// Reads the element at the start of `data`: id, payload, and the bytes after it.
fn read_element(data: &[u8]) -> (r: Result<(u8, &[u8], &[u8]), BinstructError>)
    ensures
        match r {
            Ok(t) => elem_at(data@) == Ok::<(u8, Seq<u8>, Seq<u8>), BinstructFault>(
                (t.0, t.1@, t.2@),
            ) && t.2@.len() < data@.len(),
            Err(e) => elem_at(data@) == Err::<(u8, Seq<u8>, Seq<u8>), BinstructFault>(e@),
        },
{
    match read_element_header(data) {
        Err(e) => Err(e),
        Ok((id, size, rest)) => {
            if (rest.len() as u64) < size {
                return Err(BinstructError::Io("failed to fill whole buffer"));
            }
            let n: usize = size as usize;
            let payload: &[u8] = &rest[0..n];
            let after: &[u8] = &rest[n..rest.len()];
            assert(payload@ =~= rest@.take(n as int));
            assert(after@ =~= rest@.skip(n as int));
            Ok((id, payload, after))
        },
    }
}

/// The text that `payload` encodes, or the error `what`.
fn read_text(payload: &[u8], what: &'static str) -> (r: Result<String, BinstructError>)
    ensures
        match r {
            Ok(s) => text_of(payload@, what@) == Ok::<Seq<char>, BinstructFault>(s@),
            Err(e) => text_of(payload@, what@) == Err::<Seq<char>, BinstructFault>(e@),
        },
{
    match string_from_utf8(to_vec(payload)) {
        Some(s) => Ok(s),
        None => Err(BinstructError::Ebml(what)),
    }
}

/// The width of the signed VINT for `value`.
pub fn signed_vint_byte_len(value: i64) -> (r: usize)
    ensures
        r == signed_size(value),
        1 <= r <= 8,
{
    if -0x3F <= value && value <= 0x3F {
        1
    } else if -0x1FFF <= value && value <= 0x1FFF {
        2
    } else if -0xF_FFFF <= value && value <= 0xF_FFFF {
        3
    } else if -0x7FF_FFFF <= value && value <= 0x7FF_FFFF {
        4
    } else if -0x3_FFFF_FFFF <= value && value <= 0x3_FFFF_FFFF {
        5
    } else if -0x1FF_FFFF_FFFF <= value && value <= 0x1FF_FFFF_FFFF {
        6
    } else if -0xFFFF_FFFF_FFFF <= value && value <= 0xFFFF_FFFF_FFFF {
        7
    } else {
        8
    }
}

/// What is added to a number to store it in `n` bytes.
fn bias_of(n: usize) -> (r: i64)
    requires
        1 <= n <= 8,
    ensures
        r == signed_bias(n as nat),
{
    match n {
        1 => 0x3F,
        2 => 0x1FFF,
        3 => 0xF_FFFF,
        4 => 0x7FF_FFFF,
        5 => 0x3_FFFF_FFFF,
        6 => 0x1FF_FFFF_FFFF,
        7 => 0xFFFF_FFFF_FFFF,
        _ => 0x7F_FFFF_FFFF_FFFF,
    }
}

/// Appends the signed VINT for `value`.
pub fn write_signed_vint(w: &mut Vec<u8>, value: i64)
    requires
        value + signed_bias(8) <= i64::MAX,
    ensures
        final(w)@ == old(w)@ + signed_bytes(value),
{
    proof {
        lemma_pow128_values();
    }
    let n: usize = signed_vint_byte_len(value);
    let sum: i64 = value + bias_of(n);
    let stored: u64 = if sum < 0 {
        u64::MAX - ((-(sum + 1)) as u64)
    } else {
        sum as u64
    };
    push_vint(w, stored, n);
}

/// Reads the signed VINT at the start of `r` and moves `r` behind it.
pub fn read_signed_vint<'a>(r: &mut &'a [u8]) -> (v: Result<i64, BinstructError>)
    ensures
        match vint_at(old(r)@) {
            VintRead::Value(stored, n) => v == Ok::<i64, BinstructError>(signed_value(stored, n))
                && final(r)@ == old(r)@.skip(n as int),
            bad => v matches Err(e) && e@ == signed_fault(bad),
        },
{
    let data: &'a [u8] = *r;
    proof {
        lemma_vint_at_value(data@);
        lemma_pow128_values();
    }
    match decode_vint(data) {
        VintRead::Value(stored, n) => {
            let rest: &'a [u8] = &data[n..data.len()];
            assert(rest@ =~= data@.skip(n as int));
            *r = rest;
            Ok(stored as i64 - bias_of(n))
        },
        VintRead::Invalid => Err(BinstructError::Ebml("invalid signed VINT")),
        _ => Err(BinstructError::Io("failed to fill whole buffer")),
    }
}

fn encode_header(h: &Header) -> (r: Vec<u8>)
    ensures
        r@ == header_bytes(*h),
{
    let mut out: Vec<u8> = Vec::new();
    let magic: [u8; 4] = [0x56u8, 0x46u8, 0x55u8, 0x53u8];
    let flags: [u8; 1] = [h.config_flags];
    assert(magic@ =~= header_magic());
    assert(flags@ =~= seq![h.config_flags]);
    write_element(&mut out, ID_MAGIC, &magic);
    write_element(&mut out, ID_VERSION, &encode_uint(h.version));
    write_element(&mut out, ID_CONFIG_FLAGS, &flags);
    assert(out@ =~= header_bytes(*h));
    out
}

fn encode_tools(tools: &Vec<ToolEntry>) -> (r: Vec<u8>)
    ensures
        r@ == concat_map(tool_models(tools@), tool_coder()),
{
    let mut out: Vec<u8> = Vec::new();
    let mut i: usize = 0;
    let ghost models = tool_models(tools@);
    proof {
        assert(out@ =~= concat_map(models.take(0), tool_coder()));
    }
    while i < tools.len()
        invariant
            i <= tools@.len(),
            models == tool_models(tools@),
            out@ == concat_map(models.take(i as int), tool_coder()),
        decreases tools@.len() - i,
    {
        let tool: &ToolEntry = &tools[i];
        let mut te: Vec<u8> = Vec::new();
        write_element(&mut te, ID_TOOL_NAME, tool.name.as_str().as_bytes());
        write_element(&mut te, ID_TOOL_VERSION, tool.version.as_str().as_bytes());
        assert(te@ =~= tool_bytes(tool@));
        write_element(&mut out, ID_TOOL_ENTRY, &te);
        proof {
            lemma_concat_map_push(models.take(i as int), models[i as int], tool_coder());
            assert(models.take(i + 1) =~= models.take(i as int).push(models[i as int]));
        }
        i = i + 1;
    }
    assert(models.take(i as int) =~= models);
    out
}

fn encode_source(s: &Source) -> (r: Vec<u8>)
    ensures
        r@ == source_bytes(s@),
{
    let mut out: Vec<u8> = Vec::new();
    write_element(&mut out, ID_ORIGINAL_MKV_HASH, &s.original_mkv_hash);
    write_element(&mut out, ID_PUBLISHER_INFO, s.publisher_info.as_str().as_bytes());
    write_element(&mut out, ID_CREATION_TIMESTAMP, &encode_uint(s.creation_timestamp));
    write_element(&mut out, ID_ORIGINAL_LANGUAGE, s.original_language.as_str().as_bytes());
    write_element(&mut out, ID_ORIGINAL_DEFAULT_TRACK, &encode_uint(s.original_default_track_id));
    write_element(&mut out, ID_BUILD_TOOLS, &encode_tools(&s.build_tools));
    assert(out@ =~= source_bytes(s@));
    out
}

fn encode_entries(entries: &Vec<TrackEntryRecord>) -> (r: Vec<u8>)
    ensures
        r@ == concat_map(entry_models(entries@), entry_coder()),
{
    let mut out: Vec<u8> = Vec::new();
    let mut i: usize = 0;
    let ghost models = entry_models(entries@);
    proof {
        assert(out@ =~= concat_map(models.take(0), entry_coder()));
    }
    while i < entries.len()
        invariant
            i <= entries@.len(),
            models == entry_models(entries@),
            out@ == concat_map(models.take(i as int), entry_coder()),
        decreases entries@.len() - i,
    {
        let entry: &TrackEntryRecord = &entries[i];
        let mut ter: Vec<u8> = Vec::new();
        write_element(&mut ter, ID_TRACK_ENTRY_ID, &encode_uint(entry.track_id));
        write_element(&mut ter, ID_TRACK_ENTRY_BYTES, &entry.bytes);
        assert(ter@ =~= entry_bytes(entry@));
        write_element(&mut out, ID_TRACK_ENTRY_RECORD, &ter);
        proof {
            lemma_concat_map_push(models.take(i as int), models[i as int], entry_coder());
            assert(models.take(i + 1) =~= models.take(i as int).push(models[i as int]));
        }
        i = i + 1;
    }
    assert(models.take(i as int) =~= models);
    out
}

fn encode_skeleton(k: &MkvSkeleton) -> (r: Vec<u8>)
    ensures
        r@ == skeleton_bytes(k@),
{
    let mut out: Vec<u8> = Vec::new();
    write_element(&mut out, ID_PRE_TRACKS_BLOB, &k.pre_tracks_blob);
    write_element(&mut out, ID_TRACK_ENTRIES, &encode_entries(&k.track_entries));
    write_element(&mut out, ID_POST_TRACKS_BLOB, &k.post_tracks_blob);
    assert(out@ =~= skeleton_bytes(k@));
    out
}

/// Whether the sum of each delta and the greatest bias is a 64-bit number.
pub open spec fn deltas_storable(deltas: Seq<i64>) -> bool {
    forall|i: int| 0 <= i < deltas.len() ==> #[trigger] deltas[i] + signed_bias(8) <= i64::MAX
}

/// Whether each of the deltas can be written.
pub fn are_storable(deltas: &[i64]) -> (r: bool)
    ensures
        r == deltas_storable(deltas@),
{
    let mut i: usize = 0;
    while i < deltas.len()
        invariant
            i <= deltas@.len(),
            forall|k: int| 0 <= k < i ==> #[trigger] deltas@[k] + signed_bias(8) <= i64::MAX,
        decreases deltas@.len() - i,
    {
        if deltas[i] > i64::MAX - 0x7F_FFFF_FFFF_FFFFi64 {
            assert(deltas@[i as int] + signed_bias(8) > i64::MAX);
            return false;
        }
        i = i + 1;
    }
    true
}

fn encode_timestamps(t: &ClusterTimestamps) -> (r: Vec<u8>)
    requires
        deltas_storable(t.deltas@),
    ensures
        r@ == timestamps_bytes(t@),
{
    let mut packed: Vec<u8> = Vec::new();
    let mut i: usize = 0;
    proof {
        assert(packed@ =~= concat_map(t.deltas@.take(0), signed_coder()));
    }
    while i < t.deltas.len()
        invariant
            i <= t.deltas@.len(),
            deltas_storable(t.deltas@),
            packed@ == concat_map(t.deltas@.take(i as int), signed_coder()),
        decreases t.deltas@.len() - i,
    {
        write_signed_vint(&mut packed, t.deltas[i]);
        proof {
            let s = t.deltas@;
            lemma_concat_map_push(s.take(i as int), s[i as int], signed_coder());
            assert(s.take(i + 1) =~= s.take(i as int).push(s[i as int]));
        }
        i = i + 1;
    }
    assert(t.deltas@.take(i as int) =~= t.deltas@);
    let mut out: Vec<u8> = Vec::new();
    write_element(&mut out, ID_CLUSTER_COUNT, &encode_uint(t.cluster_count));
    write_element(&mut out, ID_CLUSTER_TIMESTAMP_DELTAS, &packed);
    assert(out@ =~= timestamps_bytes(t@));
    out
}

fn encode_policy(p: &TrackPolicy) -> (r: Vec<u8>)
    ensures
        r@ == policy_bytes(p@),
{
    let mut out: Vec<u8> = Vec::new();
    let codec: [u8; 1] = [p.codec_type.as_u8()];
    let vbr: [u8; 1] = [if p.is_vbr { 1u8 } else { 0u8 }];
    assert(codec@ =~= seq![codec_byte(p.codec_type)]);
    assert(vbr@ =~= seq![super::bool_byte(p.is_vbr)]);
    write_element(&mut out, ID_TRACK_ID, &encode_uint(p.track_id));
    write_element(&mut out, ID_CODEC_TYPE, &codec);
    write_element(&mut out, ID_LANGUAGE_CODE, p.language_code.as_str().as_bytes());
    write_element(&mut out, ID_FRAME_COUNT, &encode_uint(p.frame_count));
    write_element(&mut out, ID_IS_VBR, &vbr);
    write_element(&mut out, ID_FRAME_DURATION, &encode_uint(p.frame_duration));
    if let Some(cbr) = p.cbr_frame_size {
        write_element(&mut out, ID_CBR_FRAME_SIZE, &encode_uint(cbr));
    }
    write_element(&mut out, ID_RAW_FILE_HASH, &p.raw_file_hash);
    if let Some(h) = &p.vfr_file_hash {
        write_element(&mut out, ID_VFR_FILE_HASH, h);
    }
    assert(out@ =~= policy_bytes(p@));
    out
}

fn encode_policies(policies: &Vec<TrackPolicy>) -> (r: Vec<u8>)
    ensures
        r@ == concat_map(policy_models(policies@), policy_coder()),
{
    let mut out: Vec<u8> = Vec::new();
    let mut i: usize = 0;
    let ghost models = policy_models(policies@);
    proof {
        assert(out@ =~= concat_map(models.take(0), policy_coder()));
    }
    while i < policies.len()
        invariant
            i <= policies@.len(),
            models == policy_models(policies@),
            out@ == concat_map(models.take(i as int), policy_coder()),
        decreases policies@.len() - i,
    {
        write_element(&mut out, ID_TRACK_POLICY, &encode_policy(&policies[i]));
        proof {
            lemma_concat_map_push(models.take(i as int), models[i as int], policy_coder());
            assert(models.take(i + 1) =~= models.take(i as int).push(models[i as int]));
        }
        i = i + 1;
    }
    assert(models.take(i as int) =~= models);
    out
}

impl BinstructFile {
    /// The bytes of the file, compressed with zstd where bit 0 of the config flags is set.
    pub fn serialize(&self) -> (r: Result<Vec<u8>, BinstructError>)
        requires
            deltas_storable(self.cluster_timestamps.deltas@),
        ensures
            match r {
                Ok(v) => binstruct_file_bytes(self@) == Ok::<Seq<u8>, BinstructFault>(v@),
                Err(e) => binstruct_file_bytes(self@) == Err::<Seq<u8>, BinstructFault>(e@),
            },
            self.header.config_flags & 0x01 == 0 ==> r is Ok,
            r matches Ok(v) ==> (is_zstd(v@) <==> self.header.config_flags & 0x01 != 0),
            r matches Ok(v) ==> storable(self@) ==> binstruct_parse(v@) == Ok::<
                BinstructModel,
                BinstructFault,
            >(self@),
    {
        let ebml: Vec<u8> = self.encode_ebml()?;
        proof {
            if storable(self@) {
                binstruct_round_trip(self@);
            }
            lemma_first_byte(self@);
            if is_zstd(ebml@) {
                assert(ebml@.take(4)[0] == zstd_magic()[0]);
            }
        }
        if self.header.config_flags & 0x01 != 0 {
            match encode_all(ebml.as_slice(), 9) {
                Ok(v) => Ok(v),
                Err(e) => Err(BinstructError::Zstd(e)),
            }
        } else {
            Ok(ebml)
        }
    }

    /// Reads a file; bytes that begin like a zstd frame are decompressed first.
    pub fn deserialize(bytes: &[u8]) -> (r: Result<Self, BinstructError>)
        ensures
            match r {
                Ok(f) => binstruct_parse(bytes@) == Ok::<BinstructModel, BinstructFault>(f@),
                Err(e) => binstruct_parse(bytes@) == Err::<BinstructModel, BinstructFault>(e@),
            },
    {
        let magic: [u8; 4] = [0x28u8, 0xB5u8, 0x2Fu8, 0xFDu8];
        assert(magic@ =~= zstd_magic());
        if bytes_start_with(bytes, &magic) {
            match decode_all(bytes) {
                Ok(raw) => Self::decode_ebml(&raw),
                Err(e) => Err(BinstructError::Zstd(e)),
            }
        } else {
            Self::decode_ebml(bytes)
        }
    }

    /// The uncompressed bytes of the file.
    pub fn encode_ebml(&self) -> (r: Result<Vec<u8>, BinstructError>)
        requires
            deltas_storable(self.cluster_timestamps.deltas@),
        ensures
            r matches Ok(v) && v@ == binstruct_bytes(self@),
    {
        let mut body: Vec<u8> = Vec::new();
        write_element(&mut body, ID_HEADER, &encode_header(&self.header));
        write_element(&mut body, ID_SOURCE, &encode_source(&self.source));
        write_element(&mut body, ID_MKV_SKELETON, &encode_skeleton(&self.mkv_skeleton));
        write_element(
            &mut body,
            ID_CLUSTER_TIMESTAMPS,
            &encode_timestamps(&self.cluster_timestamps),
        );
        write_element(&mut body, ID_TRACK_POLICIES, &encode_policies(&self.track_policies));
        assert(body@ =~= body_bytes(self@));
        let mut out: Vec<u8> = Vec::new();
        write_element(&mut out, ID_BINSTRUCT_FILE, &body);
        assert(out@ =~= binstruct_bytes(self@));
        Ok(out)
    }

    /// Reads the uncompressed bytes of a file; bytes after it are ignored.
    pub fn decode_ebml(data: &[u8]) -> (r: Result<Self, BinstructError>)
        ensures
            match r {
                Ok(f) => ebml_parse(data@) == Ok::<BinstructModel, BinstructFault>(f@),
                Err(e) => ebml_parse(data@) == Err::<BinstructModel, BinstructFault>(e@),
            },
    {
        let (id, size, after): (u8, u64, &[u8]) = match read_element_header(data) {
            Ok(t) => t,
            Err(e) => return Err(e),
        };
        if id != ID_BINSTRUCT_FILE {
            return Err(BinstructError::Ebml("expected BinstructFile element"));
        }
        if (after.len() as u64) < size {
            return Err(BinstructError::Io("failed to fill whole buffer"));
        }
        let body: &[u8] = &after[0..size as usize];
        assert(body@ =~= after@.take(size as int));

        let mut header: Option<Header> = None;
        let mut source: Option<Source> = None;
        let mut mkv_skeleton: Option<MkvSkeleton> = None;
        let mut cluster_timestamps: Option<ClusterTimestamps> = None;
        let mut track_policies: Vec<TrackPolicy> = Vec::new();
        let mut rest: &[u8] = body;
        proof {
            assert(policy_models(track_policies@) =~= Seq::<PolicyModel>::empty());
        }
        while rest.len() > 0
            invariant
                walk(body@, body_start(), body_step()) == walk(
                    rest@,
                    body_state(
                        header,
                        source,
                        mkv_skeleton,
                        cluster_timestamps,
                        track_policies,
                    ),
                    body_step(),
                ),
                ebml_parse(data@) == (match walk(body@, body_start(), body_step()) {
                    Err(e) => Err::<BinstructModel, BinstructFault>(e),
                    Ok(st) => body_finish(st),
                }),
            decreases rest@.len(),
        {
            let (id, payload, next): (u8, &[u8], &[u8]) = match read_element(rest) {
                Ok(t) => t,
                Err(e) => return Err(e),
            };
            if id == ID_HEADER {
                match decode_header(payload) {
                    Ok(v) => {
                        header = Some(v);
                    },
                    Err(e) => return Err(e),
                }
            } else if id == ID_SOURCE {
                match decode_source(payload) {
                    Ok(v) => {
                        source = Some(v);
                    },
                    Err(e) => return Err(e),
                }
            } else if id == ID_MKV_SKELETON {
                match decode_mkv_skeleton(payload) {
                    Ok(v) => {
                        mkv_skeleton = Some(v);
                    },
                    Err(e) => return Err(e),
                }
            } else if id == ID_CLUSTER_TIMESTAMPS {
                match decode_cluster_timestamps(payload) {
                    Ok(v) => {
                        cluster_timestamps = Some(v);
                    },
                    Err(e) => return Err(e),
                }
            } else if id == ID_TRACK_POLICIES {
                match decode_track_policies(payload) {
                    Ok(v) => {
                        track_policies = v;
                    },
                    Err(e) => return Err(e),
                }
            }
            rest = next;
        }
        let header: Header = match header {
            Some(v) => v,
            None => return Err(BinstructError::MissingElement("Header")),
        };
        let source: Source = match source {
            Some(v) => v,
            None => return Err(BinstructError::MissingElement("Source")),
        };
        let mkv_skeleton: MkvSkeleton = match mkv_skeleton {
            Some(v) => v,
            None => return Err(BinstructError::MissingElement("MkvSkeleton")),
        };
        let cluster_timestamps: ClusterTimestamps = match cluster_timestamps {
            Some(v) => v,
            None => return Err(BinstructError::MissingElement("ClusterTimestamps")),
        };
        Ok(BinstructFile { header, source, mkv_skeleton, cluster_timestamps, track_policies })
    }
}

/// The state that the variables of `decode_ebml` stand for.
spec fn body_state(
    header: Option<Header>,
    source: Option<Source>,
    mkv_skeleton: Option<MkvSkeleton>,
    cluster_timestamps: Option<ClusterTimestamps>,
    track_policies: Vec<TrackPolicy>,
) -> BodyState {
    BodyState {
        header,
        source: match source {
            Some(v) => Some(v@),
            None => None,
        },
        mkv_skeleton: match mkv_skeleton {
            Some(v) => Some(v@),
            None => None,
        },
        cluster_timestamps: match cluster_timestamps {
            Some(v) => Some(v@),
            None => None,
        },
        track_policies: policy_models(track_policies@),
    }
}

fn decode_header(data: &[u8]) -> (r: Result<Header, BinstructError>)
    ensures
        match r {
            Ok(h) => header_parse(data@) == Ok::<Header, BinstructFault>(h),
            Err(e) => header_parse(data@) == Err::<Header, BinstructFault>(e@),
        },
{
    reveal(header_parse);
    let mut magic: bool = false;
    let mut version: Option<u64> = None;
    let mut config_flags: u8 = 0;
    let mut rest: &[u8] = data;
    let ghost start = HeaderState { magic: false, version: None, config_flags: 0 };
    while rest.len() > 0
        invariant
            start == (HeaderState { magic: false, version: None, config_flags: 0 }),
            walk(data@, start, header_step()) == walk(
                rest@,
                HeaderState { magic, version, config_flags },
                header_step(),
            ),
        decreases rest@.len(),
    {
        reveal(header_parse);
        let (id, payload, next): (u8, &[u8], &[u8]) = match read_element(rest) {
            Ok(t) => t,
            Err(e) => return Err(e),
        };
        if id == ID_MAGIC {
            if payload.len() != 4 {
                return Err(BinstructError::Ebml("Magic must be 4 bytes"));
            }
            let m: [u8; 4] = to_array4(payload);
            let expected: [u8; 4] = [0x56u8, 0x46u8, 0x55u8, 0x53u8];
            assert(expected@ =~= header_magic());
            if !bytes_equal(&m, &expected) {
                return Err(BinstructError::InvalidMagic(m));
            }
            magic = true;
        } else if id == ID_VERSION {
            let v: u64 = decode_uint(payload);
            if v != 1 {
                return Err(BinstructError::UnsupportedVersion(v));
            }
            version = Some(v);
        } else if id == ID_CONFIG_FLAGS {
            if payload.len() == 0 {
                return Err(BinstructError::Ebml("ConfigFlags empty"));
            }
            config_flags = payload[0];
        }
        rest = next;
    }
    if !magic {
        return Err(BinstructError::MissingElement("Magic"));
    }
    match version {
        Some(version) => Ok(Header { version, config_flags }),
        None => Err(BinstructError::MissingElement("Version")),
    }
}

fn decode_source(data: &[u8]) -> (r: Result<Source, BinstructError>)
    ensures
        match r {
            Ok(s) => source_parse(data@) == Ok::<SourceModel, BinstructFault>(s@),
            Err(e) => source_parse(data@) == Err::<SourceModel, BinstructFault>(e@),
        },
{
    reveal(source_parse);
    let mut original_mkv_hash: Option<[u8; 32]> = None;
    let mut publisher_info: String = String::new();
    let mut creation_timestamp: u64 = 0;
    let mut original_language: String = String::new();
    let mut original_default_track_id: u64 = 0;
    let mut build_tools: Vec<ToolEntry> = Vec::new();
    let mut rest: &[u8] = data;
    proof {
        assert(tool_models(build_tools@) =~= Seq::<ToolModel>::empty());
    }
    while rest.len() > 0
        invariant
            walk(data@, source_start(), source_step()) == walk(
                rest@,
                SourceState {
                    hash: match original_mkv_hash {
                        Some(h) => Some(h@),
                        None => None,
                    },
                    rest: SourceModel {
                        original_mkv_hash: Seq::empty(),
                        publisher_info: publisher_info@,
                        creation_timestamp,
                        original_language: original_language@,
                        original_default_track_id,
                        build_tools: tool_models(build_tools@),
                    },
                },
                source_step(),
            ),
        decreases rest@.len(),
    {
        reveal(source_parse);
        let (id, payload, next): (u8, &[u8], &[u8]) = match read_element(rest) {
            Ok(t) => t,
            Err(e) => return Err(e),
        };
        if id == ID_ORIGINAL_MKV_HASH {
            if payload.len() != 32 {
                return Err(BinstructError::Ebml("OriginalMkvHash must be 32 bytes"));
            }
            original_mkv_hash = Some(to_array32(payload));
        } else if id == ID_PUBLISHER_INFO {
            match read_text(payload, "PublisherInfo not valid UTF-8") {
                Ok(t) => {
                    publisher_info = t;
                },
                Err(e) => return Err(e),
            }
        } else if id == ID_CREATION_TIMESTAMP {
            creation_timestamp = decode_uint(payload);
        } else if id == ID_ORIGINAL_LANGUAGE {
            match read_text(payload, "OriginalLanguage not valid UTF-8") {
                Ok(t) => {
                    original_language = t;
                },
                Err(e) => return Err(e),
            }
        } else if id == ID_ORIGINAL_DEFAULT_TRACK {
            original_default_track_id = decode_uint(payload);
        } else if id == ID_BUILD_TOOLS {
            match decode_build_tools(payload) {
                Ok(t) => {
                    build_tools = t;
                },
                Err(e) => return Err(e),
            }
        }
        rest = next;
    }
    match original_mkv_hash {
        Some(original_mkv_hash) => Ok(
            Source {
                original_mkv_hash,
                publisher_info,
                creation_timestamp,
                original_language,
                original_default_track_id,
                build_tools,
            },
        ),
        None => Err(BinstructError::MissingElement("OriginalMkvHash")),
    }
}

fn decode_build_tools(data: &[u8]) -> (r: Result<Vec<ToolEntry>, BinstructError>)
    ensures
        match r {
            Ok(v) => tools_parse(data@) == Ok::<Seq<ToolModel>, BinstructFault>(tool_models(v@)),
            Err(e) => tools_parse(data@) == Err::<Seq<ToolModel>, BinstructFault>(e@),
        },
{
    reveal(tools_parse);
    let mut items: Vec<ToolEntry> = Vec::new();
    let mut rest: &[u8] = data;
    proof {
        assert(tool_models(items@) =~= Seq::<ToolModel>::empty());
    }
    while rest.len() > 0
        invariant
            tools_parse(data@) == walk(rest@, tool_models(items@), tools_step()),
        decreases rest@.len(),
    {
        let (id, payload, next): (u8, &[u8], &[u8]) = match read_element(rest) {
            Ok(t) => t,
            Err(e) => return Err(e),
        };
        if id == ID_TOOL_ENTRY {
            match decode_tool_entry(payload) {
                Ok(t) => {
                    proof {
                        assert(tool_models(items@.push(t)) =~= tool_models(items@).push(t@));
                    }
                    items.push(t);
                },
                Err(e) => return Err(e),
            }
        }
        rest = next;
    }
    Ok(items)
}

fn decode_tool_entry(data: &[u8]) -> (r: Result<ToolEntry, BinstructError>)
    ensures
        match r {
            Ok(t) => tool_parse(data@) == Ok::<ToolModel, BinstructFault>(t@),
            Err(e) => tool_parse(data@) == Err::<ToolModel, BinstructFault>(e@),
        },
{
    let mut name: String = String::new();
    let mut version: String = String::new();
    let mut rest: &[u8] = data;
    while rest.len() > 0
        invariant
            tool_parse(data@) == walk(
                rest@,
                ToolModel { name: name@, version: version@ },
                tool_step(),
            ),
        decreases rest@.len(),
    {
        let (id, payload, next): (u8, &[u8], &[u8]) = match read_element(rest) {
            Ok(t) => t,
            Err(e) => return Err(e),
        };
        if id == ID_TOOL_NAME {
            match read_text(payload, "ToolName not valid UTF-8") {
                Ok(t) => {
                    name = t;
                },
                Err(e) => return Err(e),
            }
        } else if id == ID_TOOL_VERSION {
            match read_text(payload, "ToolVersion not valid UTF-8") {
                Ok(t) => {
                    version = t;
                },
                Err(e) => return Err(e),
            }
        }
        rest = next;
    }
    Ok(ToolEntry { name, version })
}

fn decode_mkv_skeleton(data: &[u8]) -> (r: Result<MkvSkeleton, BinstructError>)
    ensures
        match r {
            Ok(k) => skeleton_parse(data@) == Ok::<SkeletonModel, BinstructFault>(k@),
            Err(e) => skeleton_parse(data@) == Err::<SkeletonModel, BinstructFault>(e@),
        },
{
    reveal(skeleton_parse);
    let mut pre_tracks_blob: Vec<u8> = Vec::new();
    let mut track_entries: Vec<TrackEntryRecord> = Vec::new();
    let mut post_tracks_blob: Vec<u8> = Vec::new();
    let mut rest: &[u8] = data;
    proof {
        assert(entry_models(track_entries@) =~= Seq::<EntryModel>::empty());
    }
    while rest.len() > 0
        invariant
            skeleton_parse(data@) == walk(
                rest@,
                SkeletonModel {
                    pre_tracks_blob: pre_tracks_blob@,
                    track_entries: entry_models(track_entries@),
                    post_tracks_blob: post_tracks_blob@,
                },
                skeleton_step(),
            ),
        decreases rest@.len(),
    {
        let (id, payload, next): (u8, &[u8], &[u8]) = match read_element(rest) {
            Ok(t) => t,
            Err(e) => return Err(e),
        };
        if id == ID_PRE_TRACKS_BLOB {
            pre_tracks_blob = to_vec(payload);
        } else if id == ID_TRACK_ENTRIES {
            match decode_track_entries(payload) {
                Ok(t) => {
                    track_entries = t;
                },
                Err(e) => return Err(e),
            }
        } else if id == ID_POST_TRACKS_BLOB {
            post_tracks_blob = to_vec(payload);
        }
        rest = next;
    }
    Ok(MkvSkeleton { pre_tracks_blob, track_entries, post_tracks_blob })
}

fn decode_track_entries(data: &[u8]) -> (r: Result<Vec<TrackEntryRecord>, BinstructError>)
    ensures
        match r {
            Ok(v) => entries_parse(data@) == Ok::<Seq<EntryModel>, BinstructFault>(entry_models(v@)),
            Err(e) => entries_parse(data@) == Err::<Seq<EntryModel>, BinstructFault>(e@),
        },
{
    reveal(entries_parse);
    let mut items: Vec<TrackEntryRecord> = Vec::new();
    let mut rest: &[u8] = data;
    proof {
        assert(entry_models(items@) =~= Seq::<EntryModel>::empty());
    }
    while rest.len() > 0
        invariant
            entries_parse(data@) == walk(rest@, entry_models(items@), entries_step()),
        decreases rest@.len(),
    {
        let (id, payload, next): (u8, &[u8], &[u8]) = match read_element(rest) {
            Ok(t) => t,
            Err(e) => return Err(e),
        };
        if id == ID_TRACK_ENTRY_RECORD {
            match decode_track_entry_record(payload) {
                Ok(t) => {
                    proof {
                        assert(entry_models(items@.push(t)) =~= entry_models(items@).push(t@));
                    }
                    items.push(t);
                },
                Err(e) => return Err(e),
            }
        }
        rest = next;
    }
    Ok(items)
}

fn decode_track_entry_record(data: &[u8]) -> (r: Result<TrackEntryRecord, BinstructError>)
    ensures
        match r {
            Ok(t) => entry_parse(data@) == Ok::<EntryModel, BinstructFault>(t@),
            Err(e) => entry_parse(data@) == Err::<EntryModel, BinstructFault>(e@),
        },
{
    let mut track_id: u64 = 0;
    let mut bytes: Vec<u8> = Vec::new();
    let mut rest: &[u8] = data;
    while rest.len() > 0
        invariant
            entry_parse(data@) == walk(
                rest@,
                EntryModel { track_id, bytes: bytes@ },
                entry_step(),
            ),
        decreases rest@.len(),
    {
        let (id, payload, next): (u8, &[u8], &[u8]) = match read_element(rest) {
            Ok(t) => t,
            Err(e) => return Err(e),
        };
        if id == ID_TRACK_ENTRY_ID {
            track_id = decode_uint(payload);
        } else if id == ID_TRACK_ENTRY_BYTES {
            bytes = to_vec(payload);
        }
        rest = next;
    }
    Ok(TrackEntryRecord { track_id, bytes })
}

fn decode_cluster_timestamps(data: &[u8]) -> (r: Result<ClusterTimestamps, BinstructError>)
    ensures
        match r {
            Ok(t) => timestamps_parse(data@) == Ok::<TimestampsModel, BinstructFault>(t@),
            Err(e) => timestamps_parse(data@) == Err::<TimestampsModel, BinstructFault>(e@),
        },
{
    reveal(timestamps_parse);
    let mut cluster_count: u64 = 0;
    let mut deltas: Vec<i64> = Vec::new();
    let mut rest: &[u8] = data;
    while rest.len() > 0
        invariant
            timestamps_parse(data@) == walk(
                rest@,
                TimestampsModel { cluster_count, deltas: deltas@ },
                timestamps_step(),
            ),
        decreases rest@.len(),
    {
        let (id, payload, next): (u8, &[u8], &[u8]) = match read_element(rest) {
            Ok(t) => t,
            Err(e) => return Err(e),
        };
        if id == ID_CLUSTER_COUNT {
            cluster_count = decode_uint(payload);
        } else if id == ID_CLUSTER_TIMESTAMP_DELTAS {
            let mut packed: &[u8] = payload;
            let ghost all = deltas_from(deltas@, payload@);
            while packed.len() > 0
                invariant
                    all == deltas_from(deltas@, packed@),
                    all is Err ==> timestamps_parse(data@) == Err::<TimestampsModel, BinstructFault>(
                        all->Err_0,
                    ),
                decreases packed@.len(),
            {
                proof {
                    lemma_vint_at_value(packed@);
                }
                match read_signed_vint(&mut packed) {
                    Ok(d) => {
                        deltas.push(d);
                    },
                    Err(e) => return Err(e),
                }
            }
        }
        rest = next;
    }
    Ok(ClusterTimestamps { cluster_count, deltas })
}

fn decode_track_policies(data: &[u8]) -> (r: Result<Vec<TrackPolicy>, BinstructError>)
    ensures
        match r {
            Ok(v) => policies_parse(data@) == Ok::<Seq<PolicyModel>, BinstructFault>(policy_models(v@)),
            Err(e) => policies_parse(data@) == Err::<Seq<PolicyModel>, BinstructFault>(e@),
        },
{
    reveal(policies_parse);
    let mut items: Vec<TrackPolicy> = Vec::new();
    let mut rest: &[u8] = data;
    proof {
        assert(policy_models(items@) =~= Seq::<PolicyModel>::empty());
    }
    while rest.len() > 0
        invariant
            policies_parse(data@) == walk(rest@, policy_models(items@), policies_step()),
        decreases rest@.len(),
    {
        let (id, payload, next): (u8, &[u8], &[u8]) = match read_element(rest) {
            Ok(t) => t,
            Err(e) => return Err(e),
        };
        if id == ID_TRACK_POLICY {
            match decode_track_policy(payload) {
                Ok(t) => {
                    proof {
                        assert(policy_models(items@.push(t)) =~= policy_models(items@).push(t@));
                    }
                    items.push(t);
                },
                Err(e) => return Err(e),
            }
        }
        rest = next;
    }
    Ok(items)
}

fn decode_track_policy(data: &[u8]) -> (r: Result<TrackPolicy, BinstructError>)
    ensures
        match r {
            Ok(t) => policy_parse(data@) == Ok::<PolicyModel, BinstructFault>(t@),
            Err(e) => policy_parse(data@) == Err::<PolicyModel, BinstructFault>(e@),
        },
{
    reveal(policy_parse);
    let mut p = TrackPolicy {
        track_id: 0,
        codec_type: CodecType::Video,
        language_code: String::new(),
        frame_count: 0,
        is_vbr: false,
        frame_duration: 0,
        cbr_frame_size: None,
        raw_file_hash: [0u8; 32],
        vfr_file_hash: None,
    };
    let mut rest: &[u8] = data;
    proof {
        assert(p.raw_file_hash@ =~= policy_start().raw_file_hash);
    }
    while rest.len() > 0
        invariant
            policy_parse(data@) == walk(rest@, p@, policy_step()),
        decreases rest@.len(),
    {
        let (id, payload, next): (u8, &[u8], &[u8]) = match read_element(rest) {
            Ok(t) => t,
            Err(e) => return Err(e),
        };
        if id == ID_TRACK_ID {
            p.track_id = decode_uint(payload);
        } else if id == ID_CODEC_TYPE {
            p.codec_type = if payload.len() == 0 || payload[0] == 0 {
                CodecType::Video
            } else {
                CodecType::Audio
            };
        } else if id == ID_LANGUAGE_CODE {
            match read_text(payload, "LanguageCode not valid UTF-8") {
                Ok(t) => {
                    p.language_code = t;
                },
                Err(e) => return Err(e),
            }
        } else if id == ID_FRAME_COUNT {
            p.frame_count = decode_uint(payload);
        } else if id == ID_IS_VBR {
            p.is_vbr = payload.len() > 0 && payload[0] != 0;
        } else if id == ID_FRAME_DURATION {
            p.frame_duration = decode_uint(payload);
        } else if id == ID_CBR_FRAME_SIZE {
            p.cbr_frame_size = Some(decode_uint(payload));
        } else if id == ID_RAW_FILE_HASH {
            if payload.len() == 32 {
                p.raw_file_hash = to_array32(payload);
            }
        } else if id == ID_VFR_FILE_HASH {
            if payload.len() == 32 {
                p.vfr_file_hash = Some(to_array32(payload));
            }
        }
        rest = next;
    }
    Ok(p)
}

} // verus!
