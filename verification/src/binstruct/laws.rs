//! A binstruct file reads back as it was written.
use super::{
    binstruct_bytes, body_bytes, body_start, body_step, deltas_from, ebml_parse, elem_at,
    elem_bytes, elem_head_at, entries_parse, entries_step, entry_bytes, entry_coder, entry_parse,
    entry_step, header_bytes, header_magic, header_parse, header_step, optional_elem,
    optional_uint, policies_parse, policies_step, policy_bytes, policy_coder, policy_parse,
    policy_start, policy_step, signed_bias, signed_bytes, signed_coder, signed_size,
    signed_stored, signed_value, skeleton_bytes, skeleton_parse, skeleton_start, skeleton_step,
    source_bytes, source_parse, source_start, source_step, timestamps_bytes, timestamps_parse,
    timestamps_step, tool_bytes, tool_coder, tool_parse, tool_step, tools_parse, tools_step, walk,
    BinstructFault, BinstructModel, BodyState, EntryModel, Header, HeaderState, PolicyModel,
    SkeletonModel, SourceModel, SourceState, TimestampsModel, ToolModel, ID_BINSTRUCT_FILE,
    ID_BUILD_TOOLS, ID_CBR_FRAME_SIZE, ID_CLUSTER_COUNT, ID_CLUSTER_TIMESTAMPS,
    ID_CLUSTER_TIMESTAMP_DELTAS, ID_CODEC_TYPE, ID_CONFIG_FLAGS, ID_CREATION_TIMESTAMP,
    ID_FRAME_COUNT, ID_FRAME_DURATION, ID_HEADER, ID_IS_VBR, ID_LANGUAGE_CODE, ID_MAGIC,
    ID_MKV_SKELETON, ID_ORIGINAL_DEFAULT_TRACK, ID_ORIGINAL_LANGUAGE, ID_ORIGINAL_MKV_HASH,
    ID_POST_TRACKS_BLOB, ID_PRE_TRACKS_BLOB, ID_PUBLISHER_INFO, ID_RAW_FILE_HASH, ID_SOURCE,
    ID_TOOL_ENTRY, ID_TOOL_NAME, ID_TOOL_VERSION, ID_TRACK_ENTRIES, ID_TRACK_ENTRY_BYTES,
    ID_TRACK_ENTRY_ID, ID_TRACK_ENTRY_RECORD, ID_TRACK_ID, ID_TRACK_POLICIES, ID_TRACK_POLICY,
    ID_VERSION, ID_VFR_FILE_HASH,
};
use crate::bytes::concat_map;
use crate::vint::{
    lemma_pow128_values, lemma_vint_bytes_len, length_size, uint_bytes, uint_round_trip,
    vint_at, vint_bytes, vint_round_trip, VintRead,
};
use vstd::prelude::*;
use vstd::utf8::{
    decode_utf8, encode_utf8, encode_utf8_decode_utf8, encode_utf8_valid_utf8, valid_utf8,
};

verus! {

/// Whether a file can be written so that it reads back: version 1, hashes of 32
/// bytes, deltas of at most 55 bits, and a total length that a VINT can hold.
pub open spec fn storable(m: BinstructModel) -> bool {
    &&& m.header.version == 1
    &&& m.source.original_mkv_hash.len() == 32
    &&& forall|i: int|
        0 <= i < m.cluster_timestamps.deltas.len() ==> -signed_bias(8)
            <= #[trigger] m.cluster_timestamps.deltas[i] <= signed_bias(8)
    &&& forall|i: int|
        0 <= i < m.track_policies.len() ==> policy_storable(#[trigger] m.track_policies[i])
    &&& body_bytes(m).len() < 0x100_0000_0000_0000
}

/// Whether the hashes of a policy have 32 bytes.
pub open spec fn policy_storable(p: PolicyModel) -> bool {
    &&& p.raw_file_hash.len() == 32
    &&& p.vfr_file_hash matches Some(h) ==> h.len() == 32
}

/// An element at the start of a byte string is the first one that a walk meets.
proof fn lemma_walk_elem<S>(
    id: u8,
    payload: Seq<u8>,
    rest: Seq<u8>,
    st: S,
    f: spec_fn(S, u8, Seq<u8>) -> Result<S, BinstructFault>,
)
    requires
        payload.len() < 0x100_0000_0000_0000,
    ensures
        elem_head_at(elem_bytes(id, payload) + rest) == Ok::<(u8, u64, Seq<u8>), BinstructFault>(
            (id, payload.len() as u64, payload + rest),
        ),
        walk(elem_bytes(id, payload) + rest, st, f) == (match f(st, id, payload) {
            Ok(next) => walk(rest, next, f),
            Err(e) => Err(e),
        }),
        elem_bytes(id, payload).len() > payload.len(),
{
    let size = payload.len() as u64;
    let n = length_size(size);
    let head = vint_bytes(size, n);
    let data = elem_bytes(id, payload) + rest;
    reveal(elem_bytes);
    lemma_pow128_values();
    lemma_vint_bytes_len(size, n);
    assert(data.skip(1) =~= head + (payload + rest));
    vint_round_trip(size, n, payload + rest);
    assert(data.skip(1 + n as int) =~= payload + rest);
    assert((payload + rest).take(size as int) =~= payload);
    assert((payload + rest).skip(size as int) =~= rest);
    assert(elem_at(data) == Ok::<(u8, Seq<u8>, Seq<u8>), BinstructFault>((id, payload, rest)));
}

proof fn lemma_walk_end<S>(
    st: S,
    f: spec_fn(S, u8, Seq<u8>) -> Result<S, BinstructFault>,
)
    ensures
        walk(Seq::<u8>::empty(), st, f) == Ok::<S, BinstructFault>(st),
{
}

proof fn lemma_elem_len(id: u8, payload: Seq<u8>)
    ensures
        elem_bytes(id, payload).len() > payload.len(),
{
    reveal(elem_bytes);
    lemma_vint_bytes_len(payload.len() as u64, length_size(payload.len() as u64));
}

/// A file begins with the id of its outermost element.
pub proof fn lemma_first_byte(m: BinstructModel)
    ensures
        binstruct_bytes(m).len() > 0,
        binstruct_bytes(m)[0] == ID_BINSTRUCT_FILE,
{
    reveal(elem_bytes);
}

proof fn lemma_text(s: Seq<char>)
    ensures
        valid_utf8(encode_utf8(s)),
        decode_utf8(encode_utf8(s)) == s,
{
    encode_utf8_valid_utf8(s);
    encode_utf8_decode_utf8(s);
}

proof fn lemma_header(h: Header)
    requires
        h.version == 1,
    ensures
        header_parse(header_bytes(h)) == Ok::<Header, BinstructFault>(h),
{
    reveal(header_parse);
    let f = header_step();
    let s0 = HeaderState { magic: false, version: None, config_flags: 0 };
    let s1 = HeaderState { magic: true, ..s0 };
    let s2 = HeaderState { version: Some(1), ..s1 };
    let s3 = HeaderState { config_flags: h.config_flags, ..s2 };
    let a = elem_bytes(ID_MAGIC, header_magic());
    let b = elem_bytes(ID_VERSION, uint_bytes(h.version));
    let c = elem_bytes(ID_CONFIG_FLAGS, seq![h.config_flags]);
    let nil = Seq::<u8>::empty();
    crate::bytes::lemma_be_bytes_len(h.version as nat, crate::vint::uint_size(h.version));
    uint_round_trip(h.version);
    assert(header_bytes(h) =~= a + (b + (c + nil)));
    lemma_walk_elem(ID_MAGIC, header_magic(), b + (c + nil), s0, f);
    lemma_walk_elem(ID_VERSION, uint_bytes(h.version), c + nil, s1, f);
    lemma_walk_elem(ID_CONFIG_FLAGS, seq![h.config_flags], nil, s2, f);
    lemma_walk_end(s3, f);
}

proof fn lemma_tool(t: ToolModel)
    requires
        tool_bytes(t).len() < 0x100_0000_0000_0000,
    ensures
        tool_parse(tool_bytes(t)) == Ok::<ToolModel, BinstructFault>(t),
{
    let f = tool_step();
    let s0 = ToolModel { name: Seq::empty(), version: Seq::empty() };
    let s1 = ToolModel { name: t.name, ..s0 };
    let b = elem_bytes(ID_TOOL_VERSION, encode_utf8(t.version));
    let nil = Seq::<u8>::empty();
    lemma_text(t.name);
    lemma_text(t.version);
    lemma_elem_len(ID_TOOL_NAME, encode_utf8(t.name));
    lemma_elem_len(ID_TOOL_VERSION, encode_utf8(t.version));
    assert(tool_bytes(t) =~= elem_bytes(ID_TOOL_NAME, encode_utf8(t.name)) + (b + nil));
    lemma_walk_elem(ID_TOOL_NAME, encode_utf8(t.name), b + nil, s0, f);
    lemma_walk_elem(ID_TOOL_VERSION, encode_utf8(t.version), nil, s1, f);
    lemma_walk_end(t, f);
}

proof fn lemma_tools(acc: Seq<ToolModel>, tools: Seq<ToolModel>)
    requires
        concat_map(tools, tool_coder()).len() < 0x100_0000_0000_0000,
    ensures
        walk(concat_map(tools, tool_coder()), acc, tools_step()) == Ok::<
            Seq<ToolModel>,
            BinstructFault,
        >(acc + tools),
    decreases tools.len(),
{
    let f = tools_step();
    if tools.len() == 0 {
        lemma_walk_end(acc, f);
        assert(acc + tools =~= acc);
    } else {
        let rest = concat_map(tools.skip(1), tool_coder());
        lemma_elem_len(ID_TOOL_ENTRY, tool_bytes(tools[0]));
        lemma_tool(tools[0]);
        lemma_walk_elem(ID_TOOL_ENTRY, tool_bytes(tools[0]), rest, acc, f);
        lemma_tools(acc.push(tools[0]), tools.skip(1));
        assert(acc.push(tools[0]) + tools.skip(1) =~= acc + tools);
    }
}

proof fn lemma_source(s: SourceModel)
    requires
        s.original_mkv_hash.len() == 32,
        source_bytes(s).len() < 0x100_0000_0000_0000,
    ensures
        source_parse(source_bytes(s)) == Ok::<SourceModel, BinstructFault>(s),
{
    reveal(source_parse);
    reveal(tools_parse);
    let f = source_step();
    let tools = concat_map(s.build_tools, tool_coder());
    let a = elem_bytes(ID_ORIGINAL_MKV_HASH, s.original_mkv_hash);
    let b = elem_bytes(ID_PUBLISHER_INFO, encode_utf8(s.publisher_info));
    let c = elem_bytes(ID_CREATION_TIMESTAMP, uint_bytes(s.creation_timestamp));
    let d = elem_bytes(ID_ORIGINAL_LANGUAGE, encode_utf8(s.original_language));
    let e = elem_bytes(ID_ORIGINAL_DEFAULT_TRACK, uint_bytes(s.original_default_track_id));
    let g = elem_bytes(ID_BUILD_TOOLS, tools);
    let nil = Seq::<u8>::empty();
    lemma_elem_len(ID_ORIGINAL_MKV_HASH, s.original_mkv_hash);
    lemma_elem_len(ID_PUBLISHER_INFO, encode_utf8(s.publisher_info));
    lemma_elem_len(ID_CREATION_TIMESTAMP, uint_bytes(s.creation_timestamp));
    lemma_elem_len(ID_ORIGINAL_LANGUAGE, encode_utf8(s.original_language));
    lemma_elem_len(ID_ORIGINAL_DEFAULT_TRACK, uint_bytes(s.original_default_track_id));
    lemma_elem_len(ID_BUILD_TOOLS, tools);
    lemma_text(s.publisher_info);
    lemma_text(s.original_language);
    uint_round_trip(s.creation_timestamp);
    uint_round_trip(s.original_default_track_id);
    lemma_tools(Seq::empty(), s.build_tools);
    assert(Seq::<ToolModel>::empty() + s.build_tools =~= s.build_tools);
    let r5 = g + nil;
    let r4 = e + r5;
    let r3 = d + r4;
    let r2 = c + r3;
    let r1 = b + r2;
    assert(source_bytes(s) =~= a + r1);
    let s0 = source_start();
    let s1 = SourceState { hash: Some(s.original_mkv_hash), ..s0 };
    let s2 = SourceState { rest: SourceModel { publisher_info: s.publisher_info, ..s1.rest }, ..s1 };
    let s3 = SourceState {
        rest: SourceModel { creation_timestamp: s.creation_timestamp, ..s2.rest },
        ..s2
    };
    let s4 = SourceState {
        rest: SourceModel { original_language: s.original_language, ..s3.rest },
        ..s3
    };
    let s5 = SourceState {
        rest: SourceModel {
            original_default_track_id: s.original_default_track_id,
            ..s4.rest
        },
        ..s4
    };
    let s6 = SourceState { rest: SourceModel { build_tools: s.build_tools, ..s5.rest }, ..s5 };
    lemma_walk_elem(ID_ORIGINAL_MKV_HASH, s.original_mkv_hash, r1, s0, f);
    lemma_walk_elem(ID_PUBLISHER_INFO, encode_utf8(s.publisher_info), r2, s1, f);
    lemma_walk_elem(ID_CREATION_TIMESTAMP, uint_bytes(s.creation_timestamp), r3, s2, f);
    lemma_walk_elem(ID_ORIGINAL_LANGUAGE, encode_utf8(s.original_language), r4, s3, f);
    lemma_walk_elem(
        ID_ORIGINAL_DEFAULT_TRACK,
        uint_bytes(s.original_default_track_id),
        r5,
        s4,
        f,
    );
    lemma_walk_elem(ID_BUILD_TOOLS, tools, nil, s5, f);
    lemma_walk_end(s6, f);
}

proof fn lemma_entry(t: EntryModel)
    requires
        entry_bytes(t).len() < 0x100_0000_0000_0000,
    ensures
        entry_parse(entry_bytes(t)) == Ok::<EntryModel, BinstructFault>(t),
{
    let f = entry_step();
    let s0 = EntryModel { track_id: 0, bytes: Seq::empty() };
    let s1 = EntryModel { track_id: t.track_id, ..s0 };
    let b = elem_bytes(ID_TRACK_ENTRY_BYTES, t.bytes);
    let nil = Seq::<u8>::empty();
    uint_round_trip(t.track_id);
    lemma_elem_len(ID_TRACK_ENTRY_ID, uint_bytes(t.track_id));
    lemma_elem_len(ID_TRACK_ENTRY_BYTES, t.bytes);
    assert(entry_bytes(t) =~= elem_bytes(ID_TRACK_ENTRY_ID, uint_bytes(t.track_id)) + (b + nil));
    lemma_walk_elem(ID_TRACK_ENTRY_ID, uint_bytes(t.track_id), b + nil, s0, f);
    lemma_walk_elem(ID_TRACK_ENTRY_BYTES, t.bytes, nil, s1, f);
    lemma_walk_end(t, f);
}

proof fn lemma_entries(acc: Seq<EntryModel>, entries: Seq<EntryModel>)
    requires
        concat_map(entries, entry_coder()).len() < 0x100_0000_0000_0000,
    ensures
        walk(concat_map(entries, entry_coder()), acc, entries_step()) == Ok::<
            Seq<EntryModel>,
            BinstructFault,
        >(acc + entries),
    decreases entries.len(),
{
    let f = entries_step();
    if entries.len() == 0 {
        lemma_walk_end(acc, f);
        assert(acc + entries =~= acc);
    } else {
        let rest = concat_map(entries.skip(1), entry_coder());
        lemma_elem_len(ID_TRACK_ENTRY_RECORD, entry_bytes(entries[0]));
        lemma_entry(entries[0]);
        lemma_walk_elem(ID_TRACK_ENTRY_RECORD, entry_bytes(entries[0]), rest, acc, f);
        lemma_entries(acc.push(entries[0]), entries.skip(1));
        assert(acc.push(entries[0]) + entries.skip(1) =~= acc + entries);
    }
}

proof fn lemma_skeleton(k: SkeletonModel)
    requires
        skeleton_bytes(k).len() < 0x100_0000_0000_0000,
    ensures
        skeleton_parse(skeleton_bytes(k)) == Ok::<SkeletonModel, BinstructFault>(k),
{
    reveal(skeleton_parse);
    reveal(entries_parse);
    let f = skeleton_step();
    let entries = concat_map(k.track_entries, entry_coder());
    let s0 = skeleton_start();
    let s1 = SkeletonModel { pre_tracks_blob: k.pre_tracks_blob, ..s0 };
    let s2 = SkeletonModel { track_entries: k.track_entries, ..s1 };
    let b = elem_bytes(ID_TRACK_ENTRIES, entries);
    let c = elem_bytes(ID_POST_TRACKS_BLOB, k.post_tracks_blob);
    let nil = Seq::<u8>::empty();
    lemma_elem_len(ID_PRE_TRACKS_BLOB, k.pre_tracks_blob);
    lemma_elem_len(ID_TRACK_ENTRIES, entries);
    lemma_elem_len(ID_POST_TRACKS_BLOB, k.post_tracks_blob);
    lemma_entries(Seq::empty(), k.track_entries);
    assert(Seq::<EntryModel>::empty() + k.track_entries =~= k.track_entries);
    assert(skeleton_bytes(k) =~= elem_bytes(ID_PRE_TRACKS_BLOB, k.pre_tracks_blob) + (b + (c
        + nil)));
    lemma_walk_elem(ID_PRE_TRACKS_BLOB, k.pre_tracks_blob, b + (c + nil), s0, f);
    lemma_walk_elem(ID_TRACK_ENTRIES, entries, c + nil, s1, f);
    lemma_walk_elem(ID_POST_TRACKS_BLOB, k.post_tracks_blob, nil, s2, f);
    lemma_walk_end(k, f);
}

/// A signed VINT of at most 55 bits reads back as its number, whatever follows.
pub proof fn signed_vint_round_trip(value: i64, rest: Seq<u8>)
    requires
        -signed_bias(8) <= value <= signed_bias(8),
    ensures
        vint_at(signed_bytes(value) + rest) == VintRead::Value(
            signed_stored(value),
            signed_size(value) as usize,
        ),
        signed_value(signed_stored(value), signed_size(value) as usize) == value,
        signed_bytes(value).len() == signed_size(value),
{
    lemma_pow128_values();
    lemma_vint_bytes_len(signed_stored(value), signed_size(value));
    vint_round_trip(signed_stored(value), signed_size(value), rest);
}

proof fn lemma_deltas(acc: Seq<i64>, deltas: Seq<i64>)
    requires
        forall|i: int|
            0 <= i < deltas.len() ==> -signed_bias(8) <= #[trigger] deltas[i] <= signed_bias(8),
    ensures
        deltas_from(acc, concat_map(deltas, signed_coder())) == Ok::<Seq<i64>, BinstructFault>(
            acc + deltas,
        ),
    decreases deltas.len(),
{
    if deltas.len() == 0 {
        assert(acc + deltas =~= acc);
    } else {
        let d = deltas[0];
        let rest = concat_map(deltas.skip(1), signed_coder());
        let data = signed_bytes(d) + rest;
        let n = signed_size(d);
        signed_vint_round_trip(d, rest);
        assert(data.skip(n as int) =~= rest);
        lemma_deltas(acc.push(d), deltas.skip(1));
        assert(acc.push(d) + deltas.skip(1) =~= acc + deltas);
    }
}

proof fn lemma_timestamps(t: TimestampsModel)
    requires
        timestamps_bytes(t).len() < 0x100_0000_0000_0000,
        forall|i: int|
            0 <= i < t.deltas.len() ==> -signed_bias(8) <= #[trigger] t.deltas[i] <= signed_bias(8),
    ensures
        timestamps_parse(timestamps_bytes(t)) == Ok::<TimestampsModel, BinstructFault>(t),
{
    reveal(timestamps_parse);
    let f = timestamps_step();
    let packed = concat_map(t.deltas, signed_coder());
    let s0 = TimestampsModel { cluster_count: 0, deltas: Seq::empty() };
    let s1 = TimestampsModel { cluster_count: t.cluster_count, ..s0 };
    let b = elem_bytes(ID_CLUSTER_TIMESTAMP_DELTAS, packed);
    let nil = Seq::<u8>::empty();
    uint_round_trip(t.cluster_count);
    lemma_elem_len(ID_CLUSTER_COUNT, uint_bytes(t.cluster_count));
    lemma_elem_len(ID_CLUSTER_TIMESTAMP_DELTAS, packed);
    lemma_deltas(Seq::empty(), t.deltas);
    assert(Seq::<i64>::empty() + t.deltas =~= t.deltas);
    assert(timestamps_bytes(t) =~= elem_bytes(ID_CLUSTER_COUNT, uint_bytes(t.cluster_count)) + (b
        + nil));
    lemma_walk_elem(ID_CLUSTER_COUNT, uint_bytes(t.cluster_count), b + nil, s0, f);
    lemma_walk_elem(ID_CLUSTER_TIMESTAMP_DELTAS, packed, nil, s1, f);
    lemma_walk_end(t, f);
}

/// The part of a policy after its frame duration.
spec fn policy_tail(p: PolicyModel) -> Seq<u8> {
    optional_elem(ID_CBR_FRAME_SIZE, optional_uint(p.cbr_frame_size)) + (elem_bytes(
        ID_RAW_FILE_HASH,
        p.raw_file_hash,
    ) + optional_elem(ID_VFR_FILE_HASH, p.vfr_file_hash))
}

proof fn lemma_policy_tail(p: PolicyModel, st: PolicyModel)
    requires
        policy_storable(p),
        policy_tail(p).len() < 0x100_0000_0000_0000,
        st == (PolicyModel {
            cbr_frame_size: None,
            raw_file_hash: st.raw_file_hash,
            vfr_file_hash: None,
            ..p
        }),
    ensures
        walk(policy_tail(p), st, policy_step()) == Ok::<PolicyModel, BinstructFault>(p),
{
    let f = policy_step();
    let nil = Seq::<u8>::empty();
    let s1 = PolicyModel { cbr_frame_size: p.cbr_frame_size, ..st };
    let s2 = PolicyModel { raw_file_hash: p.raw_file_hash, ..s1 };
    let last = optional_elem(ID_VFR_FILE_HASH, p.vfr_file_hash);
    let hash = elem_bytes(ID_RAW_FILE_HASH, p.raw_file_hash);
    lemma_elem_len(ID_RAW_FILE_HASH, p.raw_file_hash);
    if let Some(v) = p.cbr_frame_size {
        uint_round_trip(v);
        lemma_elem_len(ID_CBR_FRAME_SIZE, uint_bytes(v));
        lemma_walk_elem(ID_CBR_FRAME_SIZE, uint_bytes(v), hash + last, st, f);
    } else {
        assert(policy_tail(p) =~= hash + last);
    }
    lemma_walk_elem(ID_RAW_FILE_HASH, p.raw_file_hash, last, s1, f);
    if let Some(h) = p.vfr_file_hash {
        assert(last =~= elem_bytes(ID_VFR_FILE_HASH, h) + nil);
        lemma_walk_elem(ID_VFR_FILE_HASH, h, nil, s2, f);
    }
    lemma_walk_end(p, f);
}

proof fn lemma_policy(p: PolicyModel)
    requires
        policy_storable(p),
        policy_bytes(p).len() < 0x100_0000_0000_0000,
    ensures
        policy_parse(policy_bytes(p)) == Ok::<PolicyModel, BinstructFault>(p),
{
    reveal(policy_parse);
    let f = policy_step();
    let s0 = policy_start();
    let s1 = PolicyModel { track_id: p.track_id, ..s0 };
    let s2 = PolicyModel { codec_type: p.codec_type, ..s1 };
    let s3 = PolicyModel { language_code: p.language_code, ..s2 };
    let s4 = PolicyModel { frame_count: p.frame_count, ..s3 };
    let s5 = PolicyModel { is_vbr: p.is_vbr, ..s4 };
    let s6 = PolicyModel { frame_duration: p.frame_duration, ..s5 };
    let codec = seq![super::codec_byte(p.codec_type)];
    let vbr = seq![super::bool_byte(p.is_vbr)];
    let r6 = policy_tail(p);
    let r5 = elem_bytes(ID_FRAME_DURATION, uint_bytes(p.frame_duration)) + r6;
    let r4 = elem_bytes(ID_IS_VBR, vbr) + r5;
    let r3 = elem_bytes(ID_FRAME_COUNT, uint_bytes(p.frame_count)) + r4;
    let r2 = elem_bytes(ID_LANGUAGE_CODE, encode_utf8(p.language_code)) + r3;
    let r1 = elem_bytes(ID_CODEC_TYPE, codec) + r2;
    assert(policy_bytes(p) =~= elem_bytes(ID_TRACK_ID, uint_bytes(p.track_id)) + r1);
    lemma_text(p.language_code);
    uint_round_trip(p.track_id);
    uint_round_trip(p.frame_count);
    uint_round_trip(p.frame_duration);
    lemma_elem_len(ID_TRACK_ID, uint_bytes(p.track_id));
    lemma_elem_len(ID_LANGUAGE_CODE, encode_utf8(p.language_code));
    lemma_elem_len(ID_FRAME_COUNT, uint_bytes(p.frame_count));
    lemma_elem_len(ID_FRAME_DURATION, uint_bytes(p.frame_duration));
    lemma_walk_elem(ID_TRACK_ID, uint_bytes(p.track_id), r1, s0, f);
    lemma_walk_elem(ID_CODEC_TYPE, codec, r2, s1, f);
    lemma_walk_elem(ID_LANGUAGE_CODE, encode_utf8(p.language_code), r3, s2, f);
    lemma_walk_elem(ID_FRAME_COUNT, uint_bytes(p.frame_count), r4, s3, f);
    lemma_walk_elem(ID_IS_VBR, vbr, r5, s4, f);
    lemma_walk_elem(ID_FRAME_DURATION, uint_bytes(p.frame_duration), r6, s5, f);
    lemma_policy_tail(p, s6);
}

proof fn lemma_policies(acc: Seq<PolicyModel>, policies: Seq<PolicyModel>)
    requires
        concat_map(policies, policy_coder()).len() < 0x100_0000_0000_0000,
        forall|i: int| 0 <= i < policies.len() ==> policy_storable(#[trigger] policies[i]),
    ensures
        walk(concat_map(policies, policy_coder()), acc, policies_step()) == Ok::<
            Seq<PolicyModel>,
            BinstructFault,
        >(acc + policies),
    decreases policies.len(),
{
    let f = policies_step();
    if policies.len() == 0 {
        lemma_walk_end(acc, f);
        assert(acc + policies =~= acc);
    } else {
        let p = policies[0];
        let rest = concat_map(policies.skip(1), policy_coder());
        lemma_elem_len(ID_TRACK_POLICY, policy_bytes(p));
        lemma_policy(p);
        lemma_walk_elem(ID_TRACK_POLICY, policy_bytes(p), rest, acc, f);
        lemma_policies(acc.push(p), policies.skip(1));
        assert(acc.push(p) + policies.skip(1) =~= acc + policies);
    }
}

/// The EBML form of a storable file reads back as the file.
pub proof fn binstruct_round_trip(m: BinstructModel)
    requires
        storable(m),
    ensures
        ebml_parse(binstruct_bytes(m)) == Ok::<BinstructModel, BinstructFault>(m),
{
    reveal(policies_parse);
    let f = body_step();
    let nil = Seq::<u8>::empty();
    let pa = header_bytes(m.header);
    let pb = source_bytes(m.source);
    let pc = skeleton_bytes(m.mkv_skeleton);
    let pd = timestamps_bytes(m.cluster_timestamps);
    let pe = concat_map(m.track_policies, policy_coder());
    lemma_elem_len(ID_HEADER, pa);
    lemma_elem_len(ID_SOURCE, pb);
    lemma_elem_len(ID_MKV_SKELETON, pc);
    lemma_elem_len(ID_CLUSTER_TIMESTAMPS, pd);
    lemma_elem_len(ID_TRACK_POLICIES, pe);
    lemma_header(m.header);
    lemma_source(m.source);
    lemma_skeleton(m.mkv_skeleton);
    lemma_timestamps(m.cluster_timestamps);
    lemma_policies(Seq::empty(), m.track_policies);
    assert(Seq::<PolicyModel>::empty() + m.track_policies =~= m.track_policies);
    let r4 = elem_bytes(ID_TRACK_POLICIES, pe) + nil;
    let r3 = elem_bytes(ID_CLUSTER_TIMESTAMPS, pd) + r4;
    let r2 = elem_bytes(ID_MKV_SKELETON, pc) + r3;
    let r1 = elem_bytes(ID_SOURCE, pb) + r2;
    let body = body_bytes(m);
    assert(body =~= elem_bytes(ID_HEADER, pa) + r1);
    let s0 = body_start();
    let s1 = BodyState { header: Some(m.header), ..s0 };
    let s2 = BodyState { source: Some(m.source), ..s1 };
    let s3 = BodyState { mkv_skeleton: Some(m.mkv_skeleton), ..s2 };
    let s4 = BodyState { cluster_timestamps: Some(m.cluster_timestamps), ..s3 };
    let s5 = BodyState { track_policies: m.track_policies, ..s4 };
    lemma_walk_elem(ID_HEADER, pa, r1, s0, f);
    lemma_walk_elem(ID_SOURCE, pb, r2, s1, f);
    lemma_walk_elem(ID_MKV_SKELETON, pc, r3, s2, f);
    lemma_walk_elem(ID_CLUSTER_TIMESTAMPS, pd, r4, s3, f);
    lemma_walk_elem(ID_TRACK_POLICIES, pe, nil, s4, f);
    lemma_walk_end(s5, f);
    assert(binstruct_bytes(m) =~= elem_bytes(ID_BINSTRUCT_FILE, body) + nil);
    lemma_walk_elem(ID_BINSTRUCT_FILE, body, nil, s0, f);
    assert((body + nil).take(body.len() as int) =~= body);
    assert(body + nil =~= body);
}

} // verus!
