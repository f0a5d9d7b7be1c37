//! What a reader finds in the written files: each value under its own number.
use crate::binstruct::{
    binstruct_bytes, binstruct_file_bytes, binstruct_parse, body_bytes, body_finish, bool_byte,
    codec_byte, ebml_parse, elem_bytes, entry_bytes, entry_coder, header_bytes, header_step,
    policy_bytes, policy_coder, signed_bytes, signed_coder, signed_size, signed_stored,
    skeleton_bytes, source_bytes, timestamps_bytes, tool_bytes, tool_coder, BinstructFault,
    BinstructModel, BodyState, CodecType, EntryModel, Header, HeaderState, PolicyModel,
    SkeletonModel, SourceModel, TimestampsModel, ToolModel,
};
use crate::bytes::{
    be_bytes, be_round_trip, be_value, concat_map, lemma_be_bytes_len, lemma_pow256_values,
};
use crate::compress::{is_zstd, zstd_decoded, zstd_encoded};
use crate::manifest::{
    elem2_bytes, kind_byte, manifest_body, manifest_bytes, track_bytes, track_coder, variant_bytes,
    variant_coder, ManifestModel, TrackKind, TrackModel, VariantModel,
};
use crate::vint::{
    lemma_pow128_values, lemma_vint_bytes_len, length_size, pow128, uint_bytes, uint_round_trip,
    uint_size, uint_value, vint_at, vint_bytes, vint_round_trip, VintRead,
};
use vstd::prelude::*;
use vstd::utf8::encode_utf8;

verus! {

/// The element at the start of `data` whose number takes `w` bytes: the number, the payload,
/// and what follows.
pub open spec fn next_field(data: Seq<u8>, w: nat) -> Option<(nat, Seq<u8>, Seq<u8>)> {
    if data.len() < w {
        None
    } else {
        match vint_at(data.skip(w as int)) {
            VintRead::Value(size, n) => if w + n + size <= data.len() {
                Some(
                    (
                        be_value(data.take(w as int)),
                        data.subrange(w + n, w + n + size),
                        data.skip(w + n + size),
                    ),
                )
            } else {
                None
            },
            _ => None,
        }
    }
}

/// The payload of the first element with a number.
pub open spec fn field(data: Seq<u8>, w: nat, id: nat) -> Option<Seq<u8>>
    decreases data.len(),
{
    match next_field(data, w) {
        Some((i, payload, rest)) => if i == id {
            Some(payload)
        } else if rest.len() < data.len() {
            field(rest, w, id)
        } else {
            None
        },
        None => None,
    }
}

/// The number that the first element with a number holds.
pub open spec fn number_field(data: Seq<u8>, w: nat, id: nat) -> Option<u64> {
    match field(data, w, id) {
        Some(p) => Some(uint_value(p)),
        None => None,
    }
}

/// The payloads of all elements with a number, as long as others do not come between.
pub open spec fn fields(data: Seq<u8>, w: nat, id: nat) -> Seq<Seq<u8>>
    decreases data.len(),
{
    match next_field(data, w) {
        Some((i, payload, rest)) => if i == id && rest.len() < data.len() {
            seq![payload] + fields(rest, w, id)
        } else {
            Seq::empty()
        },
        None => Seq::empty(),
    }
}

/// An element whose number takes `w` bytes.
spec fn wrote(w: nat, id: nat, payload: Seq<u8>) -> Seq<u8> {
    be_bytes(id, w) + vint_bytes(payload.len() as u64, length_size(payload.len() as u64)) + payload
}

proof fn lemma_next(w: nat, id: nat, payload: Seq<u8>, rest: Seq<u8>)
    requires
        w == 1 && id < 0x100 || w == 2 && id < 0x1_0000,
        payload.len() < 0x100_0000_0000_0000,
    ensures
        next_field(wrote(w, id, payload) + rest, w) == Some((id, payload, rest)),
        wrote(w, id, payload).len() > payload.len(),
{
    let size = payload.len() as u64;
    let n = length_size(size);
    let d = wrote(w, id, payload) + rest;
    lemma_pow128_values();
    lemma_pow256_values();
    lemma_vint_bytes_len(size, n);
    lemma_be_bytes_len(id, w);
    be_round_trip(id, w);
    assert(d.take(w as int) =~= be_bytes(id, w));
    assert(d.skip(w as int) =~= vint_bytes(size, n) + (payload + rest));
    vint_round_trip(size, n, payload + rest);
    assert(d.subrange((w + n) as int, (w + n + size) as int) =~= payload);
    assert(d.skip((w + n + size) as int) =~= rest);
}

/// A number and a payload.
ghost struct Pair {
    id: nat,
    payload: Seq<u8>,
}

/// Elements, one after the other.
spec fn pairs_bytes(w: nat, ps: Seq<Pair>) -> Seq<u8>
    decreases ps.len(),
{
    if ps.len() == 0 {
        Seq::empty()
    } else {
        pairs_bytes(w, ps.drop_last()) + wrote(w, ps.last().id, ps.last().payload)
    }
}

/// The payload of the first pair with a number.
spec fn first_with(ps: Seq<Pair>, id: nat) -> Option<Seq<u8>>
    decreases ps.len(),
{
    if ps.len() == 0 {
        None
    } else {
        match first_with(ps.drop_last(), id) {
            Some(p) => Some(p),
            None => if ps.last().id == id {
                Some(ps.last().payload)
            } else {
                None
            },
        }
    }
}

spec fn pairs_fit(w: nat, ps: Seq<Pair>) -> bool {
    forall|i: int|
        0 <= i < ps.len() ==> (w == 1 && (#[trigger] ps[i]).id < 0x100 || w == 2 && ps[i].id
            < 0x1_0000) && ps[i].payload.len() < 0x100_0000_0000_0000
}

proof fn lemma_push(w: nat, ps: Seq<Pair>, id: nat, payload: Seq<u8>)
    ensures
        pairs_bytes(w, ps.push(Pair { id, payload })) == pairs_bytes(w, ps) + wrote(
            w,
            id,
            payload,
        ),
        forall|x: nat| #[trigger]
            first_with(ps.push(Pair { id, payload }), x) == match first_with(ps, x) {
                Some(p) => Some(p),
                None => if x == id {
                    Some(payload)
                } else {
                    None
                },
            },
{
    let next = ps.push(Pair { id, payload });
    assert(next.drop_last() =~= ps);
}

proof fn lemma_field(w: nat, ps: Seq<Pair>, rest: Seq<u8>, id: nat)
    requires
        pairs_fit(w, ps),
    ensures
        field(pairs_bytes(w, ps) + rest, w, id) == match first_with(ps, id) {
            Some(p) => Some(p),
            None => field(rest, w, id),
        },
    decreases ps.len(),
{
    let d = pairs_bytes(w, ps) + rest;
    if ps.len() == 0 {
        assert(d =~= rest);
    } else {
        let x = ps.last();
        let b = wrote(w, x.id, x.payload);
        assert(pairs_fit(w, ps.drop_last())) by {
            assert forall|i: int| 0 <= i < ps.drop_last().len() implies (w == 1 && (
            #[trigger] ps.drop_last()[i]).id < 0x100 || w == 2 && ps.drop_last()[i].id < 0x1_0000)
                && ps.drop_last()[i].payload.len() < 0x100_0000_0000_0000 by {
                assert(ps.drop_last()[i] == ps[i]);
            }
        }
        assert(ps[ps.len() - 1] == x);
        lemma_next(w, x.id, x.payload, rest);
        lemma_field(w, ps.drop_last(), b + rest, id);
        assert(d =~= pairs_bytes(w, ps.drop_last()) + (b + rest));
    }
}

/// All values of a written list of elements with one number are found.
proof fn lemma_fields<T>(
    w: nat,
    id: nat,
    items: Seq<T>,
    f: spec_fn(T) -> Seq<u8>,
    g: spec_fn(T) -> Seq<u8>,
)
    requires
        w == 1 && id < 0x100 || w == 2 && id < 0x1_0000,
        forall|x: T| #[trigger] f(x) == wrote(w, id, g(x)),
        concat_map(items, f).len() < 0x100_0000_0000_0000,
    ensures
        fields(concat_map(items, f), w, id) == Seq::new(items.len(), |i: int| g(items[i])),
    decreases items.len(),
{
    let all = concat_map(items, f);
    let want = Seq::new(items.len(), |i: int| g(items[i]));
    if items.len() == 0 {
        assert(fields(all, w, id) =~= want);
    } else {
        let rest = concat_map(items.skip(1), f);
        let b = f(items[0]);
        assert(all == b + rest);
        lemma_be_bytes_len(id, w);
        assert(b.len() >= g(items[0]).len());
        lemma_next(w, id, g(items[0]), rest);
        lemma_fields(w, id, items.skip(1), f, g);
        assert(fields(all, w, id) =~= want);
    }
}

proof fn lemma_one_byte(id: u8, payload: Seq<u8>)
    ensures
        elem_bytes(id, payload) == wrote(1, id as nat, payload),
{
    reveal(elem_bytes);
    reveal_with_fuel(be_bytes, 2);
    assert(be_bytes(id as nat, 1) =~= seq![id]);
}

/// The header tells magic, version and flags, under 0x82 to 0x84.
pub proof fn header_values_stand_under_their_numbers(h: Header)
    ensures
        ({
            let d = header_bytes(h);
            &&& field(d, 1, 0x82) == Some(seq![0x56u8, 0x46u8, 0x55u8, 0x53u8])
            &&& number_field(d, 1, 0x83) == Some(h.version)
            &&& field(d, 1, 0x84) == Some(seq![h.config_flags])
        }),
{
    let magic = seq![0x56u8, 0x46u8, 0x55u8, 0x53u8];
    let version = uint_bytes(h.version);
    let flags = seq![h.config_flags];
    lemma_be_bytes_len(h.version as nat, uint_size(h.version));
    uint_round_trip(h.version);
    lemma_one_byte(0x82, magic);
    lemma_one_byte(0x83, version);
    lemma_one_byte(0x84, flags);
    let nil = Seq::<u8>::empty();
    let p0 = Seq::<Pair>::empty();
    let p1 = p0.push(Pair { id: 0x82, payload: magic });
    let p2 = p1.push(Pair { id: 0x83, payload: version });
    let p3 = p2.push(Pair { id: 0x84, payload: flags });
    lemma_push(1, p0, 0x82, magic);
    lemma_push(1, p1, 0x83, version);
    lemma_push(1, p2, 0x84, flags);
    assert(nil + wrote(1, 0x82, magic) =~= wrote(1, 0x82, magic));
    assert(header_bytes(h) == pairs_bytes(1, p3));
    assert(pairs_bytes(1, p3) + nil =~= pairs_bytes(1, p3));
    lemma_field(1, p3, nil, 0x82);
    lemma_field(1, p3, nil, 0x83);
    lemma_field(1, p3, nil, 0x84);
}

/// A tool tells its name under 0xA2 and its version under 0xA3.
pub proof fn tool_values_stand_under_their_numbers(t: ToolModel)
    requires
        tool_bytes(t).len() < 0x100_0000_0000_0000,
    ensures
        field(tool_bytes(t), 1, 0xA2) == Some(encode_utf8(t.name)),
        field(tool_bytes(t), 1, 0xA3) == Some(encode_utf8(t.version)),
{
    let a = encode_utf8(t.name);
    let b = encode_utf8(t.version);
    lemma_one_byte(0xA2, a);
    lemma_one_byte(0xA3, b);
    let nil = Seq::<u8>::empty();
    let p0 = Seq::<Pair>::empty();
    let p1 = p0.push(Pair { id: 0xA2, payload: a });
    let p2 = p1.push(Pair { id: 0xA3, payload: b });
    lemma_push(1, p0, 0xA2, a);
    lemma_push(1, p1, 0xA3, b);
    assert(nil + wrote(1, 0xA2, a) =~= wrote(1, 0xA2, a));
    assert(tool_bytes(t) == pairs_bytes(1, p2));
    assert(pairs_bytes(1, p2) + nil =~= pairs_bytes(1, p2));
    lemma_field(1, p2, nil, 0xA2);
    lemma_field(1, p2, nil, 0xA3);
}

/// The source tells the digest, the publisher, the time, the language, the default track and
/// the tools, under 0x86 to 0x8A and 0xA0.
#[verifier::rlimit(40)]
pub proof fn source_values_stand_under_their_numbers(s: SourceModel)
    requires
        source_bytes(s).len() < 0x100_0000_0000_0000,
    ensures
        ({
            let d = source_bytes(s);
            &&& field(d, 1, 0x86) == Some(s.original_mkv_hash)
            &&& field(d, 1, 0x87) == Some(encode_utf8(s.publisher_info))
            &&& number_field(d, 1, 0x88) == Some(s.creation_timestamp)
            &&& field(d, 1, 0x89) == Some(encode_utf8(s.original_language))
            &&& number_field(d, 1, 0x8A) == Some(s.original_default_track_id)
            &&& field(d, 1, 0xA0) matches Some(tools) && fields(tools, 1, 0xA1) == Seq::new(
                s.build_tools.len(),
                |i: int| tool_bytes(s.build_tools[i]),
            )
        }),
{
    let a = s.original_mkv_hash;
    let b = encode_utf8(s.publisher_info);
    let c = uint_bytes(s.creation_timestamp);
    let e = encode_utf8(s.original_language);
    let f = uint_bytes(s.original_default_track_id);
    let g = concat_map(s.build_tools, tool_coder());
    lemma_be_bytes_len(s.creation_timestamp as nat, uint_size(s.creation_timestamp));
    lemma_be_bytes_len(
        s.original_default_track_id as nat,
        uint_size(s.original_default_track_id),
    );
    uint_round_trip(s.creation_timestamp);
    uint_round_trip(s.original_default_track_id);
    lemma_one_byte(0x86, a);
    lemma_one_byte(0x87, b);
    lemma_one_byte(0x88, c);
    lemma_one_byte(0x89, e);
    lemma_one_byte(0x8A, f);
    lemma_one_byte(0xA0, g);
    let nil = Seq::<u8>::empty();
    let p0 = Seq::<Pair>::empty();
    let p1 = p0.push(Pair { id: 0x86, payload: a });
    let p2 = p1.push(Pair { id: 0x87, payload: b });
    let p3 = p2.push(Pair { id: 0x88, payload: c });
    let p4 = p3.push(Pair { id: 0x89, payload: e });
    let p5 = p4.push(Pair { id: 0x8A, payload: f });
    let p6 = p5.push(Pair { id: 0xA0, payload: g });
    lemma_push(1, p0, 0x86, a);
    lemma_push(1, p1, 0x87, b);
    lemma_push(1, p2, 0x88, c);
    lemma_push(1, p3, 0x89, e);
    lemma_push(1, p4, 0x8A, f);
    lemma_push(1, p5, 0xA0, g);
    assert(nil + wrote(1, 0x86, a) =~= wrote(1, 0x86, a));
    assert(source_bytes(s) == pairs_bytes(1, p6));
    assert(pairs_bytes(1, p6) + nil =~= pairs_bytes(1, p6));
    lemma_field(1, p6, nil, 0x86);
    lemma_field(1, p6, nil, 0x87);
    lemma_field(1, p6, nil, 0x88);
    lemma_field(1, p6, nil, 0x89);
    lemma_field(1, p6, nil, 0x8A);
    lemma_field(1, p6, nil, 0xA0);
    assert forall|t: ToolModel| #[trigger] tool_coder()(t) == wrote(
        1,
        0xA1,
        (|t: ToolModel| tool_bytes(t))(t),
    ) by {
        lemma_one_byte(0xA1, tool_bytes(t));
    }
    lemma_fields(1, 0xA1, s.build_tools, tool_coder(), |t: ToolModel| tool_bytes(t));
    assert(fields(g, 1, 0xA1) =~= Seq::new(
        s.build_tools.len(),
        |i: int| tool_bytes(s.build_tools[i]),
    ));
}

/// A track entry tells its track under 0x8F and its bytes under 0x90; the skeleton what stands
/// before the tracks under 0x8C, the entries under 0x8D, and what stands behind them under
/// 0x91.
pub proof fn skeleton_values_stand_under_their_numbers(k: SkeletonModel, e: EntryModel)
    requires
        skeleton_bytes(k).len() < 0x100_0000_0000_0000,
        entry_bytes(e).len() < 0x100_0000_0000_0000,
    ensures
        number_field(entry_bytes(e), 1, 0x8F) == Some(e.track_id),
        field(entry_bytes(e), 1, 0x90) == Some(e.bytes),
        field(skeleton_bytes(k), 1, 0x8C) == Some(k.pre_tracks_blob),
        field(skeleton_bytes(k), 1, 0x91) == Some(k.post_tracks_blob),
        field(skeleton_bytes(k), 1, 0x8D) matches Some(entries) && fields(entries, 1, 0x8E)
            == Seq::new(k.track_entries.len(), |i: int| entry_bytes(k.track_entries[i])),
{
    let nil = Seq::<u8>::empty();
    let p0 = Seq::<Pair>::empty();
    let a = uint_bytes(e.track_id);
    lemma_be_bytes_len(e.track_id as nat, uint_size(e.track_id));
    uint_round_trip(e.track_id);
    lemma_one_byte(0x8F, a);
    lemma_one_byte(0x90, e.bytes);
    let p1 = p0.push(Pair { id: 0x8F, payload: a });
    let p2 = p1.push(Pair { id: 0x90, payload: e.bytes });
    lemma_push(1, p0, 0x8F, a);
    lemma_push(1, p1, 0x90, e.bytes);
    assert(nil + wrote(1, 0x8F, a) =~= wrote(1, 0x8F, a));
    assert(entry_bytes(e) == pairs_bytes(1, p2));
    assert(pairs_bytes(1, p2) + nil =~= pairs_bytes(1, p2));
    lemma_field(1, p2, nil, 0x8F);
    lemma_field(1, p2, nil, 0x90);
    lemma_skeleton(k);
}

proof fn lemma_skeleton(k: SkeletonModel)
    requires
        skeleton_bytes(k).len() < 0x100_0000_0000_0000,
    ensures
        field(skeleton_bytes(k), 1, 0x8C) == Some(k.pre_tracks_blob),
        field(skeleton_bytes(k), 1, 0x91) == Some(k.post_tracks_blob),
        field(skeleton_bytes(k), 1, 0x8D) matches Some(entries) && fields(entries, 1, 0x8E)
            == Seq::new(k.track_entries.len(), |i: int| entry_bytes(k.track_entries[i])),
{
    let nil = Seq::<u8>::empty();
    let p0 = Seq::<Pair>::empty();
    let a = k.pre_tracks_blob;
    let b = concat_map(k.track_entries, entry_coder());
    let c = k.post_tracks_blob;
    lemma_one_byte(0x8C, a);
    lemma_one_byte(0x8D, b);
    lemma_one_byte(0x91, c);
    let p1 = p0.push(Pair { id: 0x8C, payload: a });
    let p2 = p1.push(Pair { id: 0x8D, payload: b });
    let p3 = p2.push(Pair { id: 0x91, payload: c });
    lemma_push(1, p0, 0x8C, a);
    lemma_push(1, p1, 0x8D, b);
    lemma_push(1, p2, 0x91, c);
    assert(nil + wrote(1, 0x8C, a) =~= wrote(1, 0x8C, a));
    assert(skeleton_bytes(k) == pairs_bytes(1, p3));
    assert(pairs_bytes(1, p3) + nil =~= pairs_bytes(1, p3));
    lemma_field(1, p3, nil, 0x8C);
    lemma_field(1, p3, nil, 0x8D);
    lemma_field(1, p3, nil, 0x91);
    assert forall|e: EntryModel| #[trigger] entry_coder()(e) == wrote(
        1,
        0x8E,
        (|e: EntryModel| entry_bytes(e))(e),
    ) by {
        lemma_one_byte(0x8E, entry_bytes(e));
    }
    lemma_fields(1, 0x8E, k.track_entries, entry_coder(), |e: EntryModel| entry_bytes(e));
    assert(fields(b, 1, 0x8E) =~= Seq::new(
        k.track_entries.len(),
        |i: int| entry_bytes(k.track_entries[i]),
    ));
}

/// The cluster times tell their count under 0x93 and the deltas, one VINT each, under 0x94.
pub proof fn timestamps_stand_under_their_numbers(t: TimestampsModel)
    requires
        timestamps_bytes(t).len() < 0x100_0000_0000_0000,
    ensures
        number_field(timestamps_bytes(t), 1, 0x93) == Some(t.cluster_count),
        field(timestamps_bytes(t), 1, 0x94) == Some(concat_map(t.deltas, signed_coder())),
{
    let nil = Seq::<u8>::empty();
    let p0 = Seq::<Pair>::empty();
    let a = uint_bytes(t.cluster_count);
    let b = concat_map(t.deltas, signed_coder());
    lemma_be_bytes_len(t.cluster_count as nat, uint_size(t.cluster_count));
    uint_round_trip(t.cluster_count);
    lemma_one_byte(0x93, a);
    lemma_one_byte(0x94, b);
    let p1 = p0.push(Pair { id: 0x93, payload: a });
    let p2 = p1.push(Pair { id: 0x94, payload: b });
    lemma_push(1, p0, 0x93, a);
    lemma_push(1, p1, 0x94, b);
    assert(nil + wrote(1, 0x93, a) =~= wrote(1, 0x93, a));
    assert(timestamps_bytes(t) == pairs_bytes(1, p2));
    assert(pairs_bytes(1, p2) + nil =~= pairs_bytes(1, p2));
    lemma_field(1, p2, nil, 0x93);
    lemma_field(1, p2, nil, 0x94);
}

/// A policy tells its track, codec type, language, frame count, kind of frames, duration,
/// frame size, and the digests of its files, under 0x97 to 0x9F: video is 0, audio 1; the
/// frame size and the digest of the index only where there is one.
pub proof fn policy_values_stand_under_their_numbers(p: PolicyModel)
    requires
        policy_bytes(p).len() < 0x100_0000_0000_0000,
    ensures
        ({
            let d = policy_bytes(p);
            &&& number_field(d, 1, 0x97) == Some(p.track_id)
            &&& field(d, 1, 0x98) == Some(
                seq![
                    match p.codec_type {
                        CodecType::Video => 0u8,
                        CodecType::Audio => 1u8,
                    },
                ],
            )
            &&& field(d, 1, 0x99) == Some(encode_utf8(p.language_code))
            &&& number_field(d, 1, 0x9A) == Some(p.frame_count)
            &&& field(d, 1, 0x9B) == Some(
                seq![
                    if p.is_vbr {
                        1u8
                    } else {
                        0u8
                    },
                ],
            )
            &&& number_field(d, 1, 0x9C) == Some(p.frame_duration)
            &&& number_field(d, 1, 0x9D) == p.cbr_frame_size
            &&& field(d, 1, 0x9E) == Some(p.raw_file_hash)
            &&& field(d, 1, 0x9F) == p.vfr_file_hash
        }),
{
    let ps = lemma_policy_pairs(p);
    let nil = Seq::<u8>::empty();
    assert(pairs_bytes(1, ps) + nil =~= pairs_bytes(1, ps));
    assert(field(nil, 1, 0x9D) is None && field(nil, 1, 0x9F) is None);
    lemma_field(1, ps, nil, 0x97);
    lemma_field(1, ps, nil, 0x98);
    lemma_field(1, ps, nil, 0x99);
    lemma_field(1, ps, nil, 0x9A);
    lemma_field(1, ps, nil, 0x9B);
    lemma_field(1, ps, nil, 0x9C);
    lemma_field(1, ps, nil, 0x9D);
    lemma_field(1, ps, nil, 0x9E);
    lemma_field(1, ps, nil, 0x9F);
    uint_round_trip(p.track_id);
    uint_round_trip(p.frame_count);
    uint_round_trip(p.frame_duration);
    if let Some(v) = p.cbr_frame_size {
        uint_round_trip(v);
    }
}

/// The elements of a policy.
#[verifier::rlimit(60)]
proof fn lemma_policy_pairs(p: PolicyModel) -> (ps: Seq<Pair>)
    requires
        policy_bytes(p).len() < 0x100_0000_0000_0000,
    ensures
        policy_bytes(p) == pairs_bytes(1, ps),
        pairs_fit(1, ps),
        first_with(ps, 0x97) == Some(uint_bytes(p.track_id)),
        first_with(ps, 0x98) == Some(seq![codec_byte(p.codec_type)]),
        first_with(ps, 0x99) == Some(encode_utf8(p.language_code)),
        first_with(ps, 0x9A) == Some(uint_bytes(p.frame_count)),
        first_with(ps, 0x9B) == Some(seq![bool_byte(p.is_vbr)]),
        first_with(ps, 0x9C) == Some(uint_bytes(p.frame_duration)),
        first_with(ps, 0x9D) == match p.cbr_frame_size {
            Some(v) => Some(uint_bytes(v)),
            None => None,
        },
        first_with(ps, 0x9E) == Some(p.raw_file_hash),
        first_with(ps, 0x9F) == p.vfr_file_hash,
{
    let a = uint_bytes(p.track_id);
    let b = seq![codec_byte(p.codec_type)];
    let c = encode_utf8(p.language_code);
    let e = uint_bytes(p.frame_count);
    let f = seq![bool_byte(p.is_vbr)];
    let g = uint_bytes(p.frame_duration);
    let size = match p.cbr_frame_size {
        Some(v) => v,
        None => 0,
    };
    let h = uint_bytes(size);
    let i = p.raw_file_hash;
    let j = match p.vfr_file_hash {
        Some(v) => v,
        None => Seq::empty(),
    };
    lemma_be_bytes_len(p.track_id as nat, uint_size(p.track_id));
    lemma_be_bytes_len(p.frame_count as nat, uint_size(p.frame_count));
    lemma_be_bytes_len(p.frame_duration as nat, uint_size(p.frame_duration));
    lemma_be_bytes_len(size as nat, uint_size(size));
    lemma_one_byte(0x97, a);
    lemma_one_byte(0x98, b);
    lemma_one_byte(0x99, c);
    lemma_one_byte(0x9A, e);
    lemma_one_byte(0x9B, f);
    lemma_one_byte(0x9C, g);
    lemma_one_byte(0x9D, h);
    lemma_one_byte(0x9E, i);
    lemma_one_byte(0x9F, j);
    let nil = Seq::<u8>::empty();
    let p0 = Seq::<Pair>::empty();
    let p1 = p0.push(Pair { id: 0x97, payload: a });
    let p2 = p1.push(Pair { id: 0x98, payload: b });
    let p3 = p2.push(Pair { id: 0x99, payload: c });
    let p4 = p3.push(Pair { id: 0x9A, payload: e });
    let p5 = p4.push(Pair { id: 0x9B, payload: f });
    let p6 = p5.push(Pair { id: 0x9C, payload: g });
    let p7 = if p.cbr_frame_size is Some {
        p6.push(Pair { id: 0x9D, payload: h })
    } else {
        p6
    };
    let p8 = p7.push(Pair { id: 0x9E, payload: i });
    let p9 = if p.vfr_file_hash is Some {
        p8.push(Pair { id: 0x9F, payload: j })
    } else {
        p8
    };
    lemma_push(1, p0, 0x97, a);
    lemma_push(1, p1, 0x98, b);
    lemma_push(1, p2, 0x99, c);
    lemma_push(1, p3, 0x9A, e);
    lemma_push(1, p4, 0x9B, f);
    lemma_push(1, p5, 0x9C, g);
    lemma_push(1, p6, 0x9D, h);
    lemma_push(1, p7, 0x9E, i);
    lemma_push(1, p8, 0x9F, j);
    assert(nil + wrote(1, 0x97, a) =~= wrote(1, 0x97, a));
    assert(pairs_bytes(1, p6) + nil =~= pairs_bytes(1, p6));
    assert(pairs_bytes(1, p8) + nil =~= pairs_bytes(1, p8));
    let head = pairs_bytes(1, p6);
    let mid = pairs_bytes(1, p8);
    assert(head == elem_bytes(0x97, a) + elem_bytes(0x98, b) + elem_bytes(0x99, c) + elem_bytes(
        0x9A,
        e,
    ) + elem_bytes(0x9B, f) + elem_bytes(0x9C, g));
    assert(policy_bytes(p) == pairs_bytes(1, p9));
    p9
}

/// A binstruct file is one element, 0x80, which holds header, source, skeleton, cluster times
/// and policies under 0x81, 0x85, 0x8B, 0x92 and 0x95, each policy under 0x96.
#[verifier::rlimit(40)]
pub proof fn binstruct_parts_stand_under_their_numbers(m: BinstructModel)
    requires
        body_bytes(m).len() < 0x100_0000_0000_0000,
    ensures
        field(binstruct_bytes(m), 1, 0x80) matches Some(body) && {
            &&& field(body, 1, 0x81) == Some(header_bytes(m.header))
            &&& field(body, 1, 0x85) == Some(source_bytes(m.source))
            &&& field(body, 1, 0x8B) == Some(skeleton_bytes(m.mkv_skeleton))
            &&& field(body, 1, 0x92) == Some(timestamps_bytes(m.cluster_timestamps))
            &&& field(body, 1, 0x95) matches Some(policies) && fields(policies, 1, 0x96)
                == Seq::new(m.track_policies.len(), |i: int| policy_bytes(m.track_policies[i]))
        },
{
    let a = header_bytes(m.header);
    let b = source_bytes(m.source);
    let c = skeleton_bytes(m.mkv_skeleton);
    let e = timestamps_bytes(m.cluster_timestamps);
    let f = concat_map(m.track_policies, policy_coder());
    let body = body_bytes(m);
    lemma_one_byte(0x81, a);
    lemma_one_byte(0x85, b);
    lemma_one_byte(0x8B, c);
    lemma_one_byte(0x92, e);
    lemma_one_byte(0x95, f);
    lemma_one_byte(0x80, body);
    let nil = Seq::<u8>::empty();
    let p0 = Seq::<Pair>::empty();
    let p1 = p0.push(Pair { id: 0x81, payload: a });
    let p2 = p1.push(Pair { id: 0x85, payload: b });
    let p3 = p2.push(Pair { id: 0x8B, payload: c });
    let p4 = p3.push(Pair { id: 0x92, payload: e });
    let p5 = p4.push(Pair { id: 0x95, payload: f });
    lemma_push(1, p0, 0x81, a);
    lemma_push(1, p1, 0x85, b);
    lemma_push(1, p2, 0x8B, c);
    lemma_push(1, p3, 0x92, e);
    lemma_push(1, p4, 0x95, f);
    assert(nil + wrote(1, 0x81, a) =~= wrote(1, 0x81, a));
    assert(body == pairs_bytes(1, p5));
    assert(pairs_bytes(1, p5) + nil =~= pairs_bytes(1, p5));
    lemma_field(1, p5, nil, 0x81);
    lemma_field(1, p5, nil, 0x85);
    lemma_field(1, p5, nil, 0x8B);
    lemma_field(1, p5, nil, 0x92);
    lemma_field(1, p5, nil, 0x95);
    let o1 = p0.push(Pair { id: 0x80, payload: body });
    lemma_push(1, p0, 0x80, body);
    assert(nil + wrote(1, 0x80, body) =~= wrote(1, 0x80, body));
    assert(pairs_bytes(1, o1) + nil =~= pairs_bytes(1, o1));
    lemma_field(1, o1, nil, 0x80);
    assert forall|p: PolicyModel| #[trigger] policy_coder()(p) == wrote(
        1,
        0x96,
        (|p: PolicyModel| policy_bytes(p))(p),
    ) by {
        lemma_one_byte(0x96, policy_bytes(p));
    }
    lemma_fields(1, 0x96, m.track_policies, policy_coder(), |p: PolicyModel| policy_bytes(p));
    assert(fields(f, 1, 0x96) =~= Seq::new(
        m.track_policies.len(),
        |i: int| policy_bytes(m.track_policies[i]),
    ));
}

/// A signed VINT holds the value plus the half of what its width can count, rounded down; it
/// is the shortest whose halves hold the value.
pub proof fn signed_numbers_are_stored_with_a_bias(value: i64, rest: Seq<u8>)
    requires
        -0x7F_FFFF_FFFF_FFFF <= value <= 0x7F_FFFF_FFFF_FFFF,
    ensures
        vint_at(signed_bytes(value) + rest) matches VintRead::Value(stored, n) && {
            let half = |k: nat| pow128(k) as int / 2 - 1;
            &&& 1 <= n <= 8
            &&& stored == value + half(n as nat)
            &&& -half(n as nat) <= value <= half(n as nat)
            &&& n > 1 ==> !(-half((n - 1) as nat) <= value <= half((n - 1) as nat))
        },
{
    lemma_pow128_values();
    let n = signed_size(value);
    vint_round_trip(signed_stored(value), n, rest);
}

/// The track entry of a manifest tells its values under 0x404A to 0x404F: video is 0, audio
/// 1, subtitles 2; language, variant and resolution only where there is one.
pub proof fn manifest_track_values_stand_under_their_numbers(t: TrackModel)
    requires
        track_bytes(t).len() < 0x100_0000_0000_0000,
    ensures
        ({
            let d = track_bytes(t);
            &&& number_field(d, 2, 0x404A) == Some(t.track_id)
            &&& field(d, 2, 0x404B) == Some(
                seq![
                    match t.kind {
                        TrackKind::Video => 0u8,
                        TrackKind::Audio => 1u8,
                        TrackKind::Subtitle => 2u8,
                    },
                ],
            )
            &&& field(d, 2, 0x404C) == encoded(t.language)
            &&& field(d, 2, 0x404D) == Some(encode_utf8(t.codec))
            &&& field(d, 2, 0x404E) == encoded(t.variant)
            &&& field(d, 2, 0x404F) == encoded(t.resolution)
        }),
{
    let ps = lemma_track_pairs(t);
    let nil = Seq::<u8>::empty();
    assert(pairs_bytes(2, ps) + nil =~= pairs_bytes(2, ps));
    assert(field(nil, 2, 0x404C) is None && field(nil, 2, 0x404E) is None && field(
        nil,
        2,
        0x404F,
    ) is None);
    lemma_field(2, ps, nil, 0x404A);
    lemma_field(2, ps, nil, 0x404B);
    lemma_field(2, ps, nil, 0x404C);
    lemma_field(2, ps, nil, 0x404D);
    lemma_field(2, ps, nil, 0x404E);
    lemma_field(2, ps, nil, 0x404F);
    uint_round_trip(t.track_id);
}

/// The elements of a track entry.
#[verifier::rlimit(60)]
proof fn lemma_track_pairs(t: TrackModel) -> (ps: Seq<Pair>)
    requires
        track_bytes(t).len() < 0x100_0000_0000_0000,
    ensures
        track_bytes(t) == pairs_bytes(2, ps),
        pairs_fit(2, ps),
        first_with(ps, 0x404A) == Some(uint_bytes(t.track_id)),
        first_with(ps, 0x404B) == Some(seq![kind_byte(t.kind)]),
        first_with(ps, 0x404C) == encoded(t.language),
        first_with(ps, 0x404D) == Some(encode_utf8(t.codec)),
        first_with(ps, 0x404E) == encoded(t.variant),
        first_with(ps, 0x404F) == encoded(t.resolution),
{
    let a = uint_bytes(t.track_id);
    let b = seq![kind_byte(t.kind)];
    let c = text_bytes(t.language);
    let e = encode_utf8(t.codec);
    let f = text_bytes(t.variant);
    let g = text_bytes(t.resolution);
    lemma_be_bytes_len(t.track_id as nat, uint_size(t.track_id));
    lemma_two_bytes(0x404A, a);
    lemma_two_bytes(0x404B, b);
    lemma_two_bytes(0x404C, c);
    lemma_two_bytes(0x404D, e);
    lemma_two_bytes(0x404E, f);
    lemma_two_bytes(0x404F, g);
    let nil = Seq::<u8>::empty();
    let p0 = Seq::<Pair>::empty();
    let p1 = p0.push(Pair { id: 0x404A, payload: a });
    let p2 = p1.push(Pair { id: 0x404B, payload: b });
    let p3 = if t.language is Some {
        p2.push(Pair { id: 0x404C, payload: c })
    } else {
        p2
    };
    let p4 = p3.push(Pair { id: 0x404D, payload: e });
    let p5 = if t.variant is Some {
        p4.push(Pair { id: 0x404E, payload: f })
    } else {
        p4
    };
    let p6 = if t.resolution is Some {
        p5.push(Pair { id: 0x404F, payload: g })
    } else {
        p5
    };
    lemma_push(2, p0, 0x404A, a);
    lemma_push(2, p1, 0x404B, b);
    lemma_push(2, p2, 0x404C, c);
    lemma_push(2, p3, 0x404D, e);
    lemma_push(2, p4, 0x404E, f);
    lemma_push(2, p5, 0x404F, g);
    assert(nil + wrote(2, 0x404A, a) =~= wrote(2, 0x404A, a));
    assert(pairs_bytes(2, p2) + nil =~= pairs_bytes(2, p2));
    assert(pairs_bytes(2, p4) + nil =~= pairs_bytes(2, p4));
    assert(pairs_bytes(2, p5) + nil =~= pairs_bytes(2, p5));
    assert(pairs_bytes(2, p2) == elem2_bytes(0x404A, a) + elem2_bytes(0x404B, b));
    assert(track_bytes(t) == pairs_bytes(2, p6));
    p6
}

/// An optional text as it is stored.
pub open spec fn encoded(t: Option<Seq<char>>) -> Option<Seq<u8>> {
    match t {
        Some(s) => Some(encode_utf8(s)),
        None => None,
    }
}

spec fn text_bytes(t: Option<Seq<char>>) -> Seq<u8> {
    match t {
        Some(s) => encode_utf8(s),
        None => Seq::empty(),
    }
}

proof fn lemma_two_bytes(id: u16, payload: Seq<u8>)
    ensures
        elem2_bytes(id, payload) == wrote(2, id as nat, payload),
{
    reveal(elem2_bytes);
}

/// A variant of a manifest tells its id under 0x4052 and its description under 0x4053.
pub proof fn manifest_variant_values_stand_under_their_numbers(v: VariantModel)
    requires
        variant_bytes(v).len() < 0x100_0000_0000_0000,
    ensures
        field(variant_bytes(v), 2, 0x4052) == Some(encode_utf8(v.id)),
        field(variant_bytes(v), 2, 0x4053) == Some(encode_utf8(v.description)),
{
    let a = encode_utf8(v.id);
    let b = encode_utf8(v.description);
    lemma_two_bytes(0x4052, a);
    lemma_two_bytes(0x4053, b);
    let nil = Seq::<u8>::empty();
    let p0 = Seq::<Pair>::empty();
    let p1 = p0.push(Pair { id: 0x4052, payload: a });
    let p2 = p1.push(Pair { id: 0x4053, payload: b });
    lemma_push(2, p0, 0x4052, a);
    lemma_push(2, p1, 0x4053, b);
    assert(nil + wrote(2, 0x4052, a) =~= wrote(2, 0x4052, a));
    assert(variant_bytes(v) == pairs_bytes(2, p2));
    assert(pairs_bytes(2, p2) + nil =~= pairs_bytes(2, p2));
    lemma_field(2, p2, nil, 0x4052);
    lemma_field(2, p2, nil, 0x4053);
}

/// A manifest is one element, 0x4040, which holds title, year, file name, digest, language,
/// version and publisher under 0x4041 to 0x4047, the tracks under 0x4048, each under 0x4049,
/// and the variants under 0x4050, each under 0x4051.
#[verifier::rlimit(40)]
pub proof fn manifest_values_stand_under_their_numbers(m: ManifestModel)
    requires
        manifest_body(m).len() < 0x100_0000_0000_0000,
    ensures
        field(manifest_bytes(m), 2, 0x4040) matches Some(body) && {
            &&& field(body, 2, 0x4041) == Some(encode_utf8(m.title))
            &&& number_field(body, 2, 0x4042) == Some(m.year as u64)
            &&& field(body, 2, 0x4043) == Some(encode_utf8(m.original_mkv_filename))
            &&& field(body, 2, 0x4044) == Some(m.original_mkv_hash)
            &&& field(body, 2, 0x4045) == Some(encode_utf8(m.original_language))
            &&& field(body, 2, 0x4046) == Some(encode_utf8(m.system_version))
            &&& field(body, 2, 0x4047) == Some(encode_utf8(m.publisher))
            &&& (field(body, 2, 0x4048) matches Some(tracks) && fields(tracks, 2, 0x4049)
                == Seq::new(m.tracks.len(), |i: int| track_bytes(m.tracks[i])))
            &&& (field(body, 2, 0x4050) matches Some(variants) && fields(variants, 2, 0x4051)
                == Seq::new(
                m.variants_legend.len(),
                |i: int| variant_bytes(m.variants_legend[i]),
            ))
        },
{
    let a = encode_utf8(m.title);
    let b = uint_bytes(m.year as u64);
    let c = encode_utf8(m.original_mkv_filename);
    let e = m.original_mkv_hash;
    let f = encode_utf8(m.original_language);
    let g = encode_utf8(m.system_version);
    let h = encode_utf8(m.publisher);
    let i = concat_map(m.tracks, track_coder());
    let j = concat_map(m.variants_legend, variant_coder());
    let body = manifest_body(m);
    lemma_be_bytes_len(m.year as nat, uint_size(m.year as u64));
    uint_round_trip(m.year as u64);
    lemma_two_bytes(0x4041, a);
    lemma_two_bytes(0x4042, b);
    lemma_two_bytes(0x4043, c);
    lemma_two_bytes(0x4044, e);
    lemma_two_bytes(0x4045, f);
    lemma_two_bytes(0x4046, g);
    lemma_two_bytes(0x4047, h);
    lemma_two_bytes(0x4048, i);
    lemma_two_bytes(0x4050, j);
    lemma_two_bytes(0x4040, body);
    let nil = Seq::<u8>::empty();
    let p0 = Seq::<Pair>::empty();
    let p1 = p0.push(Pair { id: 0x4041, payload: a });
    let p2 = p1.push(Pair { id: 0x4042, payload: b });
    let p3 = p2.push(Pair { id: 0x4043, payload: c });
    let p4 = p3.push(Pair { id: 0x4044, payload: e });
    let p5 = p4.push(Pair { id: 0x4045, payload: f });
    let p6 = p5.push(Pair { id: 0x4046, payload: g });
    let p7 = p6.push(Pair { id: 0x4047, payload: h });
    let p8 = p7.push(Pair { id: 0x4048, payload: i });
    let p9 = p8.push(Pair { id: 0x4050, payload: j });
    lemma_push(2, p0, 0x4041, a);
    lemma_push(2, p1, 0x4042, b);
    lemma_push(2, p2, 0x4043, c);
    lemma_push(2, p3, 0x4044, e);
    lemma_push(2, p4, 0x4045, f);
    lemma_push(2, p5, 0x4046, g);
    lemma_push(2, p6, 0x4047, h);
    lemma_push(2, p7, 0x4048, i);
    lemma_push(2, p8, 0x4050, j);
    assert(nil + wrote(2, 0x4041, a) =~= wrote(2, 0x4041, a));
    assert(body == pairs_bytes(2, p9));
    assert(pairs_bytes(2, p9) + nil =~= pairs_bytes(2, p9));
    lemma_field(2, p9, nil, 0x4041);
    lemma_field(2, p9, nil, 0x4042);
    lemma_field(2, p9, nil, 0x4043);
    lemma_field(2, p9, nil, 0x4044);
    lemma_field(2, p9, nil, 0x4045);
    lemma_field(2, p9, nil, 0x4046);
    lemma_field(2, p9, nil, 0x4047);
    lemma_field(2, p9, nil, 0x4048);
    lemma_field(2, p9, nil, 0x4050);
    let o1 = p0.push(Pair { id: 0x4040, payload: body });
    lemma_push(2, p0, 0x4040, body);
    assert(nil + wrote(2, 0x4040, body) =~= wrote(2, 0x4040, body));
    assert(pairs_bytes(2, o1) + nil =~= pairs_bytes(2, o1));
    lemma_field(2, o1, nil, 0x4040);
    lemma_manifest_lists(m);
}

proof fn lemma_manifest_lists(m: ManifestModel)
    requires
        concat_map(m.tracks, track_coder()).len() < 0x100_0000_0000_0000,
        concat_map(m.variants_legend, variant_coder()).len() < 0x100_0000_0000_0000,
    ensures
        fields(concat_map(m.tracks, track_coder()), 2, 0x4049) == Seq::new(
            m.tracks.len(),
            |i: int| track_bytes(m.tracks[i]),
        ),
        fields(concat_map(m.variants_legend, variant_coder()), 2, 0x4051) == Seq::new(
            m.variants_legend.len(),
            |i: int| variant_bytes(m.variants_legend[i]),
        ),
{
    assert forall|t: TrackModel| #[trigger] track_coder()(t) == wrote(
        2,
        0x4049,
        (|t: TrackModel| track_bytes(t))(t),
    ) by {
        lemma_two_bytes(0x4049, track_bytes(t));
    }
    lemma_fields(2, 0x4049, m.tracks, track_coder(), |t: TrackModel| track_bytes(t));
    assert(fields(concat_map(m.tracks, track_coder()), 2, 0x4049) =~= Seq::new(
        m.tracks.len(),
        |i: int| track_bytes(m.tracks[i]),
    ));
    assert forall|v: VariantModel| #[trigger] variant_coder()(v) == wrote(
        2,
        0x4051,
        (|v: VariantModel| variant_bytes(v))(v),
    ) by {
        lemma_two_bytes(0x4051, variant_bytes(v));
    }
    lemma_fields(2, 0x4051, m.variants_legend, variant_coder(), |v: VariantModel| variant_bytes(v));
    assert(fields(concat_map(m.variants_legend, variant_coder()), 2, 0x4051) =~= Seq::new(
        m.variants_legend.len(),
        |i: int| variant_bytes(m.variants_legend[i]),
    ));
}

/// Bytes are taken for compressed exactly if they begin with the number of a zstd frame.
pub proof fn compressed_files_begin_with_their_number(bytes: Seq<u8>)
    ensures
        is_zstd(bytes) <==> bytes.len() >= 4 && bytes[0] == 0x28 && bytes[1] == 0xB5 && bytes[2]
            == 0x2F && bytes[3] == 0xFD,
{
    let magic = seq![0x28u8, 0xB5u8, 0x2Fu8, 0xFDu8];
    if bytes.len() >= 4 {
        if bytes[0] == 0x28 && bytes[1] == 0xB5 && bytes[2] == 0x2F && bytes[3] == 0xFD {
            assert(bytes.take(4) =~= magic);
        }
        assert(bytes.take(4)[0] == bytes[0] && bytes.take(4)[1] == bytes[1] && bytes.take(4)[2]
            == bytes[2] && bytes.take(4)[3] == bytes[3]);
    }
}

/// A header is read exactly with the magic `VFUS` and version 1; another magic or version is
/// told. What has another number is left aside.
pub proof fn header_elements_are_checked(st: HeaderState, id: u8, p: Seq<u8>)
    ensures
        ({
            let r = header_step()(st, id, p);
            let magic = seq![0x56u8, 0x46u8, 0x55u8, 0x53u8];
            &&& id == 0x82 && p.len() == 4 && p != magic ==> r == Err::<HeaderState, BinstructFault>(
                BinstructFault::InvalidMagic(p),
            )
            &&& id == 0x82 && p == magic ==> r == Ok::<HeaderState, BinstructFault>(
                HeaderState { magic: true, ..st },
            )
            &&& id == 0x83 && uint_value(p) != 1 ==> r == Err::<HeaderState, BinstructFault>(
                BinstructFault::UnsupportedVersion(uint_value(p)),
            )
            &&& id == 0x83 && uint_value(p) == 1 ==> r == Ok::<HeaderState, BinstructFault>(
                HeaderState { version: Some(1u64), ..st },
            )
            &&& id == 0x84 && p.len() > 0 ==> r == Ok::<HeaderState, BinstructFault>(
                HeaderState { config_flags: p[0], ..st },
            )
            &&& id < 0x82 || id > 0x84 ==> r == Ok::<HeaderState, BinstructFault>(st)
        }),
{
}

/// A file is stored as it is, or compressed at level 9 where the lowest flag asks for it; what
/// begins like compressed bytes is decompressed before it is read.
pub proof fn lowest_flag_asks_for_compression(m: BinstructModel, bytes: Seq<u8>)
    ensures
        m.header.config_flags % 2 == 0 ==> binstruct_file_bytes(m) == Ok::<
            Seq<u8>,
            BinstructFault,
        >(binstruct_bytes(m)),
        m.header.config_flags % 2 == 1 ==> binstruct_file_bytes(m) == match zstd_encoded(
            binstruct_bytes(m),
            9,
        ) {
            Ok(v) => Ok::<Seq<u8>, BinstructFault>(v),
            Err(e) => Err(BinstructFault::Zstd(e)),
        },
        !is_zstd(bytes) ==> binstruct_parse(bytes) == ebml_parse(bytes),
        is_zstd(bytes) ==> (zstd_decoded(bytes) matches Ok(raw) ==> binstruct_parse(bytes)
            == ebml_parse(raw)),
{
    let f = m.header.config_flags;
    assert((f & 0x01 != 0) == (f % 2 == 1)) by (bit_vector);
}

/// A file needs its header, its source, its skeleton and its times; policies may be missing.
pub proof fn missing_parts_are_refused(st: BodyState)
    ensures
        body_finish(st) is Ok <==> st.header is Some && st.source is Some && st.mkv_skeleton is Some
            && st.cluster_timestamps is Some,
        body_finish(st) matches Ok(m) ==> st.header == Some(m.header) && st.source == Some(m.source)
            && st.mkv_skeleton == Some(m.mkv_skeleton) && st.cluster_timestamps == Some(
            m.cluster_timestamps,
        ) && st.track_policies == m.track_policies,
{
}

} // verus!
