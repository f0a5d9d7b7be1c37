//! A manifest reads back as it was written.
use super::{
    body_parse, elem2_at, elem2_bytes, head2_at, kind_byte, manifest_body, manifest_bytes,
    manifest_parse, manifest_start, manifest_step, optional_text, track_bytes, track_coder,
    track_parse, track_start, track_step, tracks_parse, tracks_step, variant_bytes, variant_coder,
    variant_parse, variant_step, variants_parse, variants_step, walk2, ManifestFault,
    ManifestModel, ManifestState, TrackModel, VariantModel, EBML_ID_MANIFEST_FILE,
    EBML_ID_ORIGINAL_LANGUAGE, EBML_ID_ORIGINAL_MKV_FILENAME, EBML_ID_ORIGINAL_MKV_HASH,
    EBML_ID_PUBLISHER, EBML_ID_SYSTEM_VERSION, EBML_ID_TITLE, EBML_ID_TRACKS, EBML_ID_TRACK_CODEC,
    EBML_ID_TRACK_ENTRY, EBML_ID_TRACK_ID, EBML_ID_TRACK_KIND, EBML_ID_TRACK_LANGUAGE,
    EBML_ID_TRACK_RESOLUTION, EBML_ID_TRACK_VARIANT, EBML_ID_VARIANTS_LEGEND,
    EBML_ID_VARIANT_DESCRIPTION, EBML_ID_VARIANT_ENTRY, EBML_ID_VARIANT_ID, EBML_ID_YEAR,
};
use crate::bytes::{be_bytes, concat_map, lemma_be_bytes_len};
use crate::vint::{
    lemma_pow128_values, lemma_vint_bytes_len, length_size, uint_bytes, uint_round_trip,
    vint_bytes, vint_round_trip,
};
use vstd::prelude::*;
use vstd::utf8::{
    decode_utf8, encode_utf8, encode_utf8_decode_utf8, encode_utf8_valid_utf8, valid_utf8,
};

verus! {

/// An element at the start of a byte string is the first one that a walk meets.
proof fn lemma_walk2_elem<S>(
    id: u16,
    payload: Seq<u8>,
    rest: Seq<u8>,
    st: S,
    f: spec_fn(S, u16, Seq<u8>) -> Result<S, ManifestFault>,
)
    requires
        payload.len() < 0x100_0000_0000_0000,
        0x4000 <= id < 0x8000,
    ensures
        head2_at(elem2_bytes(id, payload) + rest) == Ok::<(u16, u64, Seq<u8>), ManifestFault>(
            (id, payload.len() as u64, payload + rest),
        ),
        walk2(elem2_bytes(id, payload) + rest, st, f) == (match f(st, id, payload) {
            Ok(next) => walk2(rest, next, f),
            Err(e) => Err(e),
        }),
{
    let size = payload.len() as u64;
    let n = length_size(size);
    let head = vint_bytes(size, n);
    let data = elem2_bytes(id, payload) + rest;
    reveal(elem2_bytes);
    lemma_pow128_values();
    lemma_vint_bytes_len(size, n);
    reveal_with_fuel(be_bytes, 3);
    lemma_be_bytes_len(id as nat, 2);
    assert(data[0] as nat == id as nat / 256);
    assert(data[1] as nat == id as nat % 256);
    assert(data.skip(2) =~= head + (payload + rest));
    vint_round_trip(size, n, payload + rest);
    assert(data.skip(2 + n as int) =~= payload + rest);
    assert((payload + rest).take(size as int) =~= payload);
    assert((payload + rest).skip(size as int) =~= rest);
    assert(elem2_at(data) == Ok::<(u16, Seq<u8>, Seq<u8>), ManifestFault>((id, payload, rest)));
}

proof fn lemma_walk2_end<S>(st: S, f: spec_fn(S, u16, Seq<u8>) -> Result<S, ManifestFault>)
    ensures
        walk2(Seq::<u8>::empty(), st, f) == Ok::<S, ManifestFault>(st),
{
}

proof fn lemma_elem2_len(id: u16, payload: Seq<u8>)
    ensures
        elem2_bytes(id, payload).len() > payload.len(),
{
    reveal(elem2_bytes);
    lemma_be_bytes_len(id as nat, 2);
    lemma_vint_bytes_len(payload.len() as u64, length_size(payload.len() as u64));
}

proof fn lemma_text2(s: Seq<char>)
    ensures
        valid_utf8(encode_utf8(s)),
        decode_utf8(encode_utf8(s)) == s,
{
    encode_utf8_valid_utf8(s);
    encode_utf8_decode_utf8(s);
}

/// The part of a track entry after its codec.
spec fn track_tail(t: TrackModel) -> Seq<u8> {
    optional_text(EBML_ID_TRACK_VARIANT, t.variant) + optional_text(
        EBML_ID_TRACK_RESOLUTION,
        t.resolution,
    )
}

proof fn lemma_track_tail(t: TrackModel, st: TrackModel)
    requires
        track_tail(t).len() < 0x100_0000_0000_0000,
        st == (TrackModel { variant: None, resolution: None, ..t }),
    ensures
        walk2(track_tail(t), st, track_step()) == Ok::<TrackModel, ManifestFault>(t),
{
    let f = track_step();
    let nil = Seq::<u8>::empty();
    let s1 = TrackModel { variant: t.variant, ..st };
    let last = optional_text(EBML_ID_TRACK_RESOLUTION, t.resolution);
    if let Some(v) = t.variant {
        lemma_text2(v);
        lemma_elem2_len(EBML_ID_TRACK_VARIANT, encode_utf8(v));
        lemma_walk2_elem(EBML_ID_TRACK_VARIANT, encode_utf8(v), last, st, f);
    } else {
        assert(track_tail(t) =~= last);
    }
    if let Some(v) = t.resolution {
        lemma_text2(v);
        lemma_elem2_len(EBML_ID_TRACK_RESOLUTION, encode_utf8(v));
        assert(last =~= elem2_bytes(EBML_ID_TRACK_RESOLUTION, encode_utf8(v)) + nil);
        lemma_walk2_elem(EBML_ID_TRACK_RESOLUTION, encode_utf8(v), nil, s1, f);
    }
    lemma_walk2_end(t, f);
}

proof fn lemma_track(t: TrackModel)
    requires
        track_bytes(t).len() < 0x100_0000_0000_0000,
    ensures
        track_parse(track_bytes(t)) == Ok::<TrackModel, ManifestFault>(t),
{
    reveal(track_parse);
    let f = track_step();
    let s0 = track_start();
    let s1 = TrackModel { track_id: t.track_id, ..s0 };
    let s2 = TrackModel { kind: t.kind, ..s1 };
    let s3 = TrackModel { language: t.language, ..s2 };
    let s4 = TrackModel { codec: t.codec, ..s3 };
    let kind = seq![kind_byte(t.kind)];
    let r4 = track_tail(t);
    let r3 = elem2_bytes(EBML_ID_TRACK_CODEC, encode_utf8(t.codec)) + r4;
    let r2 = optional_text(EBML_ID_TRACK_LANGUAGE, t.language) + r3;
    let r1 = elem2_bytes(EBML_ID_TRACK_KIND, kind) + r2;
    assert(track_bytes(t) =~= elem2_bytes(EBML_ID_TRACK_ID, uint_bytes(t.track_id)) + r1);
    lemma_text2(t.codec);
    uint_round_trip(t.track_id);
    lemma_elem2_len(EBML_ID_TRACK_ID, uint_bytes(t.track_id));
    lemma_elem2_len(EBML_ID_TRACK_CODEC, encode_utf8(t.codec));
    lemma_walk2_elem(EBML_ID_TRACK_ID, uint_bytes(t.track_id), r1, s0, f);
    lemma_walk2_elem(EBML_ID_TRACK_KIND, kind, r2, s1, f);
    if let Some(v) = t.language {
        lemma_text2(v);
        lemma_elem2_len(EBML_ID_TRACK_LANGUAGE, encode_utf8(v));
        lemma_walk2_elem(EBML_ID_TRACK_LANGUAGE, encode_utf8(v), r3, s2, f);
    } else {
        assert(r2 =~= r3);
    }
    lemma_walk2_elem(EBML_ID_TRACK_CODEC, encode_utf8(t.codec), r4, s3, f);
    lemma_track_tail(t, s4);
}

proof fn lemma_tracks(acc: Seq<TrackModel>, tracks: Seq<TrackModel>)
    requires
        concat_map(tracks, track_coder()).len() < 0x100_0000_0000_0000,
    ensures
        walk2(concat_map(tracks, track_coder()), acc, tracks_step()) == Ok::<
            Seq<TrackModel>,
            ManifestFault,
        >(acc + tracks),
    decreases tracks.len(),
{
    let f = tracks_step();
    if tracks.len() == 0 {
        lemma_walk2_end(acc, f);
        assert(acc + tracks =~= acc);
    } else {
        let rest = concat_map(tracks.skip(1), track_coder());
        lemma_elem2_len(EBML_ID_TRACK_ENTRY, track_bytes(tracks[0]));
        lemma_track(tracks[0]);
        lemma_walk2_elem(EBML_ID_TRACK_ENTRY, track_bytes(tracks[0]), rest, acc, f);
        lemma_tracks(acc.push(tracks[0]), tracks.skip(1));
        assert(acc.push(tracks[0]) + tracks.skip(1) =~= acc + tracks);
    }
}

proof fn lemma_variant(v: VariantModel)
    requires
        variant_bytes(v).len() < 0x100_0000_0000_0000,
    ensures
        variant_parse(variant_bytes(v)) == Ok::<VariantModel, ManifestFault>(v),
{
    reveal(variant_parse);
    let f = variant_step();
    let s0 = VariantModel { id: Seq::empty(), description: Seq::empty() };
    let s1 = VariantModel { id: v.id, ..s0 };
    let b = elem2_bytes(EBML_ID_VARIANT_DESCRIPTION, encode_utf8(v.description));
    let nil = Seq::<u8>::empty();
    lemma_text2(v.id);
    lemma_text2(v.description);
    lemma_elem2_len(EBML_ID_VARIANT_ID, encode_utf8(v.id));
    lemma_elem2_len(EBML_ID_VARIANT_DESCRIPTION, encode_utf8(v.description));
    assert(variant_bytes(v) =~= elem2_bytes(EBML_ID_VARIANT_ID, encode_utf8(v.id)) + (b + nil));
    lemma_walk2_elem(EBML_ID_VARIANT_ID, encode_utf8(v.id), b + nil, s0, f);
    lemma_walk2_elem(EBML_ID_VARIANT_DESCRIPTION, encode_utf8(v.description), nil, s1, f);
    lemma_walk2_end(v, f);
}

proof fn lemma_variants(acc: Seq<VariantModel>, variants: Seq<VariantModel>)
    requires
        concat_map(variants, variant_coder()).len() < 0x100_0000_0000_0000,
    ensures
        walk2(concat_map(variants, variant_coder()), acc, variants_step()) == Ok::<
            Seq<VariantModel>,
            ManifestFault,
        >(acc + variants),
    decreases variants.len(),
{
    let f = variants_step();
    if variants.len() == 0 {
        lemma_walk2_end(acc, f);
        assert(acc + variants =~= acc);
    } else {
        let rest = concat_map(variants.skip(1), variant_coder());
        lemma_elem2_len(EBML_ID_VARIANT_ENTRY, variant_bytes(variants[0]));
        lemma_variant(variants[0]);
        lemma_walk2_elem(EBML_ID_VARIANT_ENTRY, variant_bytes(variants[0]), rest, acc, f);
        lemma_variants(acc.push(variants[0]), variants.skip(1));
        assert(acc.push(variants[0]) + variants.skip(1) =~= acc + variants);
    }
}

/// The part of a manifest after its hash.
spec fn manifest_tail(m: ManifestModel) -> Seq<u8> {
    elem2_bytes(EBML_ID_ORIGINAL_LANGUAGE, encode_utf8(m.original_language)) + (elem2_bytes(
        EBML_ID_SYSTEM_VERSION,
        encode_utf8(m.system_version),
    ) + (elem2_bytes(EBML_ID_PUBLISHER, encode_utf8(m.publisher)) + (elem2_bytes(
        EBML_ID_TRACKS,
        concat_map(m.tracks, track_coder()),
    ) + (elem2_bytes(
        EBML_ID_VARIANTS_LEGEND,
        concat_map(m.variants_legend, variant_coder()),
    ) + Seq::<u8>::empty()))))
}

/// The state after the hash of a manifest.
spec fn tail_state(m: ManifestModel) -> ManifestState {
    ManifestState {
        title: Some(m.title),
        hash: Some(m.original_mkv_hash),
        rest: ManifestModel {
            year: m.year,
            original_mkv_filename: m.original_mkv_filename,
            ..manifest_start().rest
        },
    }
}

proof fn lemma_tail(m: ManifestModel)
    requires
        manifest_tail(m).len() < 0x100_0000_0000_0000,
    ensures
        walk2(manifest_tail(m), tail_state(m), manifest_step()) == Ok::<
            ManifestState,
            ManifestFault,
        >(
            ManifestState {
                title: Some(m.title),
                hash: Some(m.original_mkv_hash),
                rest: ManifestModel {
                    title: Seq::empty(),
                    original_mkv_hash: Seq::empty(),
                    ..m
                },
            },
        ),
{
    reveal(tracks_parse);
    reveal(variants_parse);
    let f = manifest_step();
    let nil = Seq::<u8>::empty();
    let tracks = concat_map(m.tracks, track_coder());
    let variants = concat_map(m.variants_legend, variant_coder());
    let r8 = elem2_bytes(EBML_ID_VARIANTS_LEGEND, variants) + nil;
    let r7 = elem2_bytes(EBML_ID_TRACKS, tracks) + r8;
    let r6 = elem2_bytes(EBML_ID_PUBLISHER, encode_utf8(m.publisher)) + r7;
    let r5 = elem2_bytes(EBML_ID_SYSTEM_VERSION, encode_utf8(m.system_version)) + r6;
    lemma_text2(m.original_language);
    lemma_text2(m.system_version);
    lemma_text2(m.publisher);
    lemma_elem2_len(EBML_ID_ORIGINAL_LANGUAGE, encode_utf8(m.original_language));
    lemma_elem2_len(EBML_ID_SYSTEM_VERSION, encode_utf8(m.system_version));
    lemma_elem2_len(EBML_ID_PUBLISHER, encode_utf8(m.publisher));
    lemma_elem2_len(EBML_ID_TRACKS, tracks);
    lemma_elem2_len(EBML_ID_VARIANTS_LEGEND, variants);
    lemma_tracks(Seq::empty(), m.tracks);
    lemma_variants(Seq::empty(), m.variants_legend);
    assert(Seq::<TrackModel>::empty() + m.tracks =~= m.tracks);
    assert(Seq::<VariantModel>::empty() + m.variants_legend =~= m.variants_legend);
    let s4 = tail_state(m);
    let s5 = ManifestState {
        rest: ManifestModel { original_language: m.original_language, ..s4.rest },
        ..s4
    };
    let s6 = ManifestState {
        rest: ManifestModel { system_version: m.system_version, ..s5.rest },
        ..s5
    };
    let s7 = ManifestState { rest: ManifestModel { publisher: m.publisher, ..s6.rest }, ..s6 };
    let s8 = ManifestState { rest: ManifestModel { tracks: m.tracks, ..s7.rest }, ..s7 };
    let s9 = ManifestState {
        rest: ManifestModel { variants_legend: m.variants_legend, ..s8.rest },
        ..s8
    };
    lemma_walk2_elem(EBML_ID_ORIGINAL_LANGUAGE, encode_utf8(m.original_language), r5, s4, f);
    lemma_walk2_elem(EBML_ID_SYSTEM_VERSION, encode_utf8(m.system_version), r6, s5, f);
    lemma_walk2_elem(EBML_ID_PUBLISHER, encode_utf8(m.publisher), r7, s6, f);
    lemma_walk2_elem(EBML_ID_TRACKS, tracks, r8, s7, f);
    lemma_walk2_elem(EBML_ID_VARIANTS_LEGEND, variants, nil, s8, f);
    lemma_walk2_end(s9, f);
}

proof fn lemma_body(m: ManifestModel)
    requires
        m.original_mkv_hash.len() == 32,
        manifest_body(m).len() < 0x100_0000_0000_0000,
    ensures
        body_parse(manifest_body(m)) == Ok::<ManifestModel, ManifestFault>(m),
{
    let f = manifest_step();
    let year = uint_bytes(m.year as u64);
    let r4 = manifest_tail(m);
    let r3 = elem2_bytes(EBML_ID_ORIGINAL_MKV_HASH, m.original_mkv_hash) + r4;
    let r2 = elem2_bytes(EBML_ID_ORIGINAL_MKV_FILENAME, encode_utf8(m.original_mkv_filename)) + r3;
    let r1 = elem2_bytes(EBML_ID_YEAR, year) + r2;
    assert(manifest_body(m) =~= elem2_bytes(EBML_ID_TITLE, encode_utf8(m.title)) + r1);
    lemma_text2(m.title);
    lemma_text2(m.original_mkv_filename);
    uint_round_trip(m.year as u64);
    lemma_elem2_len(EBML_ID_TITLE, encode_utf8(m.title));
    lemma_elem2_len(EBML_ID_YEAR, year);
    lemma_elem2_len(EBML_ID_ORIGINAL_MKV_FILENAME, encode_utf8(m.original_mkv_filename));
    let s0 = manifest_start();
    let s1 = ManifestState { title: Some(m.title), ..s0 };
    let s2 = ManifestState { rest: ManifestModel { year: m.year, ..s1.rest }, ..s1 };
    let s3 = ManifestState {
        rest: ManifestModel { original_mkv_filename: m.original_mkv_filename, ..s2.rest },
        ..s2
    };
    lemma_walk2_elem(EBML_ID_TITLE, encode_utf8(m.title), r1, s0, f);
    lemma_walk2_elem(EBML_ID_YEAR, year, r2, s1, f);
    lemma_walk2_elem(
        EBML_ID_ORIGINAL_MKV_FILENAME,
        encode_utf8(m.original_mkv_filename),
        r3,
        s2,
        f,
    );
    lemma_walk2_elem(EBML_ID_ORIGINAL_MKV_HASH, m.original_mkv_hash, r4, s3, f);
    lemma_tail(m);
}

/// What `serialize_ebml` writes, `parse_ebml` reads back, where the hash has 32 bytes
/// and a VINT can hold the length.
pub proof fn manifest_round_trip(m: ManifestModel)
    requires
        m.original_mkv_hash.len() == 32,
        manifest_body(m).len() < 0x100_0000_0000_0000,
    ensures
        manifest_parse(manifest_bytes(m)) == Ok::<ManifestModel, ManifestFault>(m),
{
    let body = manifest_body(m);
    let nil = Seq::<u8>::empty();
    lemma_body(m);
    assert(manifest_bytes(m) =~= elem2_bytes(EBML_ID_MANIFEST_FILE, body) + nil);
    lemma_walk2_elem(EBML_ID_MANIFEST_FILE, body, nil, manifest_start(), manifest_step());
    assert((body + nil).take(body.len() as int) =~= body);
    assert(body + nil =~= body);
}

} // verus!
