//! Writing and reading the EBML form of manifests.
use super::{
    body_parse, elem2_at, elem2_bytes, head2_at, kind_byte, manifest_body, manifest_bytes,
    manifest_parse, manifest_start, manifest_step, optional_text, text2_of, text_view,
    track_bytes, track_coder, track_parse, track_step, track_views, tracks_parse, tracks_step,
    variant_bytes, variant_coder, variant_parse, variant_step, variant_views, variants_parse,
    variants_step, walk2, Manifest, ManifestError, ManifestFault, ManifestModel, ManifestState,
    ManifestTrack, TrackKind, TrackModel, VariantEntry, VariantModel, EBML_ID_MANIFEST_FILE,
    EBML_ID_ORIGINAL_LANGUAGE, EBML_ID_ORIGINAL_MKV_FILENAME, EBML_ID_ORIGINAL_MKV_HASH,
    EBML_ID_PUBLISHER, EBML_ID_SYSTEM_VERSION, EBML_ID_TITLE, EBML_ID_TRACKS,
    EBML_ID_TRACK_CODEC, EBML_ID_TRACK_ENTRY, EBML_ID_TRACK_ID, EBML_ID_TRACK_KIND,
    EBML_ID_TRACK_LANGUAGE, EBML_ID_TRACK_RESOLUTION, EBML_ID_TRACK_VARIANT,
    EBML_ID_VARIANTS_LEGEND, EBML_ID_VARIANT_DESCRIPTION, EBML_ID_VARIANT_ENTRY,
    EBML_ID_VARIANT_ID, EBML_ID_YEAR,
};
use crate::binstruct::codec::write_vint_size;
use crate::bytes::{
    append_bytes, concat_map, lemma_concat_map_push, push_be, to_array32, to_vec,
};
use crate::text::string_from_utf8;
use crate::vint::{decode_uint, decode_vint, encode_uint, lemma_vint_at_value, VintRead};
use vstd::prelude::*;

verus! {

impl TrackKind {
    /// The byte that stands for this kind.
    pub fn as_u8(&self) -> (r: u8)
        ensures
            r == kind_byte(*self),
    {
        match self {
            TrackKind::Video => 0,
            TrackKind::Audio => 1,
            TrackKind::Subtitle => 2,
        }
    }
}

/// Appends an element: two-byte id, payload length, payload.
fn write_element2(w: &mut Vec<u8>, id: u16, payload: &[u8])
    ensures
        final(w)@ == old(w)@ + elem2_bytes(id, payload@),
{
    push_be(w, id as u64, 2);
    write_vint_size(w, payload.len() as u64);
    append_bytes(w, payload);
    reveal(elem2_bytes);
    assert(w@ =~= old(w)@ + elem2_bytes(id, payload@));
}

/// Appends the element of an optional text.
fn write_optional(w: &mut Vec<u8>, id: u16, text: &Option<String>)
    ensures
        final(w)@ == old(w)@ + optional_text(id, text_view(*text)),
{
    if let Some(t) = text {
        write_element2(w, id, t.as_str().as_bytes());
    }
    assert(w@ =~= old(w)@ + optional_text(id, text_view(*text)));
}

/// Reads the head of the element at the start of `data`.
fn read_element_header2(data: &[u8]) -> (r: Result<(u16, u64, &[u8]), ManifestError>)
    ensures
        match r {
            Ok(t) => head2_at(data@) == Ok::<(u16, u64, Seq<u8>), ManifestFault>((t.0, t.1, t.2@))
                && t.2@.len() < data@.len(),
            Err(e) => head2_at(data@) == Err::<(u16, u64, Seq<u8>), ManifestFault>(e@),
        },
{
    if data.len() == 0 {
        return Err(ManifestError::Ebml("unexpected EOF"));
    }
    // Two-byte ids have a first byte in 0x40-0x7F.
    if data[0] < 0x40 || data[0] >= 0x80 {
        return Err(ManifestError::Ebml("expected 2-byte EBML ID (first byte 0x40-0x7F)"));
    }
    if data.len() < 2 {
        return Err(ManifestError::Ebml("unexpected EOF"));
    }
    let id: u16 = data[0] as u16 * 256 + data[1] as u16;
    let tail: &[u8] = &data[2..data.len()];
    proof {
        assert(tail@ =~= data@.skip(2));
        lemma_vint_at_value(tail@);
    }
    match decode_vint(tail) {
        VintRead::Invalid => Err(ManifestError::Ebml("invalid VINT size byte")),
        VintRead::Value(size, n) => {
            let rest: &[u8] = &tail[n..tail.len()];
            assert(rest@ =~= data@.skip(2 + n as int));
            Ok((id, size, rest))
        },
        _ => Err(ManifestError::Ebml("unexpected EOF")),
    }
}

/// Reads the element at the start of `data`: id, payload, and the bytes after it.
fn read_element2(data: &[u8]) -> (r: Result<(u16, &[u8], &[u8]), ManifestError>)
    ensures
        match r {
            Ok(t) => elem2_at(data@) == Ok::<(u16, Seq<u8>, Seq<u8>), ManifestFault>(
                (t.0, t.1@, t.2@),
            ) && t.2@.len() < data@.len(),
            Err(e) => elem2_at(data@) == Err::<(u16, Seq<u8>, Seq<u8>), ManifestFault>(e@),
        },
{
    match read_element_header2(data) {
        Err(e) => Err(e),
        Ok((id, size, rest)) => {
            if (rest.len() as u64) < size {
                return Err(ManifestError::Ebml("unexpected EOF reading payload"));
            }
            let n: usize = size as usize;
            let payload: &[u8] = &rest[0..n];
            let after: &[u8] = &rest[n..rest.len()];
            assert(payload@ =~= rest@.take(n as int));
            assert(after@ =~= rest@.skip(n as int));
            Ok((id, payload, after))
        },
    }
}

/// The text that `bytes` encode.
fn bytes_to_str(bytes: &[u8]) -> (r: Result<String, ManifestError>)
    ensures
        match r {
            Ok(s) => text2_of(bytes@) == Ok::<Seq<char>, ManifestFault>(s@),
            Err(e) => text2_of(bytes@) == Err::<Seq<char>, ManifestFault>(e@),
        },
{
    match string_from_utf8(to_vec(bytes)) {
        Some(s) => Ok(s),
        None => Err(ManifestError::Ebml("invalid UTF-8 string")),
    }
}

fn encode_track(t: &ManifestTrack) -> (r: Vec<u8>)
    ensures
        r@ == track_bytes(t@),
{
    let mut te: Vec<u8> = Vec::new();
    let kind: [u8; 1] = [t.kind.as_u8()];
    assert(kind@ =~= seq![kind_byte(t.kind)]);
    write_element2(&mut te, EBML_ID_TRACK_ID, &encode_uint(t.track_id));
    write_element2(&mut te, EBML_ID_TRACK_KIND, &kind);
    write_optional(&mut te, EBML_ID_TRACK_LANGUAGE, &t.language);
    write_element2(&mut te, EBML_ID_TRACK_CODEC, t.codec.as_str().as_bytes());
    write_optional(&mut te, EBML_ID_TRACK_VARIANT, &t.variant);
    write_optional(&mut te, EBML_ID_TRACK_RESOLUTION, &t.resolution);
    assert(te@ =~= track_bytes(t@));
    te
}

fn encode_tracks(tracks: &Vec<ManifestTrack>) -> (r: Vec<u8>)
    ensures
        r@ == concat_map(track_views(tracks@), track_coder()),
{
    let mut out: Vec<u8> = Vec::new();
    let mut i: usize = 0;
    let ghost models = track_views(tracks@);
    proof {
        assert(out@ =~= concat_map(models.take(0), track_coder()));
    }
    while i < tracks.len()
        invariant
            i <= tracks@.len(),
            models == track_views(tracks@),
            out@ == concat_map(models.take(i as int), track_coder()),
        decreases tracks@.len() - i,
    {
        write_element2(&mut out, EBML_ID_TRACK_ENTRY, &encode_track(&tracks[i]));
        proof {
            lemma_concat_map_push(models.take(i as int), models[i as int], track_coder());
            assert(models.take(i + 1) =~= models.take(i as int).push(models[i as int]));
        }
        i = i + 1;
    }
    assert(models.take(i as int) =~= models);
    out
}

fn encode_variants(variants: &Vec<VariantEntry>) -> (r: Vec<u8>)
    ensures
        r@ == concat_map(variant_views(variants@), variant_coder()),
{
    let mut out: Vec<u8> = Vec::new();
    let mut i: usize = 0;
    let ghost models = variant_views(variants@);
    proof {
        assert(out@ =~= concat_map(models.take(0), variant_coder()));
    }
    while i < variants.len()
        invariant
            i <= variants@.len(),
            models == variant_views(variants@),
            out@ == concat_map(models.take(i as int), variant_coder()),
        decreases variants@.len() - i,
    {
        let ve: &VariantEntry = &variants[i];
        let mut entry: Vec<u8> = Vec::new();
        write_element2(&mut entry, EBML_ID_VARIANT_ID, ve.id.as_str().as_bytes());
        write_element2(
            &mut entry,
            EBML_ID_VARIANT_DESCRIPTION,
            ve.description.as_str().as_bytes(),
        );
        assert(entry@ =~= variant_bytes(ve@));
        write_element2(&mut out, EBML_ID_VARIANT_ENTRY, &entry);
        proof {
            lemma_concat_map_push(models.take(i as int), models[i as int], variant_coder());
            assert(models.take(i + 1) =~= models.take(i as int).push(models[i as int]));
        }
        i = i + 1;
    }
    assert(models.take(i as int) =~= models);
    out
}

/// The EBML form of a manifest.
pub fn serialize_ebml(m: &Manifest) -> (r: Result<Vec<u8>, ManifestError>)
    ensures
        r matches Ok(v) && v@ == manifest_bytes(m@),
{
    let mut body: Vec<u8> = Vec::new();
    write_element2(&mut body, EBML_ID_TITLE, m.title.as_str().as_bytes());
    write_element2(&mut body, EBML_ID_YEAR, &encode_uint(m.year as u64));
    write_element2(
        &mut body,
        EBML_ID_ORIGINAL_MKV_FILENAME,
        m.original_mkv_filename.as_str().as_bytes(),
    );
    write_element2(&mut body, EBML_ID_ORIGINAL_MKV_HASH, &m.original_mkv_hash);
    write_element2(&mut body, EBML_ID_ORIGINAL_LANGUAGE, m.original_language.as_str().as_bytes());
    write_element2(&mut body, EBML_ID_SYSTEM_VERSION, m.system_version.as_str().as_bytes());
    write_element2(&mut body, EBML_ID_PUBLISHER, m.publisher.as_str().as_bytes());
    write_element2(&mut body, EBML_ID_TRACKS, &encode_tracks(&m.tracks));
    write_element2(&mut body, EBML_ID_VARIANTS_LEGEND, &encode_variants(&m.variants_legend));
    assert(body@ =~= manifest_body(m@));
    let mut out: Vec<u8> = Vec::new();
    write_element2(&mut out, EBML_ID_MANIFEST_FILE, &body);
    assert(out@ =~= manifest_bytes(m@));
    Ok(out)
}

/// Reads the EBML form of a manifest; bytes after it are ignored.
pub fn parse_ebml(bytes: &[u8]) -> (r: Result<Manifest, ManifestError>)
    ensures
        match r {
            Ok(m) => manifest_parse(bytes@) == Ok::<ManifestModel, ManifestFault>(m@),
            Err(e) => manifest_parse(bytes@) == Err::<ManifestModel, ManifestFault>(e@),
        },
{
    let (id, size, rest): (u16, u64, &[u8]) = match read_element_header2(bytes) {
        Ok(t) => t,
        Err(e) => return Err(e),
    };
    if id != EBML_ID_MANIFEST_FILE {
        return Err(ManifestError::Ebml("expected ManifestFile root element"));
    }
    if (rest.len() as u64) < size {
        return Err(ManifestError::Ebml("unexpected EOF reading payload"));
    }
    let body: &[u8] = &rest[0..size as usize];
    assert(body@ =~= rest@.take(size as int));
    decode_manifest_body(body)
}

fn decode_manifest_body(data: &[u8]) -> (r: Result<Manifest, ManifestError>)
    ensures
        match r {
            Ok(m) => body_parse(data@) == Ok::<ManifestModel, ManifestFault>(m@),
            Err(e) => body_parse(data@) == Err::<ManifestModel, ManifestFault>(e@),
        },
{
    let mut title: Option<String> = None;
    let mut year: u16 = 0;
    let mut original_mkv_filename: String = String::new();
    let mut original_mkv_hash: Option<[u8; 32]> = None;
    let mut original_language: String = String::new();
    let mut system_version: String = String::new();
    let mut publisher: String = String::new();
    let mut tracks: Vec<ManifestTrack> = Vec::new();
    let mut variants_legend: Vec<VariantEntry> = Vec::new();
    let mut rest: &[u8] = data;
    proof {
        assert(track_views(tracks@) =~= Seq::<TrackModel>::empty());
        assert(variant_views(variants_legend@) =~= Seq::<VariantModel>::empty());
    }
    while rest.len() > 0
        invariant
            walk2(data@, manifest_start(), manifest_step()) == walk2(
                rest@,
                ManifestState {
                    title: text_view(title),
                    hash: match original_mkv_hash {
                        Some(h) => Some(h@),
                        None => None,
                    },
                    rest: ManifestModel {
                        title: Seq::empty(),
                        year,
                        original_mkv_filename: original_mkv_filename@,
                        original_mkv_hash: Seq::empty(),
                        original_language: original_language@,
                        system_version: system_version@,
                        publisher: publisher@,
                        tracks: track_views(tracks@),
                        variants_legend: variant_views(variants_legend@),
                    },
                },
                manifest_step(),
            ),
        decreases rest@.len(),
    {
        let (id, payload, next): (u16, &[u8], &[u8]) = match read_element2(rest) {
            Ok(t) => t,
            Err(e) => return Err(e),
        };
        if id == EBML_ID_TITLE {
            match bytes_to_str(payload) {
                Ok(t) => {
                    title = Some(t);
                },
                Err(e) => return Err(e),
            }
        } else if id == EBML_ID_YEAR {
            year = decode_uint(payload) as u16;
        } else if id == EBML_ID_ORIGINAL_MKV_FILENAME {
            match bytes_to_str(payload) {
                Ok(t) => {
                    original_mkv_filename = t;
                },
                Err(e) => return Err(e),
            }
        } else if id == EBML_ID_ORIGINAL_MKV_HASH {
            if payload.len() != 32 {
                return Err(ManifestError::Ebml("OriginalMkvHash must be 32 bytes"));
            }
            original_mkv_hash = Some(to_array32(payload));
        } else if id == EBML_ID_ORIGINAL_LANGUAGE {
            match bytes_to_str(payload) {
                Ok(t) => {
                    original_language = t;
                },
                Err(e) => return Err(e),
            }
        } else if id == EBML_ID_SYSTEM_VERSION {
            match bytes_to_str(payload) {
                Ok(t) => {
                    system_version = t;
                },
                Err(e) => return Err(e),
            }
        } else if id == EBML_ID_PUBLISHER {
            match bytes_to_str(payload) {
                Ok(t) => {
                    publisher = t;
                },
                Err(e) => return Err(e),
            }
        } else if id == EBML_ID_TRACKS {
            match decode_tracks(payload) {
                Ok(t) => {
                    tracks = t;
                },
                Err(e) => return Err(e),
            }
        } else if id == EBML_ID_VARIANTS_LEGEND {
            match decode_variants_legend(payload) {
                Ok(t) => {
                    variants_legend = t;
                },
                Err(e) => return Err(e),
            }
        }
        rest = next;
    }
    let title: String = match title {
        Some(t) => t,
        None => return Err(ManifestError::MissingField("title")),
    };
    let original_mkv_hash: [u8; 32] = match original_mkv_hash {
        Some(h) => h,
        None => return Err(ManifestError::MissingField("original_mkv_hash")),
    };
    Ok(
        Manifest {
            title,
            year,
            original_mkv_filename,
            original_mkv_hash,
            original_language,
            system_version,
            publisher,
            tracks,
            variants_legend,
        },
    )
}

fn decode_tracks(data: &[u8]) -> (r: Result<Vec<ManifestTrack>, ManifestError>)
    ensures
        match r {
            Ok(v) => tracks_parse(data@) == Ok::<Seq<TrackModel>, ManifestFault>(track_views(v@)),
            Err(e) => tracks_parse(data@) == Err::<Seq<TrackModel>, ManifestFault>(e@),
        },
{
    reveal(tracks_parse);
    let mut items: Vec<ManifestTrack> = Vec::new();
    let mut rest: &[u8] = data;
    proof {
        assert(track_views(items@) =~= Seq::<TrackModel>::empty());
    }
    while rest.len() > 0
        invariant
            tracks_parse(data@) == walk2(rest@, track_views(items@), tracks_step()),
        decreases rest@.len(),
    {
        let (id, payload, next): (u16, &[u8], &[u8]) = match read_element2(rest) {
            Ok(t) => t,
            Err(e) => return Err(e),
        };
        if id == EBML_ID_TRACK_ENTRY {
            match decode_track_entry(payload) {
                Ok(t) => {
                    proof {
                        assert(track_views(items@.push(t)) =~= track_views(items@).push(t@));
                    }
                    items.push(t);
                },
                Err(e) => return Err(e),
            }
        }
        rest = next;
    }
    Ok(items)
}

fn decode_track_entry(data: &[u8]) -> (r: Result<ManifestTrack, ManifestError>)
    ensures
        match r {
            Ok(t) => track_parse(data@) == Ok::<TrackModel, ManifestFault>(t@),
            Err(e) => track_parse(data@) == Err::<TrackModel, ManifestFault>(e@),
        },
{
    reveal(track_parse);
    let mut t = ManifestTrack {
        track_id: 0,
        kind: TrackKind::Video,
        language: None,
        codec: String::new(),
        variant: None,
        resolution: None,
    };
    let mut rest: &[u8] = data;
    while rest.len() > 0
        invariant
            track_parse(data@) == walk2(rest@, t@, track_step()),
        decreases rest@.len(),
    {
        let (id, payload, next): (u16, &[u8], &[u8]) = match read_element2(rest) {
            Ok(t) => t,
            Err(e) => return Err(e),
        };
        if id == EBML_ID_TRACK_ID {
            t.track_id = decode_uint(payload);
        } else if id == EBML_ID_TRACK_KIND {
            t.kind = if payload.len() > 0 && payload[0] == 1 {
                TrackKind::Audio
            } else if payload.len() > 0 && payload[0] == 2 {
                TrackKind::Subtitle
            } else {
                TrackKind::Video
            };
        } else if id == EBML_ID_TRACK_LANGUAGE {
            match bytes_to_str(payload) {
                Ok(s) => {
                    t.language = Some(s);
                },
                Err(e) => return Err(e),
            }
        } else if id == EBML_ID_TRACK_CODEC {
            match bytes_to_str(payload) {
                Ok(s) => {
                    t.codec = s;
                },
                Err(e) => return Err(e),
            }
        } else if id == EBML_ID_TRACK_VARIANT {
            match bytes_to_str(payload) {
                Ok(s) => {
                    t.variant = Some(s);
                },
                Err(e) => return Err(e),
            }
        } else if id == EBML_ID_TRACK_RESOLUTION {
            match bytes_to_str(payload) {
                Ok(s) => {
                    t.resolution = Some(s);
                },
                Err(e) => return Err(e),
            }
        }
        rest = next;
    }
    Ok(t)
}

fn decode_variants_legend(data: &[u8]) -> (r: Result<Vec<VariantEntry>, ManifestError>)
    ensures
        match r {
            Ok(v) => variants_parse(data@) == Ok::<Seq<VariantModel>, ManifestFault>(variant_views(v@)),
            Err(e) => variants_parse(data@) == Err::<Seq<VariantModel>, ManifestFault>(e@),
        },
{
    reveal(variants_parse);
    let mut items: Vec<VariantEntry> = Vec::new();
    let mut rest: &[u8] = data;
    proof {
        assert(variant_views(items@) =~= Seq::<VariantModel>::empty());
    }
    while rest.len() > 0
        invariant
            variants_parse(data@) == walk2(rest@, variant_views(items@), variants_step()),
        decreases rest@.len(),
    {
        let (id, payload, next): (u16, &[u8], &[u8]) = match read_element2(rest) {
            Ok(t) => t,
            Err(e) => return Err(e),
        };
        if id == EBML_ID_VARIANT_ENTRY {
            match decode_variant_entry(payload) {
                Ok(t) => {
                    proof {
                        assert(variant_views(items@.push(t)) =~= variant_views(items@).push(t@));
                    }
                    items.push(t);
                },
                Err(e) => return Err(e),
            }
        }
        rest = next;
    }
    Ok(items)
}

fn decode_variant_entry(data: &[u8]) -> (r: Result<VariantEntry, ManifestError>)
    ensures
        match r {
            Ok(t) => variant_parse(data@) == Ok::<VariantModel, ManifestFault>(t@),
            Err(e) => variant_parse(data@) == Err::<VariantModel, ManifestFault>(e@),
        },
{
    reveal(variant_parse);
    let mut v = VariantEntry { id: String::new(), description: String::new() };
    let mut rest: &[u8] = data;
    while rest.len() > 0
        invariant
            variant_parse(data@) == walk2(rest@, v@, variant_step()),
        decreases rest@.len(),
    {
        let (id, payload, next): (u16, &[u8], &[u8]) = match read_element2(rest) {
            Ok(t) => t,
            Err(e) => return Err(e),
        };
        if id == EBML_ID_VARIANT_ID {
            match bytes_to_str(payload) {
                Ok(t) => {
                    v.id = t;
                },
                Err(e) => return Err(e),
            }
        } else if id == EBML_ID_VARIANT_DESCRIPTION {
            match bytes_to_str(payload) {
                Ok(t) => {
                    v.description = t;
                },
                Err(e) => return Err(e),
            }
        }
        rest = next;
    }
    Ok(v)
}

} // verus!
