//! Manifests: what a release holds, in four formats.
//!
//! This file holds the types and the EBML format; `codec` writes and reads it, and
//! `formats` reads the three text formats.
pub mod codec;
pub mod format_laws;
pub mod formats;
pub mod laws;

use crate::bytes::{be_bytes, concat_map};
use crate::vint::{length_size, uint_bytes, uint_value, vint_at, vint_bytes, VintRead};
use vstd::prelude::*;
use vstd::utf8::{decode_utf8, encode_utf8, valid_utf8};

verus! {

#[derive(Debug, Clone, PartialEq, Eq)]
pub struct Manifest {
    pub title: String,
    pub year: u16,
    pub original_mkv_filename: String,
    pub original_mkv_hash: [u8; 32],
    pub original_language: String,
    pub system_version: String,
    pub publisher: String,
    pub tracks: Vec<ManifestTrack>,
    pub variants_legend: Vec<VariantEntry>,
}

#[derive(Debug, Clone, PartialEq, Eq)]
pub struct ManifestTrack {
    pub track_id: u64,
    pub kind: TrackKind,
    pub language: Option<String>,
    pub codec: String,
    pub variant: Option<String>,
    pub resolution: Option<String>,
}

#[derive(Debug, Clone, Copy, PartialEq, Eq, Structural)]
pub enum TrackKind {
    Video,
    Audio,
    Subtitle,
}

#[derive(Debug, Clone, PartialEq, Eq)]
pub struct VariantEntry {
    pub id: String,
    pub description: String,
}

/// Why a manifest could not be read.
#[derive(Debug, Clone, PartialEq, Eq)]
pub enum ManifestError {
    MissingField(&'static str),
    Ebml(&'static str),
    Io(&'static str),
}

/// [`ManifestError`] with sequences for strings.
pub ghost enum ManifestFault {
    MissingField(Seq<char>),
    Ebml(Seq<char>),
    Io(Seq<char>),
}

impl View for ManifestError {
    type V = ManifestFault;

    open spec fn view(&self) -> ManifestFault {
        match self {
            ManifestError::MissingField(s) => ManifestFault::MissingField(s@),
            ManifestError::Ebml(s) => ManifestFault::Ebml(s@),
            ManifestError::Io(s) => ManifestFault::Io(s@),
        }
    }
}

/// [`Manifest`] with sequences for vectors, arrays and strings.
pub ghost struct ManifestModel {
    pub title: Seq<char>,
    pub year: u16,
    pub original_mkv_filename: Seq<char>,
    pub original_mkv_hash: Seq<u8>,
    pub original_language: Seq<char>,
    pub system_version: Seq<char>,
    pub publisher: Seq<char>,
    pub tracks: Seq<TrackModel>,
    pub variants_legend: Seq<VariantModel>,
}

/// [`ManifestTrack`] with sequences for strings.
pub ghost struct TrackModel {
    pub track_id: u64,
    pub kind: TrackKind,
    pub language: Option<Seq<char>>,
    pub codec: Seq<char>,
    pub variant: Option<Seq<char>>,
    pub resolution: Option<Seq<char>>,
}

/// [`VariantEntry`] with sequences for strings.
pub ghost struct VariantModel {
    pub id: Seq<char>,
    pub description: Seq<char>,
}

/// The text of an optional string.
pub open spec fn text_view(s: Option<String>) -> Option<Seq<char>> {
    match s {
        Some(t) => Some(t@),
        None => None,
    }
}

impl View for ManifestTrack {
    type V = TrackModel;

    open spec fn view(&self) -> TrackModel {
        TrackModel {
            track_id: self.track_id,
            kind: self.kind,
            language: text_view(self.language),
            codec: self.codec@,
            variant: text_view(self.variant),
            resolution: text_view(self.resolution),
        }
    }
}

impl View for VariantEntry {
    type V = VariantModel;

    open spec fn view(&self) -> VariantModel {
        VariantModel { id: self.id@, description: self.description@ }
    }
}

pub open spec fn track_views(s: Seq<ManifestTrack>) -> Seq<TrackModel> {
    Seq::new(s.len(), |i: int| s[i]@)
}

pub open spec fn variant_views(s: Seq<VariantEntry>) -> Seq<VariantModel> {
    Seq::new(s.len(), |i: int| s[i]@)
}

impl View for Manifest {
    type V = ManifestModel;

    open spec fn view(&self) -> ManifestModel {
        ManifestModel {
            title: self.title@,
            year: self.year,
            original_mkv_filename: self.original_mkv_filename@,
            original_mkv_hash: self.original_mkv_hash@,
            original_language: self.original_language@,
            system_version: self.system_version@,
            publisher: self.publisher@,
            tracks: track_views(self.tracks@),
            variants_legend: variant_views(self.variants_legend@),
        }
    }
}

/// Root manifest container.
pub const EBML_ID_MANIFEST_FILE: u16 = 0x4040;

/// UTF-8 string: content title.
pub const EBML_ID_TITLE: u16 = 0x4041;

/// u16: production year.
pub const EBML_ID_YEAR: u16 = 0x4042;

/// UTF-8 string: original MKV filename.
pub const EBML_ID_ORIGINAL_MKV_FILENAME: u16 = 0x4043;

/// binary (32 bytes): SHA-256 of original MKV.
pub const EBML_ID_ORIGINAL_MKV_HASH: u16 = 0x4044;

/// UTF-8 string: ISO 639 language code of original audio.
pub const EBML_ID_ORIGINAL_LANGUAGE: u16 = 0x4045;

/// UTF-8 string: videofuser system version.
pub const EBML_ID_SYSTEM_VERSION: u16 = 0x4046;

/// UTF-8 string: publisher name.
pub const EBML_ID_PUBLISHER: u16 = 0x4047;

/// Master: contains TrackEntry elements.
pub const EBML_ID_TRACKS: u16 = 0x4048;

/// Master: a single track entry.
pub const EBML_ID_TRACK_ENTRY: u16 = 0x4049;

/// u64: track identifier.
pub const EBML_ID_TRACK_ID: u16 = 0x404A;

/// u8: 0=video, 1=audio, 2=subtitle.
pub const EBML_ID_TRACK_KIND: u16 = 0x404B;

/// UTF-8 string: optional ISO 639 language.
pub const EBML_ID_TRACK_LANGUAGE: u16 = 0x404C;

/// UTF-8 string: codec identifier.
pub const EBML_ID_TRACK_CODEC: u16 = 0x404D;

/// UTF-8 string: optional variant code.
pub const EBML_ID_TRACK_VARIANT: u16 = 0x404E;

/// UTF-8 string: optional resolution (video only).
pub const EBML_ID_TRACK_RESOLUTION: u16 = 0x404F;

/// Master: contains VariantEntry elements.
pub const EBML_ID_VARIANTS_LEGEND: u16 = 0x4050;

/// Master: a single variant entry.
pub const EBML_ID_VARIANT_ENTRY: u16 = 0x4051;

/// UTF-8 string: variant two-digit id.
pub const EBML_ID_VARIANT_ID: u16 = 0x4052;

/// UTF-8 string: human-readable variant description.
pub const EBML_ID_VARIANT_DESCRIPTION: u16 = 0x4053;

/// An element: its two-byte id, the length of its payload, its payload.
#[verifier::opaque]
pub open spec fn elem2_bytes(id: u16, payload: Seq<u8>) -> Seq<u8> {
    be_bytes(id as nat, 2) + vint_bytes(payload.len() as u64, length_size(payload.len() as u64))
        + payload
}

/// The head of the element at the start of `data`: id, payload length, bytes after the head.
pub open spec fn head2_at(data: Seq<u8>) -> Result<(u16, u64, Seq<u8>), ManifestFault> {
    if data.len() == 0 {
        Err(ManifestFault::Ebml("unexpected EOF"@))
    } else if data[0] < 0x40 || data[0] >= 0x80 {
        Err(ManifestFault::Ebml("expected 2-byte EBML ID (first byte 0x40-0x7F)"@))
    } else if data.len() < 2 {
        Err(ManifestFault::Ebml("unexpected EOF"@))
    } else {
        match vint_at(data.skip(2)) {
            VintRead::Invalid => Err(ManifestFault::Ebml("invalid VINT size byte"@)),
            VintRead::Value(size, n) => Ok(
                ((data[0] * 256 + data[1]) as u16, size, data.skip(2 + n as int)),
            ),
            _ => Err(ManifestFault::Ebml("unexpected EOF"@)),
        }
    }
}

/// The element at the start of `data`: id, payload, and the bytes after it.
pub open spec fn elem2_at(data: Seq<u8>) -> Result<(u16, Seq<u8>, Seq<u8>), ManifestFault> {
    match head2_at(data) {
        Err(e) => Err(e),
        Ok((id, size, rest)) => if rest.len() < size {
            Err(ManifestFault::Ebml("unexpected EOF reading payload"@))
        } else {
            Ok((id, rest.take(size as int), rest.skip(size as int)))
        },
    }
}

/// Folds the elements of `data` into `st`, one after the other; the first error ends it.
pub open spec fn walk2<S>(
    data: Seq<u8>,
    st: S,
    f: spec_fn(S, u16, Seq<u8>) -> Result<S, ManifestFault>,
) -> Result<S, ManifestFault>
    decreases data.len(),
{
    if data.len() == 0 {
        Ok(st)
    } else {
        match elem2_at(data) {
            Err(e) => Err(e),
            Ok((id, payload, rest)) => match f(st, id, payload) {
                Err(e) => Err(e),
                Ok(next) => if rest.len() < data.len() {
                    walk2(rest, next, f)
                } else {
                    Ok(next)
                },
            },
        }
    }
}

/// The byte that stands for a track kind.
pub open spec fn kind_byte(k: TrackKind) -> u8 {
    match k {
        TrackKind::Video => 0,
        TrackKind::Audio => 1,
        TrackKind::Subtitle => 2,
    }
}

/// The track kind that a payload stands for.
pub open spec fn kind_of(p: Seq<u8>) -> TrackKind {
    if p.len() > 0 && p[0] == 1 {
        TrackKind::Audio
    } else if p.len() > 0 && p[0] == 2 {
        TrackKind::Subtitle
    } else {
        TrackKind::Video
    }
}

/// The element of an optional text: nothing where there is none.
pub open spec fn optional_text(id: u16, text: Option<Seq<char>>) -> Seq<u8> {
    match text {
        Some(t) => elem2_bytes(id, encode_utf8(t)),
        None => Seq::empty(),
    }
}

pub open spec fn track_bytes(t: TrackModel) -> Seq<u8> {
    elem2_bytes(EBML_ID_TRACK_ID, uint_bytes(t.track_id)) + elem2_bytes(
        EBML_ID_TRACK_KIND,
        seq![kind_byte(t.kind)],
    ) + optional_text(EBML_ID_TRACK_LANGUAGE, t.language) + elem2_bytes(
        EBML_ID_TRACK_CODEC,
        encode_utf8(t.codec),
    ) + optional_text(EBML_ID_TRACK_VARIANT, t.variant) + optional_text(
        EBML_ID_TRACK_RESOLUTION,
        t.resolution,
    )
}

pub open spec fn track_coder() -> spec_fn(TrackModel) -> Seq<u8> {
    |t: TrackModel| elem2_bytes(EBML_ID_TRACK_ENTRY, track_bytes(t))
}

pub open spec fn variant_bytes(v: VariantModel) -> Seq<u8> {
    elem2_bytes(EBML_ID_VARIANT_ID, encode_utf8(v.id)) + elem2_bytes(
        EBML_ID_VARIANT_DESCRIPTION,
        encode_utf8(v.description),
    )
}

pub open spec fn variant_coder() -> spec_fn(VariantModel) -> Seq<u8> {
    |v: VariantModel| elem2_bytes(EBML_ID_VARIANT_ENTRY, variant_bytes(v))
}

/// The children of the root element.
pub open spec fn manifest_body(m: ManifestModel) -> Seq<u8> {
    elem2_bytes(EBML_ID_TITLE, encode_utf8(m.title)) + elem2_bytes(
        EBML_ID_YEAR,
        uint_bytes(m.year as u64),
    ) + elem2_bytes(EBML_ID_ORIGINAL_MKV_FILENAME, encode_utf8(m.original_mkv_filename))
        + elem2_bytes(EBML_ID_ORIGINAL_MKV_HASH, m.original_mkv_hash) + elem2_bytes(
        EBML_ID_ORIGINAL_LANGUAGE,
        encode_utf8(m.original_language),
    ) + elem2_bytes(EBML_ID_SYSTEM_VERSION, encode_utf8(m.system_version)) + elem2_bytes(
        EBML_ID_PUBLISHER,
        encode_utf8(m.publisher),
    ) + elem2_bytes(EBML_ID_TRACKS, concat_map(m.tracks, track_coder())) + elem2_bytes(
        EBML_ID_VARIANTS_LEGEND,
        concat_map(m.variants_legend, variant_coder()),
    )
}

/// The EBML form of a manifest.
pub open spec fn manifest_bytes(m: ManifestModel) -> Seq<u8> {
    elem2_bytes(EBML_ID_MANIFEST_FILE, manifest_body(m))
}

/// The text that `payload` encodes.
pub open spec fn text2_of(payload: Seq<u8>) -> Result<Seq<char>, ManifestFault> {
    if valid_utf8(payload) {
        Ok(decode_utf8(payload))
    } else {
        Err(ManifestFault::Ebml("invalid UTF-8 string"@))
    }
}

pub open spec fn track_step() -> spec_fn(TrackModel, u16, Seq<u8>) -> Result<
    TrackModel,
    ManifestFault,
> {
    |st: TrackModel, id: u16, p: Seq<u8>|
        if id == EBML_ID_TRACK_ID {
            Ok(TrackModel { track_id: uint_value(p), ..st })
        } else if id == EBML_ID_TRACK_KIND {
            Ok(TrackModel { kind: kind_of(p), ..st })
        } else if id == EBML_ID_TRACK_LANGUAGE {
            match text2_of(p) {
                Ok(t) => Ok(TrackModel { language: Some(t), ..st }),
                Err(e) => Err(e),
            }
        } else if id == EBML_ID_TRACK_CODEC {
            match text2_of(p) {
                Ok(t) => Ok(TrackModel { codec: t, ..st }),
                Err(e) => Err(e),
            }
        } else if id == EBML_ID_TRACK_VARIANT {
            match text2_of(p) {
                Ok(t) => Ok(TrackModel { variant: Some(t), ..st }),
                Err(e) => Err(e),
            }
        } else if id == EBML_ID_TRACK_RESOLUTION {
            match text2_of(p) {
                Ok(t) => Ok(TrackModel { resolution: Some(t), ..st }),
                Err(e) => Err(e),
            }
        } else {
            Ok(st)
        }
}

pub open spec fn track_start() -> TrackModel {
    TrackModel {
        track_id: 0,
        kind: TrackKind::Video,
        language: None,
        codec: Seq::empty(),
        variant: None,
        resolution: None,
    }
}

/// What a byte string means as a track entry.
#[verifier::opaque]
pub open spec fn track_parse(data: Seq<u8>) -> Result<TrackModel, ManifestFault> {
    walk2(data, track_start(), track_step())
}

pub open spec fn tracks_step() -> spec_fn(Seq<TrackModel>, u16, Seq<u8>) -> Result<
    Seq<TrackModel>,
    ManifestFault,
> {
    |st: Seq<TrackModel>, id: u16, p: Seq<u8>|
        if id == EBML_ID_TRACK_ENTRY {
            match track_parse(p) {
                Ok(t) => Ok(st.push(t)),
                Err(e) => Err(e),
            }
        } else {
            Ok(st)
        }
}

#[verifier::opaque]
pub open spec fn tracks_parse(data: Seq<u8>) -> Result<Seq<TrackModel>, ManifestFault> {
    walk2(data, Seq::empty(), tracks_step())
}

pub open spec fn variant_step() -> spec_fn(VariantModel, u16, Seq<u8>) -> Result<
    VariantModel,
    ManifestFault,
> {
    |st: VariantModel, id: u16, p: Seq<u8>|
        if id == EBML_ID_VARIANT_ID {
            match text2_of(p) {
                Ok(t) => Ok(VariantModel { id: t, ..st }),
                Err(e) => Err(e),
            }
        } else if id == EBML_ID_VARIANT_DESCRIPTION {
            match text2_of(p) {
                Ok(t) => Ok(VariantModel { description: t, ..st }),
                Err(e) => Err(e),
            }
        } else {
            Ok(st)
        }
}

#[verifier::opaque]
pub open spec fn variant_parse(data: Seq<u8>) -> Result<VariantModel, ManifestFault> {
    walk2(data, VariantModel { id: Seq::empty(), description: Seq::empty() }, variant_step())
}

pub open spec fn variants_step() -> spec_fn(Seq<VariantModel>, u16, Seq<u8>) -> Result<
    Seq<VariantModel>,
    ManifestFault,
> {
    |st: Seq<VariantModel>, id: u16, p: Seq<u8>|
        if id == EBML_ID_VARIANT_ENTRY {
            match variant_parse(p) {
                Ok(t) => Ok(st.push(t)),
                Err(e) => Err(e),
            }
        } else {
            Ok(st)
        }
}

#[verifier::opaque]
pub open spec fn variants_parse(data: Seq<u8>) -> Result<Seq<VariantModel>, ManifestFault> {
    walk2(data, Seq::empty(), variants_step())
}

/// What has been read of a manifest.
pub ghost struct ManifestState {
    pub title: Option<Seq<char>>,
    pub hash: Option<Seq<u8>>,
    pub rest: ManifestModel,
}

pub open spec fn manifest_step() -> spec_fn(ManifestState, u16, Seq<u8>) -> Result<
    ManifestState,
    ManifestFault,
> {
    |st: ManifestState, id: u16, p: Seq<u8>|
        if id == EBML_ID_TITLE {
            match text2_of(p) {
                Ok(t) => Ok(ManifestState { title: Some(t), ..st }),
                Err(e) => Err(e),
            }
        } else if id == EBML_ID_YEAR {
            Ok(
                ManifestState {
                    rest: ManifestModel { year: uint_value(p) as u16, ..st.rest },
                    ..st
                },
            )
        } else if id == EBML_ID_ORIGINAL_MKV_FILENAME {
            match text2_of(p) {
                Ok(t) => Ok(
                    ManifestState {
                        rest: ManifestModel { original_mkv_filename: t, ..st.rest },
                        ..st
                    },
                ),
                Err(e) => Err(e),
            }
        } else if id == EBML_ID_ORIGINAL_MKV_HASH {
            if p.len() == 32 {
                Ok(ManifestState { hash: Some(p), ..st })
            } else {
                Err(ManifestFault::Ebml("OriginalMkvHash must be 32 bytes"@))
            }
        } else if id == EBML_ID_ORIGINAL_LANGUAGE {
            match text2_of(p) {
                Ok(t) => Ok(
                    ManifestState { rest: ManifestModel { original_language: t, ..st.rest }, ..st },
                ),
                Err(e) => Err(e),
            }
        } else if id == EBML_ID_SYSTEM_VERSION {
            match text2_of(p) {
                Ok(t) => Ok(
                    ManifestState { rest: ManifestModel { system_version: t, ..st.rest }, ..st },
                ),
                Err(e) => Err(e),
            }
        } else if id == EBML_ID_PUBLISHER {
            match text2_of(p) {
                Ok(t) => Ok(
                    ManifestState { rest: ManifestModel { publisher: t, ..st.rest }, ..st },
                ),
                Err(e) => Err(e),
            }
        } else if id == EBML_ID_TRACKS {
            match tracks_parse(p) {
                Ok(t) => Ok(ManifestState { rest: ManifestModel { tracks: t, ..st.rest }, ..st }),
                Err(e) => Err(e),
            }
        } else if id == EBML_ID_VARIANTS_LEGEND {
            match variants_parse(p) {
                Ok(t) => Ok(
                    ManifestState { rest: ManifestModel { variants_legend: t, ..st.rest }, ..st },
                ),
                Err(e) => Err(e),
            }
        } else {
            Ok(st)
        }
}

pub open spec fn manifest_start() -> ManifestState {
    ManifestState {
        title: None,
        hash: None,
        rest: ManifestModel {
            title: Seq::empty(),
            year: 0,
            original_mkv_filename: Seq::empty(),
            original_mkv_hash: Seq::empty(),
            original_language: Seq::empty(),
            system_version: Seq::empty(),
            publisher: Seq::empty(),
            tracks: Seq::empty(),
            variants_legend: Seq::empty(),
        },
    }
}

/// What the children of the root element mean.
pub open spec fn body_parse(data: Seq<u8>) -> Result<ManifestModel, ManifestFault> {
    match walk2(data, manifest_start(), manifest_step()) {
        Err(e) => Err(e),
        Ok(st) => if st.title is None {
            Err(ManifestFault::MissingField("title"@))
        } else if st.hash is None {
            Err(ManifestFault::MissingField("original_mkv_hash"@))
        } else {
            Ok(ManifestModel { title: st.title->0, original_mkv_hash: st.hash->0, ..st.rest })
        },
    }
}

/// What a byte string means as a manifest.
pub open spec fn manifest_parse(data: Seq<u8>) -> Result<ManifestModel, ManifestFault> {
    match head2_at(data) {
        Err(e) => Err(e),
        Ok((id, size, rest)) => if id != EBML_ID_MANIFEST_FILE {
            Err(ManifestFault::Ebml("expected ManifestFile root element"@))
        } else if rest.len() < size {
            Err(ManifestFault::Ebml("unexpected EOF reading payload"@))
        } else {
            body_parse(rest.take(size as int))
        },
    }
}

} // verus!
