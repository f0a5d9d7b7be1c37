//! What messages say: which field, which track, and both values.
use crate::binstruct::PolicyModel;
use crate::manifest::{ManifestModel, TrackModel, VariantModel};
use crate::text::decimal;
use crate::tools::gen::{cbr_fault, CbrMeta};
use crate::tools::manifest_laws::reads_alike;
use crate::tools::verify::{raw_hash_faults, size_faults, vfr_faults, VfrState};
use crate::tools::verify_manifest::{
    head_faults, kind_name, pair_faults, shown_text, track_faults, track_from, variant_faults,
    variant_from,
};
use vstd::prelude::*;
use vstd::string::*;

verus! {

/// A difference in a description is told with the format, the field and both values, the
/// truth first.
pub proof fn description_faults_tell_both_values(
    truth: ManifestModel,
    other: ManifestModel,
    fmt: Seq<char>,
    strict: bool,
)
    ensures
        ({
            let f = head_faults(truth, other, fmt, strict);
            let head = "format "@ + fmt + ": "@;
            &&& (strict || other.title.len() > 0) && !reads_alike(truth.title, other.title)
                ==> f.contains(
                head + "title"@ + " differs: ebml="@ + "'"@ + truth.title + "'"@ + ", got="@ + "'"@
                    + other.title + "'"@,
            )
            &&& other.year != 0 && truth.year != other.year ==> f.contains(
                head + "year"@ + " differs: ebml="@ + ""@ + decimal(truth.year as nat) + ""@
                    + ", got="@ + ""@ + decimal(other.year as nat) + ""@,
            )
            &&& other.original_language.len() > 0 && truth.original_language
                != other.original_language ==> f.contains(
                head + "original_language"@ + " differs: ebml="@ + "'"@ + truth.original_language
                    + "'"@ + ", got="@ + "'"@ + other.original_language + "'"@,
            )
        }),
{
    let f = head_faults(truth, other, fmt, strict);
    let zeros = Seq::new(32, |i: int| 0u8);
    let a: int = if (strict || other.title.len() > 0) && !reads_alike(truth.title, other.title) {
        1
    } else {
        0
    };
    let b: int = a + if other.year != 0 && truth.year != other.year {
        1int
    } else {
        0int
    };
    if a == 1 {
        assert(f.contains(f[0]));
    }
    if b == a + 1 {
        assert(f.contains(f[a]));
    }
    if other.original_language.len() > 0 && truth.original_language != other.original_language {
        assert(f.contains(f[b]));
    }
}

/// A difference between tracks is told with the format, the track, the field and both values,
/// the truth first.
pub proof fn track_faults_tell_both_values(t: TrackModel, o: TrackModel, fmt: Seq<char>)
    ensures
        ({
            let f = pair_faults(t, o, fmt);
            let head = "format "@ + fmt + ": "@;
            let track = "track "@ + decimal(t.track_id as nat) + ": "@;
            &&& t.kind != o.kind ==> f.contains(
                head + (track + "kind"@) + " differs: ebml="@ + ""@ + kind_name(t.kind) + ""@
                    + ", got="@ + ""@ + kind_name(o.kind) + ""@,
            )
            &&& o.codec.len() > 0 && !reads_alike(t.codec, o.codec) ==> f.contains(
                head + (track + "codec"@) + " differs: ebml="@ + "'"@ + t.codec + "'"@ + ", got="@
                    + "'"@ + o.codec + "'"@,
            )
            &&& o.language is Some && t.language != o.language ==> f.contains(
                head + (track + "language"@) + " differs: ebml="@ + "'"@ + shown_text(t.language)
                    + "'"@ + ", got="@ + "'"@ + shown_text(o.language) + "'"@,
            )
            &&& o.variant is Some && t.variant != o.variant ==> f.contains(
                head + (track + "variant"@) + " differs: ebml="@ + "'"@ + shown_text(t.variant)
                    + "'"@ + ", got="@ + "'"@ + shown_text(o.variant) + "'"@,
            )
        }),
{
    let f = pair_faults(t, o, fmt);
    let a: int = if t.kind != o.kind {
        1
    } else {
        0
    };
    let b: int = a + if o.codec.len() > 0 && !reads_alike(t.codec, o.codec) {
        1int
    } else {
        0int
    };
    let c: int = b + if o.language is Some && t.language != o.language {
        1int
    } else {
        0int
    };
    if a == 1 {
        assert(f.contains(f[0]));
    }
    if b == a + 1 {
        assert(f.contains(f[a]));
    }
    if c == b + 1 {
        assert(f.contains(f[b]));
    }
    if o.variant is Some && t.variant != o.variant {
        assert(f.contains(f[c]));
    }
}

/// A verifier tells the track, what is wrong with which file, and, of sizes, both.
pub proof fn file_faults_tell_what_is_wrong(
    p: PolicyModel,
    path: Seq<char>,
    hash: [u8; 32],
    size: u64,
)
    ensures
        ({
            let track = "track "@ + decimal(p.track_id as nat) + ": "@;
            &&& hash@ != p.raw_file_hash ==> raw_hash_faults(p, path, Ok(hash)) == seq![
                track + "raw file hash mismatch ("@ + path + ")"@,
            ]
            &&& hash@ == p.raw_file_hash ==> raw_hash_faults(p, path, Ok(hash)).len() == 0
            &&& !p.is_vbr ==> (p.cbr_frame_size matches Some(c) ==> if size == p.frame_count * c {
                size_faults(p, Ok(size)).len() == 0
            } else {
                size_faults(p, Ok(size)) == seq![
                    track + "CBR size mismatch: file="@ + decimal(size as nat) + " expected="@
                        + decimal((p.frame_count * c) as nat),
                ]
            })
        }),
{
}

/// A sidecar that does not agree is told with the size that does not, and the product.
pub proof fn size_faults_tell_the_product(track_id: u64, meta: CbrMeta, actual_size: u64)
    ensures
        ({
            let product = meta.frame_count * meta.cbr_frame_size;
            let head = "CBR consistency check failed for audio track "@ + decimal(track_id as nat);
            let tail = " != frame_count("@ + decimal(meta.frame_count as nat)
                + ") × cbr_frame_size("@ + decimal(meta.cbr_frame_size as nat) + ") = "@ + decimal(
                product as nat,
            );
            &&& meta.file_size_bytes != product ==> cbr_fault(track_id, meta, actual_size) == Some(
                head + ": file_size_bytes="@ + decimal(meta.file_size_bytes as nat) + tail,
            )
            &&& meta.file_size_bytes == product && actual_size != product ==> cbr_fault(
                track_id,
                meta,
                actual_size,
            ) == Some(head + ": actual file size "@ + decimal(actual_size as nat) + tail)
        }),
{
}

/// A track or a variant that a format lacks is told by its id, a description that differs with
/// both texts.
pub proof fn missing_entries_are_told_by_their_id(
    t: TrackModel,
    tracks: Seq<TrackModel>,
    v: VariantModel,
    variants: Seq<VariantModel>,
    fmt: Seq<char>,
)
    ensures
        tracks.len() > 0 && track_from(tracks, t.track_id, 0) is None ==> track_faults(
            t,
            tracks,
            fmt,
        ) == seq![
            "format "@ + fmt + ": track "@ + decimal(t.track_id as nat) + " missing from format"@,
        ],
        variants.len() > 0 && variant_from(variants, v.id, 0) is None ==> variant_faults(
            v,
            variants,
            fmt,
        ) == seq!["format "@ + fmt + ": variant '"@ + v.id + "' missing"@],
        variant_from(variants, v.id, 0) matches Some(o) ==> !reads_alike(
            v.description,
            o.description,
        ) ==> variant_faults(v, variants, fmt) == seq![
            "format "@ + fmt + ": "@ + ("variant '"@ + v.id + "' description"@) + " differs: ebml="@
                + "'"@ + v.description + "'"@ + ", got="@ + "'"@ + o.description + "'"@,
        ],
{
}

/// A frame index with another digest is told with its path.
pub proof fn index_faults_tell_the_path(p: PolicyModel, path: String, hash: [u8; 32])
    requires
        p.vfr_file_hash is Some,
    ensures
        ({
            let f = vfr_faults(p, VfrState::Present { path, hash: Ok(hash) });
            if hash@ == p.vfr_file_hash->0 {
                f.len() == 0
            } else {
                f == seq![
                    "track "@ + decimal(p.track_id as nat) + ": "@ + "VFR hash mismatch ("@ + path@
                        + ")"@,
                ]
            }
        }),
{
}

} // verus!
