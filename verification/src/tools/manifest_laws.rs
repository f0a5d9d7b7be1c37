//! When the formats of a manifest agree.
use crate::manifest::{ManifestModel, TrackModel, VariantModel};
use crate::text::{lower, squeezed};
use crate::tools::verify_manifest::{
    all_faults, cross_faults, extra_tracks, extra_variants, head_faults, pair_faults, track_faults,
    track_from, tracks_faults, variant_faults, variant_from, variants_faults,
};
use vstd::prelude::*;
use vstd::string::*;

verus! {

/// Whether two texts have the same words, capitals and spacing aside.
pub open spec fn reads_alike(a: Seq<char>, b: Seq<char>) -> bool {
    lower(squeezed(a, a.len())) == lower(squeezed(b, b.len()))
}

/// Whether a digest is all zeros, as one that is not told.
pub open spec fn is_untold(hash: Seq<u8>) -> bool {
    hash.len() == 32 && forall|i: int| 0 <= i < 32 ==> #[trigger] hash[i] == 0
}

/// Whether the description of a format agrees with the truth in all that it tells. An empty
/// title counts where `strict`.
pub open spec fn head_agrees(truth: ManifestModel, other: ManifestModel, strict: bool) -> bool {
    &&& strict || other.title.len() > 0 ==> reads_alike(truth.title, other.title)
    &&& other.year != 0 ==> other.year == truth.year
    &&& other.original_language.len() > 0 ==> other.original_language == truth.original_language
    &&& !is_untold(other.original_mkv_hash) ==> other.original_mkv_hash == truth.original_mkv_hash
}

/// Nothing is told of a description exactly if it agrees with the truth.
pub proof fn descriptions_that_agree_have_no_faults(
    truth: ManifestModel,
    other: ManifestModel,
    fmt: Seq<char>,
    strict: bool,
)
    ensures
        head_faults(truth, other, fmt, strict).len() == 0 <==> head_agrees(truth, other, strict),
{
    let zeros = Seq::new(32, |i: int| 0u8);
    assert(other.original_mkv_hash == zeros <==> is_untold(other.original_mkv_hash)) by {
        if is_untold(other.original_mkv_hash) {
            assert(other.original_mkv_hash =~= zeros);
        }
    }
}

/// Whether a track of a format agrees with that of the truth in all that it tells.
pub open spec fn track_agrees(t: TrackModel, o: TrackModel) -> bool {
    &&& o.kind == t.kind
    &&& o.codec.len() > 0 ==> reads_alike(t.codec, o.codec)
    &&& o.language is Some ==> o.language == t.language
    &&& o.variant is Some ==> o.variant == t.variant
}

/// Whether track `j` is the first with this id.
pub open spec fn is_first_track(tracks: Seq<TrackModel>, id: u64, j: int) -> bool {
    &&& 0 <= j < tracks.len()
    &&& tracks[j].track_id == id
    &&& forall|i: int| 0 <= i < j ==> (#[trigger] tracks[i]).track_id != id
}

proof fn lemma_track_from(tracks: Seq<TrackModel>, id: u64, k: nat)
    requires
        forall|i: int| 0 <= i < k ==> (#[trigger] tracks[i]).track_id != id,
    ensures
        match track_from(tracks, id, k) {
            Some(t) => exists|j: int| #[trigger] is_first_track(tracks, id, j) && tracks[j] == t,
            None => forall|j: int| 0 <= j < tracks.len() ==> (#[trigger] tracks[j]).track_id != id,
        },
    decreases tracks.len() - k,
{
    if k < tracks.len() {
        if tracks[k as int].track_id == id {
            assert(is_first_track(tracks, id, k as int));
        } else {
            lemma_track_from(tracks, id, k + 1);
        }
    }
}

/// Whether a track has its like among those of another list: the first with its id agrees
/// with it.
pub open spec fn has_its_like(t: TrackModel, others: Seq<TrackModel>) -> bool {
    exists|j: int| #[trigger] is_first_track(others, t.track_id, j) && track_agrees(t, others[j])
}

/// Whether a track with this id is in a list.
pub open spec fn has_track(tracks: Seq<TrackModel>, id: u64) -> bool {
    exists|j: int| 0 <= j < tracks.len() && (#[trigger] tracks[j]).track_id == id
}

/// Whether the tracks of a format agree with the truth: each track of the truth has its like,
/// unless the format has no tracks, and the format has no other ids.
pub open spec fn tracks_agree(tracks: Seq<TrackModel>, others: Seq<TrackModel>) -> bool {
    &&& others.len() > 0 ==> forall|i: int|
        0 <= i < tracks.len() ==> has_its_like(#[trigger] tracks[i], others)
    &&& forall|i: int|
        0 <= i < others.len() ==> has_track(tracks, (#[trigger] others[i]).track_id)
}

proof fn lemma_track(t: TrackModel, others: Seq<TrackModel>, fmt: Seq<char>)
    ensures
        track_faults(t, others, fmt).len() == 0 <==> (others.len() > 0 ==> has_its_like(t, others)),
{
    lemma_track_from(others, t.track_id, 0);
    match track_from(others, t.track_id, 0) {
        Some(o) => {
            let j = choose|j: int| #[trigger]
                is_first_track(others, t.track_id, j) && others[j] == o;
            assert(pair_faults(t, o, fmt).len() == 0 <==> track_agrees(t, o));
            if has_its_like(t, others) {
                let i = choose|i: int| #[trigger]
                    is_first_track(others, t.track_id, i) && track_agrees(t, others[i]);
                assert(i == j) by {
                    if i < j {
                        assert(others[i].track_id != t.track_id);
                    } else if j < i {
                        assert(others[j].track_id != t.track_id);
                    }
                }
            }
        },
        None => {
            if has_its_like(t, others) {
                let i = choose|i: int| #[trigger]
                    is_first_track(others, t.track_id, i) && track_agrees(t, others[i]);
                assert(others[i].track_id != t.track_id);
            }
        },
    }
}

proof fn lemma_tracks(tracks: Seq<TrackModel>, others: Seq<TrackModel>, fmt: Seq<char>, n: nat)
    requires
        n <= tracks.len(),
    ensures
        tracks_faults(tracks, others, fmt, n).len() == 0 <==> (others.len() > 0 ==> forall|i: int|
            0 <= i < n ==> has_its_like(#[trigger] tracks[i], others)),
    decreases n,
{
    if n > 0 {
        lemma_tracks(tracks, others, fmt, (n - 1) as nat);
        lemma_track(tracks[n - 1], others, fmt);
        assert(tracks_faults(tracks, others, fmt, n).len() == tracks_faults(
            tracks,
            others,
            fmt,
            (n - 1) as nat,
        ).len() + track_faults(tracks[n - 1], others, fmt).len());
    }
}

proof fn lemma_extra_tracks(
    tracks: Seq<TrackModel>,
    others: Seq<TrackModel>,
    fmt: Seq<char>,
    n: nat,
)
    requires
        n <= others.len(),
    ensures
        extra_tracks(tracks, others, fmt, n).len() == 0 <==> forall|i: int|
            0 <= i < n ==> has_track(tracks, (#[trigger] others[i]).track_id),
    decreases n,
{
    if n > 0 {
        lemma_extra_tracks(tracks, others, fmt, (n - 1) as nat);
        let id = others[n - 1].track_id;
        lemma_track_from(tracks, id, 0);
        if let Some(t) = track_from(tracks, id, 0) {
            let j = choose|j: int| #[trigger] is_first_track(tracks, id, j) && tracks[j] == t;
            assert(tracks[j].track_id == id);
            assert(has_track(tracks, id));
        }
    }
}

/// Whether variant `j` is the first with this id.
pub open spec fn is_first_variant(variants: Seq<VariantModel>, id: Seq<char>, j: int) -> bool {
    &&& 0 <= j < variants.len()
    &&& variants[j].id == id
    &&& forall|i: int| 0 <= i < j ==> (#[trigger] variants[i]).id != id
}

proof fn lemma_variant_from(variants: Seq<VariantModel>, id: Seq<char>, k: nat)
    requires
        forall|i: int| 0 <= i < k ==> (#[trigger] variants[i]).id != id,
    ensures
        match variant_from(variants, id, k) {
            Some(v) => exists|j: int| #[trigger]
                is_first_variant(variants, id, j) && variants[j] == v,
            None => forall|j: int| 0 <= j < variants.len() ==> (#[trigger] variants[j]).id != id,
        },
    decreases variants.len() - k,
{
    if k < variants.len() {
        if variants[k as int].id == id {
            assert(is_first_variant(variants, id, k as int));
        } else {
            lemma_variant_from(variants, id, k + 1);
        }
    }
}

/// Whether a variant has its like in another list: the first with its id reads alike.
pub open spec fn has_its_variant(v: VariantModel, others: Seq<VariantModel>) -> bool {
    exists|j: int| #[trigger]
        is_first_variant(others, v.id, j) && reads_alike(v.description, others[j].description)
}

pub open spec fn has_variant(variants: Seq<VariantModel>, id: Seq<char>) -> bool {
    exists|j: int| 0 <= j < variants.len() && (#[trigger] variants[j]).id == id
}

/// Whether the variants of a format agree with the truth: each variant of the truth has its
/// like, unless the format has none, and the format has no other ids.
pub open spec fn variants_agree(variants: Seq<VariantModel>, others: Seq<VariantModel>) -> bool {
    &&& others.len() > 0 ==> forall|i: int|
        0 <= i < variants.len() ==> has_its_variant(#[trigger] variants[i], others)
    &&& forall|i: int| 0 <= i < others.len() ==> has_variant(variants, (#[trigger] others[i]).id)
}

proof fn lemma_variant(v: VariantModel, others: Seq<VariantModel>, fmt: Seq<char>)
    ensures
        variant_faults(v, others, fmt).len() == 0 <==> (others.len() > 0 ==> has_its_variant(
            v,
            others,
        )),
{
    lemma_variant_from(others, v.id, 0);
    match variant_from(others, v.id, 0) {
        Some(o) => {
            let j = choose|j: int| #[trigger] is_first_variant(others, v.id, j) && others[j] == o;
            if has_its_variant(v, others) {
                let i = choose|i: int| #[trigger]
                    is_first_variant(others, v.id, i) && reads_alike(
                        v.description,
                        others[i].description,
                    );
                assert(i == j) by {
                    if i < j {
                        assert(others[i].id != v.id);
                    } else if j < i {
                        assert(others[j].id != v.id);
                    }
                }
            }
        },
        None => {
            if has_its_variant(v, others) {
                let i = choose|i: int| #[trigger]
                    is_first_variant(others, v.id, i) && reads_alike(
                        v.description,
                        others[i].description,
                    );
                assert(others[i].id != v.id);
            }
        },
    }
}

proof fn lemma_variants(
    variants: Seq<VariantModel>,
    others: Seq<VariantModel>,
    fmt: Seq<char>,
    n: nat,
)
    requires
        n <= variants.len(),
    ensures
        variants_faults(variants, others, fmt, n).len() == 0 <==> (others.len() > 0 ==> forall|
            i: int,
        |
            0 <= i < n ==> has_its_variant(#[trigger] variants[i], others)),
    decreases n,
{
    if n > 0 {
        lemma_variants(variants, others, fmt, (n - 1) as nat);
        lemma_variant(variants[n - 1], others, fmt);
        assert(variants_faults(variants, others, fmt, n).len() == variants_faults(
            variants,
            others,
            fmt,
            (n - 1) as nat,
        ).len() + variant_faults(variants[n - 1], others, fmt).len());
    }
}

proof fn lemma_extra_variants(
    variants: Seq<VariantModel>,
    others: Seq<VariantModel>,
    fmt: Seq<char>,
    n: nat,
)
    requires
        n <= others.len(),
    ensures
        extra_variants(variants, others, fmt, n).len() == 0 <==> forall|i: int|
            0 <= i < n ==> has_variant(variants, (#[trigger] others[i]).id),
    decreases n,
{
    if n > 0 {
        lemma_extra_variants(variants, others, fmt, (n - 1) as nat);
        let id = others[n - 1].id;
        lemma_variant_from(variants, id, 0);
        if let Some(v) = variant_from(variants, id, 0) {
            let j = choose|j: int| #[trigger] is_first_variant(variants, id, j) && variants[j] == v;
            assert(variants[j].id == id);
            assert(has_variant(variants, id));
        }
    }
}

/// Nothing is told of a format with all fields exactly if it agrees with the truth: in its
/// description, its tracks and its variants.
pub proof fn formats_that_agree_have_no_faults(
    truth: ManifestModel,
    other: ManifestModel,
    fmt: Seq<char>,
)
    ensures
        all_faults(truth, other, fmt).len() == 0 <==> head_agrees(truth, other, true)
            && tracks_agree(truth.tracks, other.tracks) && variants_agree(
            truth.variants_legend,
            other.variants_legend,
        ),
{
    descriptions_that_agree_have_no_faults(truth, other, fmt, true);
    lemma_tracks(truth.tracks, other.tracks, fmt, truth.tracks.len());
    lemma_extra_tracks(truth.tracks, other.tracks, fmt, other.tracks.len());
    lemma_variants(
        truth.variants_legend,
        other.variants_legend,
        fmt,
        truth.variants_legend.len(),
    );
    lemma_extra_variants(
        truth.variants_legend,
        other.variants_legend,
        fmt,
        other.variants_legend.len(),
    );
}

/// The cross-check tells nothing exactly if every format that could be read agrees with the
/// truth: XML in all fields, NFO and Markdown in the description that they give.
pub proof fn cross_check_tells_what_does_not_agree(
    truth: ManifestModel,
    xml: Option<ManifestModel>,
    nfo: Option<ManifestModel>,
    md: Option<ManifestModel>,
)
    ensures
        cross_faults(truth, xml, nfo, md).len() == 0 <==> {
            &&& xml matches Some(m) ==> head_agrees(truth, m, true) && tracks_agree(
                truth.tracks,
                m.tracks,
            ) && variants_agree(truth.variants_legend, m.variants_legend)
            &&& nfo matches Some(m) ==> head_agrees(truth, m, false)
            &&& md matches Some(m) ==> head_agrees(truth, m, false)
        },
{
    if let Some(m) = xml {
        formats_that_agree_have_no_faults(truth, m, "xml"@);
    }
    if let Some(m) = nfo {
        descriptions_that_agree_have_no_faults(truth, m, "nfo"@, false);
    }
    if let Some(m) = md {
        descriptions_that_agree_have_no_faults(truth, m, "md"@, false);
    }
}

} // verus!
