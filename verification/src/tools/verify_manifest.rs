//! Holding the formats of a manifest against each other.
use crate::bytes::bytes_equal;
use crate::manifest::{
    text_view, track_views, variant_views, Manifest, ManifestModel, ManifestTrack, TrackKind,
    TrackModel, VariantEntry, VariantModel,
};
use crate::text::{
    contains_text, decimal, decimal_text, ends_with, eq_ignore_case, same_words, same_text,
    text_contains, text_ends_with,
};
use crate::tools::verify::message_views;
use vstd::prelude::*;
use vstd::string::*;

verus! {

/// What `{:?}` prints of an optional text.
pub uninterp spec fn debug_text(s: Option<Seq<char>>) -> Seq<char>;

/// Whether a text is all ASCII letters and digits.
pub open spec fn is_plain(s: Seq<char>) -> bool {
    forall|i: int| 0 <= i < s.len() ==> is_plain_char(#[trigger] s[i])
}

pub open spec fn is_plain_char(c: char) -> bool {
    'a' <= c <= 'z' || 'A' <= c <= 'Z' || '0' <= c <= '9'
}

/// An optional text as it stands in a message: `None`, or the text in quotes in the
/// brackets of `Some`, with what else `{:?}` does to characters that are not plain.
pub open spec fn shown_text(s: Option<Seq<char>>) -> Seq<char> {
    match s {
        None => "None"@,
        Some(t) => if is_plain(t) {
            "Some(\""@ + t + "\")"@
        } else {
            debug_text(s)
        },
    }
}

/// `format!` with `{:?}`, of an optional text: the name of the variant, and letters and
/// digits in quotes as they are. What it makes of other characters is left open.
#[verifier::external_body]
fn debug_option(s: &Option<String>) -> (r: String)
    ensures
        r@ == debug_text(text_view(*s)),
        *s is None ==> r@ == "None"@,
        *s matches Some(t) ==> is_plain(t@) ==> r@ == "Some(\""@ + t@ + "\")"@,
{
    format!("{:?}", s)
}

/// Whether a file name is that of a manifest with an extension.
pub open spec fn names_manifest(name: Seq<char>, ext: Seq<char>) -> bool {
    ends_with(name, ext) && contains_text(name, "manifest"@)
}

/// Whether a file name is that of a manifest with an extension.
pub fn is_manifest_name(name: &str, ext: &str) -> (r: bool)
    ensures
        r == names_manifest(name@, ext@),
        r == (ends_with(name@, ext@) && contains_text(name@, "manifest"@)),
{
    text_ends_with(name, ext) && text_contains(name, "manifest")
}

/// The message on a field that differs; `quote` stands around both values.
pub open spec fn differs(
    fmt: Seq<char>,
    field: Seq<char>,
    truth: Seq<char>,
    got: Seq<char>,
    quote: Seq<char>,
) -> Seq<char> {
    "format "@ + fmt + ": "@ + field + " differs: ebml="@ + quote + truth + quote + ", got="@
        + quote + got + quote
}

/// A field of a track.
pub open spec fn track_field(id: u64, field: Seq<char>) -> Seq<char> {
    "track "@ + decimal(id as nat) + ": "@ + field
}

/// The name of a kind of track.
pub open spec fn kind_name(k: TrackKind) -> Seq<char> {
    match k {
        TrackKind::Video => "Video"@,
        TrackKind::Audio => "Audio"@,
        TrackKind::Subtitle => "Subtitle"@,
    }
}

/// A message if something holds, else none.
pub open spec fn only_if(b: bool, message: Seq<char>) -> Seq<Seq<char>> {
    if b {
        seq![message]
    } else {
        Seq::empty()
    }
}

/// Where the descriptions of the whole differ. Spacing and case of a title do not count.
/// An empty title is compared only where
/// `strict`; a year of 0, an empty language and an all-zero digest are not compared.
pub open spec fn head_faults(
    truth: ManifestModel,
    other: ManifestModel,
    fmt: Seq<char>,
    strict: bool,
) -> Seq<Seq<char>> {
    only_if(
        (strict || other.title.len() > 0) && !same_words(truth.title, other.title),
        differs(fmt, "title"@, truth.title, other.title, "'"@),
    ) + only_if(
        other.year != 0 && truth.year != other.year,
        differs(
            fmt,
            "year"@,
            decimal(truth.year as nat),
            decimal(other.year as nat),
            ""@,
        ),
    ) + only_if(
        other.original_language.len() > 0 && truth.original_language != other.original_language,
        differs(
            fmt,
            "original_language"@,
            truth.original_language,
            other.original_language,
            "'"@,
        ),
    ) + only_if(
        other.original_mkv_hash != Seq::new(32, |i: int| 0u8) && truth.original_mkv_hash
            != other.original_mkv_hash,
        "format "@ + fmt + ": original_mkv_hash differs"@,
    )
}

/// The first track, from number `k` on, with an id.
pub open spec fn track_from(tracks: Seq<TrackModel>, id: u64, k: nat) -> Option<TrackModel>
    decreases tracks.len() - k,
{
    if k >= tracks.len() {
        None
    } else if tracks[k as int].track_id == id {
        Some(tracks[k as int])
    } else {
        track_from(tracks, id, k + 1)
    }
}

/// Where two tracks differ. Spacing and case of a codec do not count; an empty codec and
/// a missing language or variant are not compared.
pub open spec fn pair_faults(t: TrackModel, o: TrackModel, fmt: Seq<char>) -> Seq<Seq<char>> {
    only_if(
        t.kind != o.kind,
        differs(fmt, track_field(t.track_id, "kind"@), kind_name(t.kind), kind_name(o.kind), ""@),
    ) + only_if(
        o.codec.len() > 0 && !same_words(t.codec, o.codec),
        differs(fmt, track_field(t.track_id, "codec"@), t.codec, o.codec, "'"@),
    ) + only_if(
        o.language is Some && t.language != o.language,
        differs(
            fmt,
            track_field(t.track_id, "language"@),
            shown_text(t.language),
            shown_text(o.language),
            "'"@,
        ),
    ) + only_if(
        o.variant is Some && t.variant != o.variant,
        differs(
            fmt,
            track_field(t.track_id, "variant"@),
            shown_text(t.variant),
            shown_text(o.variant),
            "'"@,
        ),
    )
}

/// Where a track differs from that with its id, or that there is none among tracks.
pub open spec fn track_faults(
    t: TrackModel,
    others: Seq<TrackModel>,
    fmt: Seq<char>,
) -> Seq<Seq<char>> {
    match track_from(others, t.track_id, 0) {
        Some(o) => pair_faults(t, o, fmt),
        None => only_if(
            others.len() > 0,
            "format "@ + fmt + ": track "@ + decimal(t.track_id as nat) + " missing from format"@,
        ),
    }
}

/// Where the first `n` tracks differ.
pub open spec fn tracks_faults(
    tracks: Seq<TrackModel>,
    others: Seq<TrackModel>,
    fmt: Seq<char>,
    n: nat,
) -> Seq<Seq<char>>
    decreases n,
{
    if n == 0 {
        Seq::empty()
    } else {
        tracks_faults(tracks, others, fmt, (n - 1) as nat) + track_faults(
            tracks[n - 1],
            others,
            fmt,
        )
    }
}

/// That the truth lacks the tracks among the first `n` of the other format whose id none
/// of its own has.
pub open spec fn extra_tracks(
    tracks: Seq<TrackModel>,
    others: Seq<TrackModel>,
    fmt: Seq<char>,
    n: nat,
) -> Seq<Seq<char>>
    decreases n,
{
    if n == 0 {
        Seq::empty()
    } else {
        let o = others[n - 1];
        extra_tracks(tracks, others, fmt, (n - 1) as nat) + only_if(
            track_from(tracks, o.track_id, 0) is None,
            "format "@ + fmt + ": track "@ + decimal(o.track_id as nat) + " missing from ebml"@,
        )
    }
}

/// The first variant, from number `k` on, with an id.
pub open spec fn variant_from(
    variants: Seq<VariantModel>,
    id: Seq<char>,
    k: nat,
) -> Option<VariantModel>
    decreases variants.len() - k,
{
    if k >= variants.len() {
        None
    } else if variants[k as int].id == id {
        Some(variants[k as int])
    } else {
        variant_from(variants, id, k + 1)
    }
}

/// Where a variant differs from that with its id, or that there is none among variants.
pub open spec fn variant_faults(
    v: VariantModel,
    others: Seq<VariantModel>,
    fmt: Seq<char>,
) -> Seq<Seq<char>> {
    match variant_from(others, v.id, 0) {
        Some(o) => only_if(
            !same_words(v.description, o.description),
            differs(
                fmt,
                "variant '"@ + v.id + "' description"@,
                v.description,
                o.description,
                "'"@,
            ),
        ),
        None => only_if(
            others.len() > 0,
            "format "@ + fmt + ": variant '"@ + v.id + "' missing"@,
        ),
    }
}

/// Where the first `n` variants differ.
pub open spec fn variants_faults(
    variants: Seq<VariantModel>,
    others: Seq<VariantModel>,
    fmt: Seq<char>,
    n: nat,
) -> Seq<Seq<char>>
    decreases n,
{
    if n == 0 {
        Seq::empty()
    } else {
        variants_faults(variants, others, fmt, (n - 1) as nat) + variant_faults(
            variants[n - 1],
            others,
            fmt,
        )
    }
}

/// That the truth lacks the variants among the first `n` of the other format whose id none
/// of its own has.
pub open spec fn extra_variants(
    variants: Seq<VariantModel>,
    others: Seq<VariantModel>,
    fmt: Seq<char>,
    n: nat,
) -> Seq<Seq<char>>
    decreases n,
{
    if n == 0 {
        Seq::empty()
    } else {
        let o = others[n - 1];
        extra_variants(variants, others, fmt, (n - 1) as nat) + only_if(
            variant_from(variants, o.id, 0) is None,
            "format "@ + fmt + ": variant '"@ + o.id + "' missing from ebml"@,
        )
    }
}

/// Where a format that carries all fields differs from the truth: its description, its
/// tracks and its variants, each list in both directions.
pub open spec fn all_faults(
    truth: ManifestModel,
    other: ManifestModel,
    fmt: Seq<char>,
) -> Seq<Seq<char>> {
    head_faults(truth, other, fmt, true) + tracks_faults(
        truth.tracks,
        other.tracks,
        fmt,
        truth.tracks.len(),
    ) + extra_tracks(truth.tracks, other.tracks, fmt, other.tracks.len()) + variants_faults(
        truth.variants_legend,
        other.variants_legend,
        fmt,
        truth.variants_legend.len(),
    ) + extra_variants(
        truth.variants_legend,
        other.variants_legend,
        fmt,
        other.variants_legend.len(),
    )
}

/// Where the formats that could be read differ from the truth.
pub open spec fn cross_faults(
    truth: ManifestModel,
    xml: Option<ManifestModel>,
    nfo: Option<ManifestModel>,
    md: Option<ManifestModel>,
) -> Seq<Seq<char>> {
    let x = match xml {
        Some(m) => all_faults(truth, m, "xml"@),
        None => Seq::empty(),
    };
    let n = match nfo {
        Some(m) => head_faults(truth, m, "nfo"@, false),
        None => Seq::empty(),
    };
    let d = match md {
        Some(m) => head_faults(truth, m, "md"@, false),
        None => Seq::empty(),
    };
    x + n + d
}

/// A manifest does not differ from itself, where no two of its tracks share an id, nor
/// two of its variants.
pub proof fn same_manifest_has_no_faults(m: ManifestModel, fmt: Seq<char>)
    requires
        forall|i: int, j: int|
            0 <= i < j < m.tracks.len() ==> (#[trigger] m.tracks[i]).track_id
                != (#[trigger] m.tracks[j]).track_id,
        forall|i: int, j: int|
            0 <= i < j < m.variants_legend.len() ==> (#[trigger] m.variants_legend[i]).id
                != (#[trigger] m.variants_legend[j]).id,
    ensures
        all_faults(m, m, fmt) == Seq::<Seq<char>>::empty(),
        head_faults(m, m, fmt, false) == Seq::<Seq<char>>::empty(),
{
    lemma_tracks_alike(m.tracks, fmt, m.tracks.len());
    lemma_variants_alike(m.variants_legend, fmt, m.variants_legend.len());
    assert(head_faults(m, m, fmt, false) =~= Seq::<Seq<char>>::empty());
    assert(head_faults(m, m, fmt, true) =~= Seq::<Seq<char>>::empty());
    assert(all_faults(m, m, fmt) =~= Seq::<Seq<char>>::empty());
}

/// A track that only one of the truth and a format with all fields has is told of, unless
/// the format has no tracks at all.
pub proof fn one_sided_tracks_are_told(truth: ManifestModel, other: ManifestModel, fmt: Seq<char>)
    requires
        other.tracks.len() > 0,
        (exists|i: int|
            0 <= i < other.tracks.len() && track_from(
                truth.tracks,
                (#[trigger] other.tracks[i]).track_id,
                0,
            ) is None) || (exists|i: int|
            0 <= i < truth.tracks.len() && track_from(
                other.tracks,
                (#[trigger] truth.tracks[i]).track_id,
                0,
            ) is None),
    ensures
        all_faults(truth, other, fmt).len() > 0,
{
    if exists|i: int|
        0 <= i < other.tracks.len() && track_from(
            truth.tracks,
            (#[trigger] other.tracks[i]).track_id,
            0,
        ) is None {
        let i = choose|i: int|
            0 <= i < other.tracks.len() && track_from(
                truth.tracks,
                (#[trigger] other.tracks[i]).track_id,
                0,
            ) is None;
        lemma_extra_told(truth.tracks, other.tracks, fmt, other.tracks.len(), i);
    } else {
        let i = choose|i: int|
            0 <= i < truth.tracks.len() && track_from(
                other.tracks,
                (#[trigger] truth.tracks[i]).track_id,
                0,
            ) is None;
        lemma_missing_told(truth.tracks, other.tracks, fmt, truth.tracks.len(), i);
    }
}

proof fn lemma_extra_told(
    tracks: Seq<TrackModel>,
    others: Seq<TrackModel>,
    fmt: Seq<char>,
    n: nat,
    i: int,
)
    requires
        0 <= i < n <= others.len(),
        track_from(tracks, others[i].track_id, 0) is None,
    ensures
        extra_tracks(tracks, others, fmt, n).len() > 0,
    decreases n,
{
    if i < n - 1 {
        lemma_extra_told(tracks, others, fmt, (n - 1) as nat, i);
    }
}

proof fn lemma_missing_told(
    tracks: Seq<TrackModel>,
    others: Seq<TrackModel>,
    fmt: Seq<char>,
    n: nat,
    i: int,
)
    requires
        others.len() > 0,
        0 <= i < n <= tracks.len(),
        track_from(others, tracks[i].track_id, 0) is None,
    ensures
        tracks_faults(tracks, others, fmt, n).len() > 0,
    decreases n,
{
    if i < n - 1 {
        lemma_missing_told(tracks, others, fmt, (n - 1) as nat, i);
    }
}

proof fn lemma_tracks_alike(tracks: Seq<TrackModel>, fmt: Seq<char>, n: nat)
    requires
        n <= tracks.len(),
        forall|i: int, j: int|
            0 <= i < j < tracks.len() ==> (#[trigger] tracks[i]).track_id != (
            #[trigger] tracks[j]).track_id,
    ensures
        tracks_faults(tracks, tracks, fmt, n) == Seq::<Seq<char>>::empty(),
        extra_tracks(tracks, tracks, fmt, n) == Seq::<Seq<char>>::empty(),
    decreases n,
{
    if n > 0 {
        lemma_tracks_alike(tracks, fmt, (n - 1) as nat);
        lemma_track_found(tracks, (n - 1) as nat, 0);
        assert(tracks_faults(tracks, tracks, fmt, n) =~= Seq::<Seq<char>>::empty());
        assert(extra_tracks(tracks, tracks, fmt, n) =~= Seq::<Seq<char>>::empty());
    }
}

proof fn lemma_track_found(tracks: Seq<TrackModel>, n: nat, k: nat)
    requires
        k <= n < tracks.len(),
        forall|i: int, j: int|
            0 <= i < j < tracks.len() ==> (#[trigger] tracks[i]).track_id != (
            #[trigger] tracks[j]).track_id,
    ensures
        track_from(tracks, tracks[n as int].track_id, k) == Some(tracks[n as int]),
    decreases n - k,
{
    if k < n {
        lemma_track_found(tracks, n, k + 1);
    }
}

proof fn lemma_variants_alike(variants: Seq<VariantModel>, fmt: Seq<char>, n: nat)
    requires
        n <= variants.len(),
        forall|i: int, j: int|
            0 <= i < j < variants.len() ==> (#[trigger] variants[i]).id != (
            #[trigger] variants[j]).id,
    ensures
        variants_faults(variants, variants, fmt, n) == Seq::<Seq<char>>::empty(),
        extra_variants(variants, variants, fmt, n) == Seq::<Seq<char>>::empty(),
    decreases n,
{
    if n > 0 {
        lemma_variants_alike(variants, fmt, (n - 1) as nat);
        lemma_variant_found(variants, (n - 1) as nat, 0);
        assert(variants_faults(variants, variants, fmt, n) =~= Seq::<Seq<char>>::empty());
        assert(extra_variants(variants, variants, fmt, n) =~= Seq::<Seq<char>>::empty());
    }
}

proof fn lemma_variant_found(variants: Seq<VariantModel>, n: nat, k: nat)
    requires
        k <= n < variants.len(),
        forall|i: int, j: int|
            0 <= i < j < variants.len() ==> (#[trigger] variants[i]).id != (
            #[trigger] variants[j]).id,
    ensures
        variant_from(variants, variants[n as int].id, k) == Some(variants[n as int]),
    decreases n - k,
{
    if k < n {
        lemma_variant_found(variants, n, k + 1);
    }
}

/// The message on a field that differs.
pub fn differs_text(fmt: &str, field: &str, truth: &str, got: &str, quote: &str) -> (r: String)
    ensures
        r@ == differs(fmt@, field@, truth@, got@, quote@),
{
    let mut s: String = "format ".to_owned();
    s.append(fmt);
    s.append(": ");
    s.append(field);
    s.append(" differs: ebml=");
    s.append(quote);
    s.append(truth);
    s.append(quote);
    s.append(", got=");
    s.append(quote);
    s.append(got);
    s.append(quote);
    s
}

fn field_text(id: u64, field: &str) -> (r: String)
    ensures
        r@ == track_field(id, field@),
{
    let mut s: String = "track ".to_owned();
    s.append(decimal_text(id as u128).as_str());
    s.append(": ");
    s.append(field);
    s
}

fn kind_text(k: TrackKind) -> (r: String)
    ensures
        r@ == kind_name(k),
{
    match k {
        TrackKind::Video => "Video".to_owned(),
        TrackKind::Audio => "Audio".to_owned(),
        TrackKind::Subtitle => "Subtitle".to_owned(),
    }
}

fn note(errors: &mut Vec<String>, s: String)
    ensures
        message_views(final(errors)@) == message_views(old(errors)@) + seq![s@],
{
    errors.push(s);
    assert(message_views(errors@) =~= message_views(old(errors)@) + seq![s@]);
}

fn same_option(a: &Option<String>, b: &Option<String>) -> (r: bool)
    ensures
        r == (text_view(*a) == text_view(*b)),
{
    match (a, b) {
        (Some(x), Some(y)) => same_text(x.as_str(), y.as_str()),
        (None, None) => true,
        _ => false,
    }
}

fn compare_head(
    truth: &Manifest,
    other: &Manifest,
    fmt: &str,
    strict: bool,
    errors: &mut Vec<String>,
)
    ensures
        message_views(final(errors)@) == message_views(old(errors)@) + head_faults(
            truth@,
            other@,
            fmt@,
            strict,
        ),
{
    if (strict || !other.title.as_str().is_empty()) && !eq_ignore_case(
        truth.title.as_str(),
        other.title.as_str(),
    ) {
        note(
            errors,
            differs_text(fmt, "title", truth.title.as_str(), other.title.as_str(), "'"),
        );
    }
    if other.year != 0 && truth.year != other.year {
        note(
            errors,
            differs_text(
                fmt,
                "year",
                decimal_text(truth.year as u128).as_str(),
                decimal_text(other.year as u128).as_str(),
                "",
            ),
        );
    }
    if !other.original_language.as_str().is_empty() && !same_text(
        truth.original_language.as_str(),
        other.original_language.as_str(),
    ) {
        note(
            errors,
            differs_text(
                fmt,
                "original_language",
                truth.original_language.as_str(),
                other.original_language.as_str(),
                "'",
            ),
        );
    }
    let zeros: [u8; 32] = [0u8; 32];
    assert(zeros@ =~= Seq::new(32, |i: int| 0u8));
    if !bytes_equal(&other.original_mkv_hash, &zeros) && !bytes_equal(
        &truth.original_mkv_hash,
        &other.original_mkv_hash,
    ) {
        let mut s: String = "format ".to_owned();
        s.append(fmt);
        s.append(": original_mkv_hash differs");
        note(errors, s);
    }
    assert(message_views(errors@) =~= message_views(old(errors)@) + head_faults(
        truth@,
        other@,
        fmt@,
        strict,
    ));
}

fn compare_pair(t: &ManifestTrack, o: &ManifestTrack, fmt: &str, errors: &mut Vec<String>)
    ensures
        message_views(final(errors)@) == message_views(old(errors)@) + pair_faults(t@, o@, fmt@),
{
    if t.kind != o.kind {
        let field: String = field_text(t.track_id, "kind");
        let a: String = kind_text(t.kind);
        let b: String = kind_text(o.kind);
        note(errors, differs_text(fmt, field.as_str(), a.as_str(), b.as_str(), ""));
    }
    if !o.codec.as_str().is_empty() && !eq_ignore_case(t.codec.as_str(), o.codec.as_str()) {
        let field: String = field_text(t.track_id, "codec");
        note(
            errors,
            differs_text(fmt, field.as_str(), t.codec.as_str(), o.codec.as_str(), "'"),
        );
    }
    if o.language.is_some() && !same_option(&t.language, &o.language) {
        let field: String = field_text(t.track_id, "language");
        let a: String = debug_option(&t.language);
        let b: String = debug_option(&o.language);
        note(errors, differs_text(fmt, field.as_str(), a.as_str(), b.as_str(), "'"));
    }
    if o.variant.is_some() && !same_option(&t.variant, &o.variant) {
        let field: String = field_text(t.track_id, "variant");
        let a: String = debug_option(&t.variant);
        let b: String = debug_option(&o.variant);
        note(errors, differs_text(fmt, field.as_str(), a.as_str(), b.as_str(), "'"));
    }
    assert(message_views(errors@) =~= message_views(old(errors)@) + pair_faults(t@, o@, fmt@));
}

fn compare_track(
    t: &ManifestTrack,
    others: &Vec<ManifestTrack>,
    fmt: &str,
    errors: &mut Vec<String>,
)
    ensures
        message_views(final(errors)@) == message_views(old(errors)@) + track_faults(
            t@,
            track_views(others@),
            fmt@,
        ),
{
    let ghost views = track_views(others@);
    let mut k: usize = 0;
    while k < others.len()
        invariant
            k <= others@.len(),
            views == track_views(others@),
            *errors == *old(errors),
            track_from(views, t.track_id, 0) == track_from(views, t.track_id, k as nat),
        decreases others@.len() - k,
    {
        assert(views[k as int] == others@[k as int]@);
        if others[k].track_id == t.track_id {
            compare_pair(t, &others[k], fmt, errors);
            return;
        }
        k = k + 1;
    }
    if others.len() > 0 {
        let mut s: String = "format ".to_owned();
        s.append(fmt);
        s.append(": track ");
        s.append(decimal_text(t.track_id as u128).as_str());
        s.append(" missing from format");
        note(errors, s);
    }
    assert(message_views(errors@) =~= message_views(old(errors)@) + track_faults(t@, views, fmt@));
}

fn compare_variant(
    v: &VariantEntry,
    others: &Vec<VariantEntry>,
    fmt: &str,
    errors: &mut Vec<String>,
)
    ensures
        message_views(final(errors)@) == message_views(old(errors)@) + variant_faults(
            v@,
            variant_views(others@),
            fmt@,
        ),
{
    let ghost views = variant_views(others@);
    let mut k: usize = 0;
    while k < others.len()
        invariant
            k <= others@.len(),
            views == variant_views(others@),
            *errors == *old(errors),
            variant_from(views, v.id@, 0) == variant_from(views, v.id@, k as nat),
        decreases others@.len() - k,
    {
        assert(views[k as int] == others@[k as int]@);
        if same_text(others[k].id.as_str(), v.id.as_str()) {
            let o: &VariantEntry = &others[k];
            if !eq_ignore_case(v.description.as_str(), o.description.as_str()) {
                let mut field: String = "variant '".to_owned();
                field.append(v.id.as_str());
                field.append("' description");
                note(
                    errors,
                    differs_text(
                        fmt,
                        field.as_str(),
                        v.description.as_str(),
                        o.description.as_str(),
                        "'",
                    ),
                );
            }
            assert(message_views(errors@) =~= message_views(old(errors)@) + variant_faults(
                v@,
                views,
                fmt@,
            ));
            return;
        }
        k = k + 1;
    }
    if others.len() > 0 {
        let mut s: String = "format ".to_owned();
        s.append(fmt);
        s.append(": variant '");
        s.append(v.id.as_str());
        s.append("' missing");
        note(errors, s);
    }
    assert(message_views(errors@) =~= message_views(old(errors)@) + variant_faults(
        v@,
        views,
        fmt@,
    ));
}

fn has_track(tracks: &Vec<ManifestTrack>, id: u64) -> (r: bool)
    ensures
        r == (track_from(track_views(tracks@), id, 0) is Some),
{
    let ghost views = track_views(tracks@);
    let mut k: usize = 0;
    while k < tracks.len()
        invariant
            k <= tracks@.len(),
            views == track_views(tracks@),
            track_from(views, id, 0) == track_from(views, id, k as nat),
        decreases tracks@.len() - k,
    {
        assert(views[k as int] == tracks@[k as int]@);
        if tracks[k].track_id == id {
            return true;
        }
        k = k + 1;
    }
    false
}

fn has_variant(variants: &Vec<VariantEntry>, id: &str) -> (r: bool)
    ensures
        r == (variant_from(variant_views(variants@), id@, 0) is Some),
{
    let ghost views = variant_views(variants@);
    let mut k: usize = 0;
    while k < variants.len()
        invariant
            k <= variants@.len(),
            views == variant_views(variants@),
            variant_from(views, id@, 0) == variant_from(views, id@, k as nat),
        decreases variants@.len() - k,
    {
        assert(views[k as int] == variants@[k as int]@);
        if same_text(variants[k].id.as_str(), id) {
            return true;
        }
        k = k + 1;
    }
    false
}

fn tell_extra_tracks(
    tracks: &Vec<ManifestTrack>,
    others: &Vec<ManifestTrack>,
    fmt: &str,
    errors: &mut Vec<String>,
)
    ensures
        message_views(final(errors)@) == message_views(old(errors)@) + extra_tracks(
            track_views(tracks@),
            track_views(others@),
            fmt@,
            others@.len(),
        ),
{
    let ghost start = message_views(errors@);
    let ghost own = track_views(tracks@);
    let ghost views = track_views(others@);
    let mut i: usize = 0;
    assert(start =~= start + extra_tracks(own, views, fmt@, 0));
    while i < others.len()
        invariant
            i <= others@.len(),
            own == track_views(tracks@),
            views == track_views(others@),
            message_views(errors@) == start + extra_tracks(own, views, fmt@, i as nat),
        decreases others@.len() - i,
    {
        assert(views[i as int] == others@[i as int]@);
        if !has_track(tracks, others[i].track_id) {
            let mut s: String = "format ".to_owned();
            s.append(fmt);
            s.append(": track ");
            s.append(decimal_text(others[i].track_id as u128).as_str());
            s.append(" missing from ebml");
            note(errors, s);
        }
        i = i + 1;
        assert(message_views(errors@) =~= start + extra_tracks(own, views, fmt@, i as nat));
    }
}

fn tell_extra_variants(
    variants: &Vec<VariantEntry>,
    others: &Vec<VariantEntry>,
    fmt: &str,
    errors: &mut Vec<String>,
)
    ensures
        message_views(final(errors)@) == message_views(old(errors)@) + extra_variants(
            variant_views(variants@),
            variant_views(others@),
            fmt@,
            others@.len(),
        ),
{
    let ghost start = message_views(errors@);
    let ghost own = variant_views(variants@);
    let ghost views = variant_views(others@);
    let mut i: usize = 0;
    assert(start =~= start + extra_variants(own, views, fmt@, 0));
    while i < others.len()
        invariant
            i <= others@.len(),
            own == variant_views(variants@),
            views == variant_views(others@),
            message_views(errors@) == start + extra_variants(own, views, fmt@, i as nat),
        decreases others@.len() - i,
    {
        assert(views[i as int] == others@[i as int]@);
        if !has_variant(variants, others[i].id.as_str()) {
            let mut s: String = "format ".to_owned();
            s.append(fmt);
            s.append(": variant '");
            s.append(others[i].id.as_str());
            s.append("' missing from ebml");
            note(errors, s);
        }
        i = i + 1;
        assert(message_views(errors@) =~= start + extra_variants(own, views, fmt@, i as nat));
    }
}

/// Full comparison, for a format that carries all fields.
pub fn compare(truth: &Manifest, other: &Manifest, fmt: &str, errors: &mut Vec<String>)
    ensures
        message_views(final(errors)@) == message_views(old(errors)@) + all_faults(
            truth@,
            other@,
            fmt@,
        ),
{
    let ghost start = message_views(errors@);
    let ghost head = head_faults(truth@, other@, fmt@, true);
    let ghost tracks = track_views(truth.tracks@);
    let ghost other_tracks = track_views(other.tracks@);
    compare_head(truth, other, fmt, true, errors);
    let mut i: usize = 0;
    assert(message_views(errors@) =~= start + head + tracks_faults(tracks, other_tracks, fmt@, 0));
    while i < truth.tracks.len()
        invariant
            i <= truth.tracks@.len(),
            tracks == track_views(truth.tracks@),
            other_tracks == track_views(other.tracks@),
            message_views(errors@) == start + head + tracks_faults(
                tracks,
                other_tracks,
                fmt@,
                i as nat,
            ),
        decreases truth.tracks@.len() - i,
    {
        compare_track(&truth.tracks[i], &other.tracks, fmt, errors);
        assert(tracks[i as int] == truth.tracks@[i as int]@);
        i = i + 1;
        assert(message_views(errors@) =~= start + head + tracks_faults(
            tracks,
            other_tracks,
            fmt@,
            i as nat,
        ));
    }
    let ghost told = message_views(errors@);
    tell_extra_tracks(&truth.tracks, &other.tracks, fmt, errors);
    let ghost upto = message_views(errors@);
    assert(upto =~= told + extra_tracks(tracks, other_tracks, fmt@, other_tracks.len()));
    let ghost variants = variant_views(truth.variants_legend@);
    let ghost other_variants = variant_views(other.variants_legend@);
    let mut j: usize = 0;
    assert(upto =~= upto + variants_faults(variants, other_variants, fmt@, 0));
    while j < truth.variants_legend.len()
        invariant
            j <= truth.variants_legend@.len(),
            variants == variant_views(truth.variants_legend@),
            other_variants == variant_views(other.variants_legend@),
            message_views(errors@) == upto + variants_faults(
                variants,
                other_variants,
                fmt@,
                j as nat,
            ),
        decreases truth.variants_legend@.len() - j,
    {
        compare_variant(&truth.variants_legend[j], &other.variants_legend, fmt, errors);
        assert(variants[j as int] == truth.variants_legend@[j as int]@);
        j = j + 1;
        assert(message_views(errors@) =~= upto + variants_faults(
            variants,
            other_variants,
            fmt@,
            j as nat,
        ));
    }
    tell_extra_variants(&truth.variants_legend, &other.variants_legend, fmt, errors);
    assert(message_views(errors@) =~= start + all_faults(truth@, other@, fmt@));
}

/// Comparison for a format that may lack fields: only what is not empty or zero is
/// compared.
pub fn compare_best_effort(truth: &Manifest, other: &Manifest, fmt: &str, errors: &mut Vec<String>)
    ensures
        message_views(final(errors)@) == message_views(old(errors)@) + head_faults(
            truth@,
            other@,
            fmt@,
            false,
        ),
{
    compare_head(truth, other, fmt, false, errors);
}

/// The model of a manifest that could be read.
pub open spec fn model_of(m: Option<Manifest>) -> Option<ManifestModel> {
    match m {
        Some(x) => Some(x@),
        None => None,
    }
}

/// Holds the formats that could be read against the truth.
pub fn cross_check(
    truth: &Manifest,
    xml: &Option<Manifest>,
    nfo: &Option<Manifest>,
    md: &Option<Manifest>,
) -> (r: Vec<String>)
    ensures
        message_views(r@) == cross_faults(truth@, model_of(*xml), model_of(*nfo), model_of(*md)),
{
    let mut errors: Vec<String> = Vec::new();
    if let Some(m) = xml {
        compare(truth, m, "xml", &mut errors);
    }
    if let Some(m) = nfo {
        compare_best_effort(truth, m, "nfo", &mut errors);
    }
    if let Some(m) = md {
        compare_best_effort(truth, m, "md", &mut errors);
    }
    assert(message_views(errors@) =~= cross_faults(
        truth@,
        model_of(*xml),
        model_of(*nfo),
        model_of(*md),
    ));
    errors
}

} // verus!
