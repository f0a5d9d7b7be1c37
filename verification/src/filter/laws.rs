//! What the filter promises: which tracks and files a user gets.
use crate::binstruct::EntryModel;
use crate::filter::prefs::Prefs;
use crate::filter::resolve::{
    audio_upto, best_preferred, best_upto, candidates, default_audio, filter_falls_back_to_all,
    filter_includes_no_other, filter_keeps_preferred_and_original, filter_keeps_video, has_id,
    included, is_preferred, is_wanted, lemma_best, none_preferred, preferred_upto, rank_from,
    resolved_default, with_original,
};
use crate::filter::subs::{is_track_part, shown_subs, split_parts, sub_fields, wanted_upto, SubFile};
use crate::filter::track_meta::{
    blob_fields, capitals, codec_name_of, entry_meta, kind_of_codec, mkv_id_at, mkv_size_at,
    scan_from, text_for, Found, MetaModel, TrackKind,
};
use crate::filter::validate::{is_resolution, prefs_faults, PrefsFault};
use crate::muxer::ebml::mkv_elem;
use crate::muxer::read_back::element_reads_back;
use crate::spelling::{decimal_reads_back, text_is_found_where_it_first_stands};
use crate::text::{begins_with, decimal, find_from, matches_at};
use crate::tools::scan_laws::{
    are_elems, elem_bytes, elems_bytes, id_number, ids_spell_their_numbers, is_elem, last_with,
    lemma_be_value_small, lemma_step, Elem,
};
use vstd::prelude::*;
use vstd::string::*;

verus! {

/// Whether some audio track is in a preferred language.
pub open spec fn some_preferred(tracks: Seq<MetaModel>, langs: Seq<Seq<char>>) -> bool {
    exists|i: int|
        0 <= i < tracks.len() && (#[trigger] tracks[i]).kind == TrackKind::Audio && langs.contains(
            tracks[i].language,
        )
}

/// Whether a track is for the user: video always; audio in a preferred language or in the
/// original one, or all of it where none is in a preferred language.
pub open spec fn is_for_the_user(
    t: MetaModel,
    tracks: Seq<MetaModel>,
    original: Seq<char>,
    langs: Seq<Seq<char>>,
) -> bool {
    match t.kind {
        TrackKind::Video => true,
        TrackKind::Audio => langs.contains(t.language) || t.language == original
            || !some_preferred(tracks, langs),
    }
}

/// The filter gives the ids of the tracks that are for the user, all of them and no others.
pub proof fn filter_gives_what_is_for_the_user(
    tracks: Seq<MetaModel>,
    original: Seq<char>,
    langs: Seq<Seq<char>>,
    id: u32,
)
    ensures
        included(tracks, original, langs).contains(id) <==> exists|i: int|
            0 <= i < tracks.len() && (#[trigger] tracks[i]).track_id == id && is_for_the_user(
                tracks[i],
                tracks,
                original,
                langs,
            ),
{
    assert(none_preferred(tracks, langs) == !some_preferred(tracks, langs));
    if included(tracks, original, langs).contains(id) {
        filter_includes_no_other(tracks, original, langs, id);
        let i = choose|i: int|
            0 <= i < tracks.len() && (#[trigger] tracks[i]).track_id == id && is_wanted(
                tracks[i],
                tracks,
                original,
                langs,
            );
        assert(is_for_the_user(tracks[i], tracks, original, langs));
    }
    if exists|i: int|
        0 <= i < tracks.len() && (#[trigger] tracks[i]).track_id == id && is_for_the_user(
            tracks[i],
            tracks,
            original,
            langs,
        ) {
        let i = choose|i: int|
            0 <= i < tracks.len() && (#[trigger] tracks[i]).track_id == id && is_for_the_user(
                tracks[i],
                tracks,
                original,
                langs,
            );
        if tracks[i].kind == TrackKind::Video {
            filter_keeps_video(tracks, original, langs);
        } else if some_preferred(tracks, langs) {
            let j = choose|j: int|
                0 <= j < tracks.len() && (#[trigger] tracks[j]).kind == TrackKind::Audio
                    && langs.contains(tracks[j].language);
            assert(is_preferred(tracks[j], langs));
            filter_keeps_preferred_and_original(tracks, original, langs);
        } else {
            filter_falls_back_to_all(tracks, original, langs);
        }
    }
}

/// Whether `r` is the place of a codec among the preferred ones, or their number where it is
/// not among them.
pub open spec fn is_rank(codecs: Seq<Seq<char>>, name: Seq<char>, r: nat) -> bool {
    &&& r <= codecs.len()
    &&& r < codecs.len() ==> codecs[r as int] == name
    &&& forall|q: int| 0 <= q < r ==> #[trigger] codecs[q] != name
}

proof fn lemma_rank(codecs: Seq<Seq<char>>, name: Seq<char>, k: nat)
    requires
        k <= codecs.len(),
        forall|q: int| 0 <= q < k ==> #[trigger] codecs[q] != name,
    ensures
        is_rank(codecs, name, rank_from(codecs, name, k)),
    decreases codecs.len() - k,
{
    if k < codecs.len() && codecs[k as int] != name {
        lemma_rank(codecs, name, k + 1);
    }
}

/// Whether a track is the best in its language: no other has a codec that is preferred to its
/// own, and none with the same preference has a lower id.
pub open spec fn is_best(set: Seq<MetaModel>, codecs: Seq<Seq<char>>, i: int) -> bool {
    &&& 0 <= i < set.len()
    &&& forall|j: int, r: nat, q: nat|
        0 <= j < set.len() && (#[trigger] set[j]).language == set[i].language && #[trigger] is_rank(
            codecs,
            set[i].codec_name,
            r,
        ) && #[trigger] is_rank(codecs, set[j].codec_name, q) ==> r < q || (r == q
            && set[i].track_id <= set[j].track_id)
}

/// Whether some track is in a language.
pub open spec fn speaks(set: Seq<MetaModel>, lang: Seq<char>) -> bool {
    exists|i: int| 0 <= i < set.len() && (#[trigger] set[i]).language == lang
}

proof fn lemma_same_rank(codecs: Seq<Seq<char>>, name: Seq<char>, a: nat, b: nat)
    requires
        is_rank(codecs, name, a),
        is_rank(codecs, name, b),
    ensures
        a == b,
{
    if a < b {
        assert(codecs[a as int] != name);
    } else if b < a {
        assert(codecs[b as int] != name);
    }
}

proof fn lemma_best_track(set: Seq<MetaModel>, lang: Seq<char>, codecs: Seq<Seq<char>>)
    ensures
        match best_upto(set, lang, codecs, set.len()) {
            Some(b) => exists|i: int| #[trigger]
                is_best(set, codecs, i) && set[i].language == lang && set[i].track_id == b.1,
            None => !speaks(set, lang),
        },
{
    lemma_best(set, lang, codecs, set.len());
    lemma_best_rank(set, lang, codecs, set.len());
    if let Some(b) = best_upto(set, lang, codecs, set.len()) {
        let i = choose|i: int|
            0 <= i < set.len() && (#[trigger] set[i]).language == lang && set[i].track_id == b.1
                && rank_from(codecs, set[i].codec_name, 0) == b.0;
        assert forall|j: int, r: nat, q: nat|
            0 <= j < set.len() && (#[trigger] set[j]).language == set[i].language
                && #[trigger] is_rank(codecs, set[i].codec_name, r) && #[trigger] is_rank(
                codecs,
                set[j].codec_name,
                q,
            ) implies r < q || (r == q && set[i].track_id <= set[j].track_id) by {
            lemma_rank(codecs, set[i].codec_name, 0);
            lemma_rank(codecs, set[j].codec_name, 0);
            lemma_same_rank(codecs, set[i].codec_name, r, b.0);
            lemma_same_rank(
                codecs,
                set[j].codec_name,
                q,
                rank_from(codecs, set[j].codec_name, 0),
            );
        }
        assert(is_best(set, codecs, i));
    }
}

proof fn lemma_best_rank(set: Seq<MetaModel>, lang: Seq<char>, codecs: Seq<Seq<char>>, n: nat)
    requires
        n <= set.len(),
    ensures
        match best_upto(set, lang, codecs, n) {
            Some(b) => exists|i: int|
                0 <= i < n && (#[trigger] set[i]).language == lang && set[i].track_id == b.1
                    && rank_from(codecs, set[i].codec_name, 0) == b.0,
            None => forall|i: int| 0 <= i < n ==> (#[trigger] set[i]).language != lang,
        },
    decreases n,
{
    if n > 0 {
        lemma_best_rank(set, lang, codecs, (n - 1) as nat);
        let before = best_upto(set, lang, codecs, (n - 1) as nat);
        if let Some(b) = best_upto(set, lang, codecs, n) {
            if before == Some(b) {
                let i = choose|i: int|
                    0 <= i < n - 1 && (#[trigger] set[i]).language == lang && set[i].track_id
                        == b.1 && rank_from(codecs, set[i].codec_name, 0) == b.0;
                assert(0 <= i < n && set[i].language == lang);
            } else {
                assert(set[n - 1].language == lang);
            }
        }
    }
}

/// The default audio track is the best in the first preferred language that has any; without
/// one, the best in the original language; without that, the original default.
pub proof fn default_is_the_best_in_the_first_language(
    set: Seq<MetaModel>,
    original: Seq<char>,
    original_default: u32,
    langs: Seq<Seq<char>>,
    codecs: Seq<Seq<char>>,
    k: int,
)
    requires
        0 <= k <= langs.len(),
        k < langs.len() ==> speaks(set, langs[k]),
        forall|j: int| 0 <= j < k ==> !speaks(set, #[trigger] langs[j]),
    ensures
        ({
            let id = default_audio(set, original, original_default, langs, codecs);
            let lang = if k < langs.len() {
                langs[k]
            } else {
                original
            };
            if speaks(set, lang) {
                exists|i: int| #[trigger]
                    is_best(set, codecs, i) && set[i].language == lang && set[i].track_id == id
            } else {
                id == original_default
            }
        }),
{
    lemma_first_language(set, langs, codecs, 0, k);
    lemma_best_track(set, original, codecs);
    if k < langs.len() {
        lemma_best_track(set, langs[k], codecs);
    }
}

/// So it is with the default track of a user, among the audio tracks that are kept.
pub proof fn default_of_a_user_is_the_best_of_theirs(
    tracks: Seq<MetaModel>,
    original: Seq<char>,
    original_default: u32,
    langs: Seq<Seq<char>>,
    codecs: Seq<Seq<char>>,
    k: int,
)
    requires
        0 <= k <= langs.len(),
        k < langs.len() ==> speaks(candidates(tracks, original, langs), langs[k]),
        forall|j: int|
            0 <= j < k ==> !speaks(candidates(tracks, original, langs), #[trigger] langs[j]),
    ensures
        ({
            let set = candidates(tracks, original, langs);
            let id = resolved_default(tracks, original, original_default, langs, codecs);
            let lang = if k < langs.len() {
                langs[k]
            } else {
                original
            };
            if speaks(set, lang) {
                exists|i: int| #[trigger]
                    is_best(set, codecs, i) && set[i].language == lang && set[i].track_id == id
            } else {
                id == original_default
            }
        }),
{
    default_is_the_best_in_the_first_language(
        candidates(tracks, original, langs),
        original,
        original_default,
        langs,
        codecs,
        k,
    );
}

proof fn lemma_first_language(
    set: Seq<MetaModel>,
    langs: Seq<Seq<char>>,
    codecs: Seq<Seq<char>>,
    from: nat,
    k: int,
)
    requires
        from <= k <= langs.len(),
        k < langs.len() ==> speaks(set, langs[k]),
        forall|j: int| 0 <= j < k ==> !speaks(set, #[trigger] langs[j]),
    ensures
        best_preferred(set, langs, codecs, from) == if k < langs.len() {
            match best_upto(set, langs[k], codecs, set.len()) {
                Some(b) => Some(b.1),
                None => None,
            }
        } else {
            None
        },
    decreases k - from,
{
    if from < k {
        lemma_best_track(set, langs[from as int], codecs);
        if let Some(b) = best_upto(set, langs[from as int], codecs, set.len()) {
            let i = choose|i: int| #[trigger]
                is_best(set, codecs, i) && set[i].language == langs[from as int]
                    && set[i].track_id == b.1;
            assert(set[i].language == langs[from as int]);
            assert(speaks(set, langs[from as int]));
        }
        lemma_first_language(set, langs, codecs, from + 1, k);
    } else if k < langs.len() {
        lemma_best_track(set, langs[k], codecs);
    }
}

/// The shown subtitle files are all that are in a wanted language, in order; or all files
/// where none is.
pub proof fn shown_subs_are_all_that_are_wanted(files: Seq<SubFile>, langs: Seq<Seq<char>>)
    ensures
        ({
            let shown = shown_subs(files, langs);
            &&& forall|a: int, b: int| 0 <= a < b < shown.len() ==> shown[a] < shown[b]
            &&& forall|i: int| #[trigger]
                shown.contains(i) <==> 0 <= i < files.len() && (langs.contains(files[i].language@)
                    || forall|j: int|
                    0 <= j < files.len() ==> !langs.contains((#[trigger] files[j]).language@))
        }),
{
    let w = wanted_upto(files, langs, files.len());
    lemma_wanted_places(files, langs, files.len());
    let shown = shown_subs(files, langs);
    if w.len() == 0 {
        assert forall|i: int| #[trigger] shown.contains(i) <==> 0 <= i < files.len() by {
            if 0 <= i < files.len() {
                assert(shown[i] == i);
            }
        }
        assert forall|j: int| 0 <= j < files.len() implies !langs.contains(
            (#[trigger] files[j]).language@,
        ) by {
            if langs.contains(files[j].language@) {
                assert(w.contains(j));
            }
        }
    } else {
        assert(w.contains(w[0]));
        assert(langs.contains(files[w[0]].language@));
    }
}

proof fn lemma_wanted_places(files: Seq<SubFile>, langs: Seq<Seq<char>>, n: nat)
    requires
        n <= files.len(),
    ensures
        ({
            let w = wanted_upto(files, langs, n);
            &&& forall|a: int, b: int| 0 <= a < b < w.len() ==> w[a] < w[b]
            &&& forall|a: int| 0 <= a < w.len() ==> 0 <= #[trigger] w[a] < n
            &&& forall|i: int| #[trigger]
                w.contains(i) <==> 0 <= i < n && langs.contains(files[i].language@)
        }),
    decreases n,
{
    if n > 0 {
        lemma_wanted_places(files, langs, (n - 1) as nat);
        let before = wanted_upto(files, langs, (n - 1) as nat);
        let w = wanted_upto(files, langs, n);
        assert forall|i: int| #[trigger] w.contains(i) <==> 0 <= i < n && langs.contains(
            files[i].language@,
        ) by {
            if w.contains(i) {
                let a = choose|a: int| 0 <= a < w.len() && w[a] == i;
                if a < before.len() {
                    assert(before[a] == i);
                    assert(before.contains(i));
                }
            }
            if 0 <= i < n && langs.contains(files[i].language@) {
                if i < n - 1 {
                    assert(before.contains(i));
                    let a = choose|a: int| 0 <= a < before.len() && before[a] == i;
                    assert(w[a] == i);
                } else {
                    assert(w[before.len() as int] == i);
                }
            }
        }
    }
}

/// Whether a text has no underscore.
pub open spec fn is_part(s: Seq<char>) -> bool {
    forall|i: int| 0 <= i < s.len() ==> #[trigger] s[i] != '_'
}

proof fn lemma_one_part(s: Seq<char>)
    requires
        is_part(s),
    ensures
        split_parts(s) == seq![s],
{
    text_is_found_where_it_first_stands(s, seq!['_'], 0);
    if let Some(k) = find_from(s, seq!['_'], 0) {
        assert(s.subrange(k, k + 1)[0] == s[k]);
    }
}

/// A part behind the last underscore is the last part.
#[verifier::rlimit(40)]
pub proof fn parts_stand_between_underscores(a: Seq<char>, b: Seq<char>)
    requires
        is_part(b),
    ensures
        split_parts(a + seq!['_'] + b) == split_parts(a).push(b),
        split_parts(b) == seq![b],
    decreases a.len(),
{
    let us = seq!['_'];
    let s = a + us + b;
    lemma_one_part(b);
    text_is_found_where_it_first_stands(a, us, 0);
    text_is_found_where_it_first_stands(s, us, 0);
    let n = a.len() as int;
    assert(s.subrange(n, n + 1) =~= us);
    assert(matches_at(s, us, n));
    let k = find_from(s, us, 0)->0;
    assert(k <= n);
    assert(s[k] == '_') by {
        assert(s.subrange(k, k + 1)[0] == s[k]);
    }
    match find_from(a, us, 0) {
        Some(j) => {
            assert(a.subrange(j, j + 1)[0] == a[j]);
            assert(s.subrange(j, j + 1) =~= us);
            assert(matches_at(s, us, j));
            assert(k <= j);
            if k < j {
                assert(a.subrange(k, k + 1) =~= us);
                assert(matches_at(a, us, k));
            }
            assert(k == j);
            assert(0 <= j < a.len());
            lemma_split_at(a, b, j);
            parts_stand_between_underscores(a.skip(j + 1), b);
            let rest = split_parts(a.skip(j + 1));
            assert(seq![a.take(j)] + rest.push(b) =~= (seq![a.take(j)] + rest).push(b));
        },
        None => {
            if k < n {
                assert(a.subrange(k, k + 1) =~= us);
                assert(matches_at(a, us, k));
            }
            assert(s.take(n) =~= a);
            assert(s.skip(n + 1) =~= b);
            assert(split_parts(a) == seq![a]);
            assert(seq![a] + seq![b] =~= seq![a].push(b));
        },
    }
}

proof fn lemma_split_at(a: Seq<char>, b: Seq<char>, j: int)
    requires
        0 <= j < a.len(),
    ensures
        (a + seq!['_'] + b).take(j) == a.take(j),
        (a + seq!['_'] + b).skip(j + 1) == a.skip(j + 1) + seq!['_'] + b,
{
    let s = a + seq!['_'] + b;
    assert(s.take(j) =~= a.take(j));
    assert(s.skip(j + 1) =~= a.skip(j + 1) + seq!['_'] + b);
}

/// A sidecar is told by the end of its name, whatever its base: `_s` with the number of the
/// track, the language, the variant, and the version with the extension.
pub proof fn sidecar_names_tell_language_and_variant(
    base: Seq<char>,
    digits: Seq<char>,
    lang: Seq<char>,
    variant: Seq<char>,
    tail: Seq<char>,
)
    requires
        digits.len() > 0,
        forall|i: int| 0 <= i < digits.len() ==> '0' <= #[trigger] digits[i] <= '9',
        is_part(lang),
        is_part(variant),
        is_part(tail),
    ensures
        sub_fields(
            base + seq!['_'] + (seq!['s'] + digits) + seq!['_'] + lang + seq!['_'] + variant + seq![
                '_',
            ] + tail,
        ) == if tail.contains('.') {
            Some((lang, variant))
        } else {
            None
        },
{
    let us = seq!['_'];
    let track = seq!['s'] + digits;
    assert(is_part(track)) by {
        assert forall|i: int| 0 <= i < track.len() implies #[trigger] track[i] != '_' by {
            if i > 0 {
                assert(track[i] == digits[i - 1]);
            }
        }
    }
    assert(is_track_part(track)) by {
        assert forall|i: int| 1 <= i < track.len() implies '0' <= #[trigger] track[i] <= '9' by {
            assert(track[i] == digits[i - 1]);
        }
    }
    let a = base + us + track;
    let b = a + us + lang;
    let c = b + us + variant;
    let d = c + us + tail;
    parts_stand_between_underscores(base, track);
    parts_stand_between_underscores(a, lang);
    parts_stand_between_underscores(b, variant);
    parts_stand_between_underscores(c, tail);
    let p = split_parts(d);
    assert(p == split_parts(base).push(track).push(lang).push(variant).push(tail));
    assert(p[p.len() - 4] == track);
}

/// Preferences are accepted exactly with at most five languages of each kind and a known
/// resolution or none; each fault is told once, in this order.
pub proof fn prefs_are_accepted_or_told(p: Prefs)
    ensures
        ({
            let f = prefs_faults(p);
            let audio = p.audio_langs@.len() > 5;
            let subs = p.sub_langs@.len() > 5;
            let resolution = p.video_resolution matches Some(r) && !is_resolution(r@);
            &&& f.len() == 0 <==> !audio && !subs && !resolution
            &&& f.contains(PrefsFault::TooManyAudioLangs(p.audio_langs@.len())) <==> audio
            &&& f.contains(PrefsFault::TooManySubLangs(p.sub_langs@.len())) <==> subs
            &&& resolution <==> (p.video_resolution matches Some(r) && f.contains(
                PrefsFault::InvalidResolution(r@),
            ))
        }),
{
    let f = prefs_faults(p);
    if p.audio_langs@.len() > 5 {
        assert(f[0] == PrefsFault::TooManyAudioLangs(p.audio_langs@.len()));
    }
    if p.sub_langs@.len() > 5 {
        let k: int = if p.audio_langs@.len() > 5 {
            1
        } else {
            0
        };
        assert(f[k] == PrefsFault::TooManySubLangs(p.sub_langs@.len()));
    }
    if let Some(r) = p.video_resolution {
        if !is_resolution(r@) {
            assert(f.last() == PrefsFault::InvalidResolution(r@));
        }
    }
}

/// Whether a track is one of the first `n`, and audio in a preferred language.
spec fn is_preferred_from(
    t: MetaModel,
    tracks: Seq<MetaModel>,
    langs: Seq<Seq<char>>,
    n: nat,
) -> bool {
    exists|i: int|
        0 <= i < n && #[trigger] tracks[i] == t && t.kind == TrackKind::Audio && langs.contains(
            t.language,
        )
}

/// Whether a track is one of the first `n`, and audio.
spec fn is_audio_from(t: MetaModel, tracks: Seq<MetaModel>, n: nat) -> bool {
    exists|i: int| 0 <= i < n && #[trigger] tracks[i] == t && t.kind == TrackKind::Audio
}

/// Whether a candidate is one of the tracks: audio, and for the user.
pub open spec fn is_candidate_from(
    t: MetaModel,
    tracks: Seq<MetaModel>,
    original: Seq<char>,
    langs: Seq<Seq<char>>,
) -> bool {
    exists|i: int|
        0 <= i < tracks.len() && #[trigger] tracks[i] == t && t.kind == TrackKind::Audio
            && is_for_the_user(t, tracks, original, langs)
}

/// The default is chosen among the audio tracks that are for the user.
pub proof fn candidates_are_the_audio_for_the_user(
    tracks: Seq<MetaModel>,
    original: Seq<char>,
    langs: Seq<Seq<char>>,
)
    ensures
        forall|k: int|
            0 <= k < candidates(tracks, original, langs).len() ==> is_candidate_from(
                #[trigger] candidates(tracks, original, langs)[k],
                tracks,
                original,
                langs,
            ),
        forall|i: int|
            0 <= i < tracks.len() && (#[trigger] tracks[i]).kind == TrackKind::Audio
                && is_for_the_user(tracks[i], tracks, original, langs) ==> has_id(
                candidates(tracks, original, langs),
                tracks[i].track_id,
            ),
{
    let n = tracks.len();
    let preferred = preferred_upto(tracks, langs, n);
    lemma_preferred_upto(tracks, langs, n);
    lemma_audio_upto(tracks, n);
    if preferred.len() == 0 {
        assert(!some_preferred(tracks, langs)) by {
            if some_preferred(tracks, langs) {
                let j = choose|j: int|
                    0 <= j < tracks.len() && (#[trigger] tracks[j]).kind == TrackKind::Audio
                        && langs.contains(tracks[j].language);
                assert(preferred.contains(tracks[j]));
            }
        }
        let set = audio_upto(tracks, n);
        assert forall|k: int| 0 <= k < set.len() implies is_candidate_from(
            #[trigger] set[k],
            tracks,
            original,
            langs,
        ) by {
            assert(is_audio_from(set[k], tracks, n));
            let i = choose|i: int|
                0 <= i < n && #[trigger] tracks[i] == set[k] && set[k].kind == TrackKind::Audio;
            assert(tracks[i] == set[k]);
        }
        assert forall|i: int|
            0 <= i < tracks.len() && (#[trigger] tracks[i]).kind == TrackKind::Audio implies has_id(
            set,
            tracks[i].track_id,
        ) by {
            assert(set.contains(tracks[i]));
            let k = choose|k: int| 0 <= k < set.len() && set[k] == tracks[i];
            assert(set[k].track_id == tracks[i].track_id);
        }
    } else {
        assert(is_preferred_from(preferred[0], tracks, langs, n));
        let j = choose|j: int|
            0 <= j < n && #[trigger] tracks[j] == preferred[0] && preferred[0].kind
                == TrackKind::Audio && langs.contains(preferred[0].language);
        assert(tracks[j].kind == TrackKind::Audio && langs.contains(tracks[j].language));
        assert(some_preferred(tracks, langs));
        assert forall|k: int| 0 <= k < preferred.len() implies is_candidate_from(
            #[trigger] preferred[k],
            tracks,
            original,
            langs,
        ) by {
            assert(is_preferred_from(preferred[k], tracks, langs, n));
            let i = choose|i: int|
                0 <= i < n && #[trigger] tracks[i] == preferred[k] && preferred[k].kind
                    == TrackKind::Audio && langs.contains(preferred[k].language);
            assert(tracks[i] == preferred[k]);
        }
        assert forall|i: int|
            0 <= i < tracks.len() && (#[trigger] tracks[i]).kind == TrackKind::Audio
                && langs.contains(tracks[i].language) implies has_id(
            preferred,
            tracks[i].track_id,
        ) by {
            assert(preferred.contains(tracks[i]));
            let k = choose|k: int| 0 <= k < preferred.len() && preferred[k] == tracks[i];
            assert(preferred[k].track_id == tracks[i].track_id);
        }
        lemma_original(preferred, tracks, original, langs, 0);
    }
}

proof fn lemma_preferred_upto(tracks: Seq<MetaModel>, langs: Seq<Seq<char>>, n: nat)
    requires
        n <= tracks.len(),
    ensures
        forall|k: int|
            0 <= k < preferred_upto(tracks, langs, n).len() ==> is_preferred_from(
                #[trigger] preferred_upto(tracks, langs, n)[k],
                tracks,
                langs,
                n,
            ),
        forall|i: int|
            0 <= i < n && (#[trigger] tracks[i]).kind == TrackKind::Audio && langs.contains(
                tracks[i].language,
            ) ==> preferred_upto(tracks, langs, n).contains(tracks[i]),
    decreases n,
{
    if n > 0 {
        let m = (n - 1) as nat;
        lemma_preferred_upto(tracks, langs, m);
        let before = preferred_upto(tracks, langs, m);
        let all = preferred_upto(tracks, langs, n);
        assert forall|k: int| 0 <= k < all.len() implies is_preferred_from(
            #[trigger] all[k],
            tracks,
            langs,
            n,
        ) by {
            if k < before.len() {
                assert(all[k] == before[k]);
                assert(is_preferred_from(before[k], tracks, langs, m));
                let i = choose|i: int|
                    0 <= i < m && #[trigger] tracks[i] == before[k] && before[k].kind
                        == TrackKind::Audio && langs.contains(before[k].language);
                assert(0 <= i < n && tracks[i] == all[k]);
            } else {
                assert(tracks[n - 1] == all[k]);
            }
        }
        assert forall|i: int|
            0 <= i < n && (#[trigger] tracks[i]).kind == TrackKind::Audio && langs.contains(
                tracks[i].language,
            ) implies all.contains(tracks[i]) by {
            if i < m {
                assert(before.contains(tracks[i]));
                let k = choose|k: int| 0 <= k < before.len() && before[k] == tracks[i];
                assert(all[k] == tracks[i]);
            } else {
                assert(all[before.len() as int] == tracks[i]);
            }
        }
    }
}

proof fn lemma_audio_upto(tracks: Seq<MetaModel>, n: nat)
    requires
        n <= tracks.len(),
    ensures
        forall|k: int|
            0 <= k < audio_upto(tracks, n).len() ==> is_audio_from(
                #[trigger] audio_upto(tracks, n)[k],
                tracks,
                n,
            ),
        forall|i: int|
            0 <= i < n && (#[trigger] tracks[i]).kind == TrackKind::Audio ==> audio_upto(
                tracks,
                n,
            ).contains(tracks[i]),
    decreases n,
{
    if n > 0 {
        let m = (n - 1) as nat;
        lemma_audio_upto(tracks, m);
        let before = audio_upto(tracks, m);
        let all = audio_upto(tracks, n);
        assert forall|k: int| 0 <= k < all.len() implies is_audio_from(
            #[trigger] all[k],
            tracks,
            n,
        ) by {
            if k < before.len() {
                assert(all[k] == before[k]);
                assert(is_audio_from(before[k], tracks, m));
                let i = choose|i: int|
                    0 <= i < m && #[trigger] tracks[i] == before[k] && before[k].kind
                        == TrackKind::Audio;
                assert(0 <= i < n && tracks[i] == all[k]);
            } else {
                assert(tracks[n - 1] == all[k]);
            }
        }
        assert forall|i: int|
            0 <= i < n && (#[trigger] tracks[i]).kind == TrackKind::Audio implies all.contains(
            tracks[i],
        ) by {
            if i < m {
                assert(before.contains(tracks[i]));
                let k = choose|k: int| 0 <= k < before.len() && before[k] == tracks[i];
                assert(all[k] == tracks[i]);
            } else {
                assert(all[before.len() as int] == tracks[i]);
            }
        }
    }
}

proof fn lemma_original(
    set: Seq<MetaModel>,
    tracks: Seq<MetaModel>,
    original: Seq<char>,
    langs: Seq<Seq<char>>,
    k: nat,
)
    requires
        forall|j: int|
            0 <= j < set.len() ==> is_candidate_from(#[trigger] set[j], tracks, original, langs),
    ensures
        ({
            let r = with_original(set, tracks, original, k);
            &&& forall|j: int|
                0 <= j < r.len() ==> is_candidate_from(#[trigger] r[j], tracks, original, langs)
            &&& forall|id: u32| has_id(set, id) ==> #[trigger] has_id(r, id)
            &&& forall|i: int|
                k <= i < tracks.len() && (#[trigger] tracks[i]).kind == TrackKind::Audio
                    && tracks[i].language == original ==> has_id(r, tracks[i].track_id)
        }),
    decreases tracks.len() - k,
{
    if k < tracks.len() {
        let t = tracks[k as int];
        let r = with_original(set, tracks, original, k);
        if t.kind == TrackKind::Audio && t.language == original && !has_id(set, t.track_id) {
            let next = set.push(t);
            assert(is_candidate_from(t, tracks, original, langs));
            assert forall|j: int| 0 <= j < next.len() implies is_candidate_from(
                #[trigger] next[j],
                tracks,
                original,
                langs,
            ) by {
                if j < set.len() {
                    assert(next[j] == set[j]);
                }
            }
            lemma_original(next, tracks, original, langs, k + 1);
            assert(r == with_original(next, tracks, original, k + 1));
            assert(next[set.len() as int].track_id == t.track_id);
            assert(has_id(next, t.track_id));
            assert forall|id: u32| has_id(set, id) implies #[trigger] has_id(r, id) by {
                let j = choose|j: int| 0 <= j < set.len() && (#[trigger] set[j]).track_id == id;
                assert(next[j].track_id == id);
                assert(has_id(next, id));
            }
        } else {
            lemma_original(set, tracks, original, langs, k + 1);
            assert(r == with_original(set, tracks, original, k + 1));
        }
    }
}

/// A resolution is known by its number of lines, or as `4k`.
pub proof fn resolutions_are_lines_or_4k(lines: nat)
    ensures
        is_resolution("4k"@),
        is_resolution(decimal(lines) + "p"@) <==> lines == 1440 || lines == 1080 || lines == 720
            || lines == 540 || lines == 480 || lines == 360 || lines == 240,
{
    reveal_strlit("4k");
    reveal_strlit("p");
    reveal_strlit("1440p");
    reveal_strlit("1080p");
    reveal_strlit("720p");
    reveal_strlit("540p");
    reveal_strlit("480p");
    reveal_strlit("360p");
    reveal_strlit("240p");
    let s = decimal(lines) + "p"@;
    assert(s.drop_last() =~= decimal(lines));
    decimal_reads_back(lines);
    decimal_reads_back(1440);
    decimal_reads_back(1080);
    decimal_reads_back(720);
    decimal_reads_back(540);
    decimal_reads_back(480);
    decimal_reads_back(360);
    decimal_reads_back(240);
    reveal_with_fuel(decimal, 5);
    assert("1440p"@ =~= decimal(1440) + "p"@);
    assert("1080p"@ =~= decimal(1080) + "p"@);
    assert("720p"@ =~= decimal(720) + "p"@);
    assert("540p"@ =~= decimal(540) + "p"@);
    assert("480p"@ =~= decimal(480) + "p"@);
    assert("360p"@ =~= decimal(360) + "p"@);
    assert("240p"@ =~= decimal(240) + "p"@);
    assert(s.last() == 'p' && "4k"@.last() == 'k');
    assert("1440p"@.drop_last() =~= decimal(1440));
    assert("1080p"@.drop_last() =~= decimal(1080));
    assert("720p"@.drop_last() =~= decimal(720));
    assert("540p"@.drop_last() =~= decimal(540));
    assert("480p"@.drop_last() =~= decimal(480));
    assert("360p"@.drop_last() =~= decimal(360));
    assert("240p"@.drop_last() =~= decimal(240));
}

/// A codec id tells the kind of its track by its first two characters, and its codec by the
/// rest: video for `V_`, else audio.
pub proof fn codecs_are_told_by_their_ids(upper: Seq<char>)
    ensures
        (kind_of_codec(upper) == TrackKind::Video) == begins_with(upper, "V_"@),
        codec_name_of("V_MPEG4/ISO/AVC"@) == "h264"@,
        codec_name_of("V_MPEGH/ISO/HEVC"@) == "h265"@,
        codec_name_of("V_AV1"@) == "av1"@,
        codec_name_of("A_AC3"@) == "ac3"@,
        codec_name_of("A_EAC3"@) == "eac3"@,
        codec_name_of("A_TRUEHD"@) == "truehd"@,
        codec_name_of("A_DTS"@) == "dts"@,
        codec_name_of("A_DTS/MA"@) == "dts"@,
        codec_name_of("A_AAC"@) == "aac"@,
        codec_name_of("A_AAC/MPEG2/LC"@) == "aac"@,
        codec_name_of("A_AAC/MPEG4/LC"@) == "aac"@,
        codec_name_of("A_MPEG/L3"@) == "mp3"@,
{
    reveal_strlit("V_MPEG4/ISO/AVC");
    reveal_strlit("V_MPEGH/ISO/HEVC");
    reveal_strlit("V_AV1");
    reveal_strlit("A_AC3");
    reveal_strlit("A_EAC3");
    reveal_strlit("A_TRUEHD");
    reveal_strlit("A_DTS");
    reveal_strlit("A_DTS/MA");
    reveal_strlit("A_AAC");
    reveal_strlit("A_AAC/MPEG2/LC");
    reveal_strlit("A_AAC/MPEG4/LC");
    reveal_strlit("A_MPEG/L3");
    assert("V_MPEG4/ISO/AVC"@.len() == 15);
    assert("V_MPEGH/ISO/HEVC"@.len() == 16);
    assert("V_AV1"@.len() == 5);
    assert("A_AC3"@.len() == 5);
    assert("A_EAC3"@.len() == 6);
    assert("A_TRUEHD"@.len() == 8);
    assert("A_DTS"@.len() == 5);
    assert("A_DTS/MA"@.len() == 8);
    assert("A_AAC"@.len() == 5);
    assert("A_AAC/MPEG2/LC"@.len() == 14);
    assert("A_AAC/MPEG4/LC"@.len() == 14);
    assert("A_MPEG/L3"@.len() == 9);
    assert("V_AV1"@[0] == 'V' && "A_AC3"@[0] == 'A' && "A_DTS"@[0] == 'A' && "A_AAC"@[0] == 'A');
    assert("A_AC3"@[3] == 'C' && "A_DTS"@[3] == 'T' && "A_AAC"@[3] == 'A');
    assert("A_TRUEHD"@[2] == 'T' && "A_DTS/MA"@[2] == 'D');
    assert("A_AAC/MPEG2/LC"@[10] == '2' && "A_AAC/MPEG4/LC"@[10] == '4');
}

/// Whether scanning a payload finds neither codec id nor language.
pub open spec fn is_inert(payload: Seq<u8>) -> bool {
    forall|st: Found| #[trigger] scan_from(payload, st, 0) == st
}

/// A text for the bytes of a child, or another where there is none.
pub open spec fn told_or(p: Option<Seq<u8>>, other: Seq<char>) -> Seq<char> {
    match p {
        Some(b) => text_for(b),
        None => other,
    }
}

/// A track entry tells codec id and language by its children with those ids, the last of each,
/// where nothing in the other children looks like one; a missing language is `und`.
pub proof fn track_entries_tell_codec_and_language(children: Seq<Elem>)
    requires
        are_elems(children),
        elems_bytes(children).len() < 0xFF_FFFF_FFFF_FFFF,
        forall|i: int|
            0 <= i < children.len() && (#[trigger] children[i]).id != seq![0x86u8]
                && children[i].id != seq![0x22u8, 0xB5u8, 0x9Cu8] ==> is_inert(children[i].payload),
    ensures
        ({
            let f = blob_fields(mkv_elem(seq![0xAEu8], elems_bytes(children)));
            let language = told_or(
                last_with(children, seq![0x22u8, 0xB5u8, 0x9Cu8]),
                Seq::empty(),
            );
            &&& f.codec_id == told_or(last_with(children, seq![0x86u8]), Seq::empty())
            &&& f.language == if language.len() == 0 {
                "und"@
            } else {
                language
            }
        }),
{
    let nil = Seq::<u8>::empty();
    let none = Seq::<Elem>::empty();
    let payload = elems_bytes(children);
    let outer = Elem { id: seq![0xAEu8], payload };
    let st = Found { codec_id: Seq::empty(), language: Seq::empty() };
    let inside = scan_from(payload, st, 0);
    assert(nil + (payload + nil) =~= payload);
    assert(none + children =~= children);
    lemma_scan_children(none, nil, children);
    let one = seq![outer];
    assert(one.skip(1) =~= none);
    assert(elems_bytes(one.skip(1)) =~= nil);
    assert(elems_bytes(one) =~= elem_bytes(outer));
    assert(nil + (elems_bytes(one) + nil) =~= elem_bytes(outer));
    lemma_scan_step(st, nil, one);
    lemma_be_value_small(outer.id);
    let b = elem_bytes(outer);
    assert(scan_from(b, st, 0) == scan_from(b, inside, b.len() as int));
    assert(scan_from(b, inside, b.len() as int) == inside);
}

/// One child further on.
proof fn lemma_scan_step(st: Found, before: Seq<u8>, elems: Seq<Elem>)
    requires
        are_elems(elems),
        elems.len() > 0,
    ensures
        ({
            let d = before + (elems_bytes(elems) + Seq::empty());
            let e = elems[0];
            let b = elem_bytes(e);
            let pos = before.len() as int;
            &&& d == (before + b) + (elems_bytes(elems.skip(1)) + Seq::empty())
            &&& are_elems(elems.skip(1))
            &&& scan_from(d, st, pos) == scan_from(
                d,
                if id_number(e.id) == 0x86 {
                    Found { codec_id: text_for(e.payload), ..st }
                } else if id_number(e.id) == 0x22B59C {
                    Found { language: text_for(e.payload), ..st }
                } else {
                    scan_from(e.payload, st, 0)
                },
                pos + b.len(),
            )
        }),
{
    let nil = Seq::<u8>::empty();
    let d = before + (elems_bytes(elems) + nil);
    let e = elems[0];
    let b = elem_bytes(e);
    let pos = before.len() as int;
    assert(is_elem(e));
    lemma_step(before, elems, nil);
    let after = elems_bytes(elems.skip(1)) + nil;
    element_reads_back(e.id, e.payload, after);
    let w = e.id.len() as int;
    let start = pos + b.len() - e.payload.len();
    assert(d.subrange(pos, pos + w) =~= b.take(w));
    assert(d[pos] == b.take(w)[0]);
    assert(d.skip(pos + w) =~= (b + after).skip(w));
    assert(mkv_id_at(d, pos) == Some((id_number(e.id), pos + w)));
    assert(mkv_size_at(d, pos + w) == Some((e.payload.len() as u64, start)));
}

proof fn lemma_scan_children(done: Seq<Elem>, before: Seq<u8>, elems: Seq<Elem>)
    requires
        are_elems(elems),
        forall|i: int|
            0 <= i < elems.len() && (#[trigger] elems[i]).id != seq![0x86u8] && elems[i].id != seq![
                0x22u8,
                0xB5u8,
                0x9Cu8,
            ] ==> is_inert(elems[i].payload),
    ensures
        scan_from(
            before + (elems_bytes(elems) + Seq::empty()),
            Found {
                codec_id: told_or(last_with(done, seq![0x86u8]), Seq::empty()),
                language: told_or(last_with(done, seq![0x22u8, 0xB5u8, 0x9Cu8]), Seq::empty()),
            },
            before.len() as int,
        ) == (Found {
            codec_id: told_or(last_with(done + elems, seq![0x86u8]), Seq::empty()),
            language: told_or(last_with(done + elems, seq![0x22u8, 0xB5u8, 0x9Cu8]), Seq::empty()),
        }),
    decreases elems.len(),
{
    let nil = Seq::<u8>::empty();
    let codec = seq![0x86u8];
    let lang = seq![0x22u8, 0xB5u8, 0x9Cu8];
    if elems.len() > 0 {
        let e = elems[0];
        let st = Found {
            codec_id: told_or(last_with(done, codec), Seq::empty()),
            language: told_or(last_with(done, lang), Seq::empty()),
        };
        assert(is_elem(e));
        lemma_scan_step(st, before, elems);
        ids_spell_their_numbers(codec, e.id);
        ids_spell_their_numbers(lang, e.id);
        lemma_be_value_small(codec);
        lemma_be_value_small(lang);
        assert(codec.len() != lang.len());
        let tail = elems.skip(1);
        assert forall|i: int|
            0 <= i < tail.len() && (#[trigger] tail[i]).id != codec && tail[i].id
                != lang implies is_inert(tail[i].payload) by {
            assert(tail[i] == elems[i + 1]);
        }
        assert(done.push(e).drop_last() =~= done);
        assert(done.push(e).last() == e);
        if e.id != codec && e.id != lang {
            assert(is_inert(e.payload));
            assert(scan_from(e.payload, st, 0) == st);
        }
        lemma_scan_children(done.push(e), before + elem_bytes(e), tail);
        assert(done.push(e) + tail =~= done + elems);
    } else {
        assert(done + elems =~= done);
    }
}

/// What is told of a track is what its entry tells: its id in 32 bits, codec id and language as
/// they are, and kind and codec by the codec id in capitals.
pub proof fn tracks_are_told_by_their_entries(e: EntryModel)
    ensures
        ({
            let m = entry_meta(e);
            let f = blob_fields(e.bytes);
            &&& m.track_id == e.track_id as u32
            &&& m.codec_id == f.codec_id
            &&& m.language == f.language
            &&& m.kind == kind_of_codec(capitals(f.codec_id))
            &&& m.codec_name == codec_name_of(capitals(f.codec_id))
        }),
{
}

} // verus!
