//! Which tracks a virtual file holds, and which audio track is its default.
use crate::filter::prefs::{is_among, texts, Prefs};
use crate::filter::track_meta::{meta_views, MetaModel, TrackKind, TrackMeta};
use crate::ids::{ascending, ascending_is_sorted_set, is_ascending, sorted_ids};
use crate::text::same_text;
use vstd::prelude::*;

verus! {

/// Result of audio/video track resolution.
#[derive(Clone, Debug, PartialEq, Eq)]
pub struct TrackFilter {
    /// Track IDs included in the virtual MKV (all video + filtered audio), sorted.
    pub included_track_ids: Vec<u32>,
    /// Which included audio track carries FlagDefault=1.
    pub default_audio_track_id: u32,
}

/// The audio tracks among the first `n`.
pub open spec fn audio_upto(tracks: Seq<MetaModel>, n: nat) -> Seq<MetaModel>
    decreases n,
{
    if n == 0 {
        Seq::empty()
    } else {
        let before = audio_upto(tracks, (n - 1) as nat);
        if tracks[n - 1].kind == TrackKind::Audio {
            before.push(tracks[n - 1])
        } else {
            before
        }
    }
}

/// Whether a track is audio in a preferred language.
pub open spec fn is_preferred(t: MetaModel, langs: Seq<Seq<char>>) -> bool {
    t.kind == TrackKind::Audio && langs.contains(t.language)
}

/// The audio tracks in a preferred language among the first `n`.
pub open spec fn preferred_upto(tracks: Seq<MetaModel>, langs: Seq<Seq<char>>, n: nat) -> Seq<
    MetaModel,
>
    decreases n,
{
    if n == 0 {
        Seq::empty()
    } else {
        let before = preferred_upto(tracks, langs, (n - 1) as nat);
        if is_preferred(tracks[n - 1], langs) {
            before.push(tracks[n - 1])
        } else {
            before
        }
    }
}

/// Whether a track with this id is among `set`.
pub open spec fn has_id(set: Seq<MetaModel>, id: u32) -> bool {
    exists|i: int| 0 <= i < set.len() && (#[trigger] set[i]).track_id == id
}

/// `set` with the audio tracks in the original language, from number `k` on, whose id
/// it does not have.
pub open spec fn with_original(
    set: Seq<MetaModel>,
    tracks: Seq<MetaModel>,
    original: Seq<char>,
    k: nat,
) -> Seq<MetaModel>
    decreases tracks.len() - k,
{
    if k >= tracks.len() {
        set
    } else {
        let t = tracks[k as int];
        if t.kind == TrackKind::Audio && t.language == original && !has_id(set, t.track_id) {
            with_original(set.push(t), tracks, original, k + 1)
        } else {
            with_original(set, tracks, original, k + 1)
        }
    }
}

/// The audio tracks to keep: those in preferred languages and in the original one;
/// all where none is in a preferred language.
pub open spec fn candidates(
    tracks: Seq<MetaModel>,
    original: Seq<char>,
    langs: Seq<Seq<char>>,
) -> Seq<MetaModel> {
    let preferred = preferred_upto(tracks, langs, tracks.len());
    if preferred.len() == 0 {
        audio_upto(tracks, tracks.len())
    } else {
        with_original(preferred, tracks, original, 0)
    }
}

/// The ids of the video tracks among the first `n`.
pub open spec fn video_ids_upto(tracks: Seq<MetaModel>, n: nat) -> Seq<u32>
    decreases n,
{
    if n == 0 {
        Seq::empty()
    } else {
        let before = video_ids_upto(tracks, (n - 1) as nat);
        if tracks[n - 1].kind == TrackKind::Video {
            before.push(tracks[n - 1].track_id)
        } else {
            before
        }
    }
}

/// The ids of tracks.
pub open spec fn ids_of(set: Seq<MetaModel>) -> Seq<u32> {
    Seq::new(set.len(), |i: int| set[i].track_id)
}

/// The ids of all video tracks and of the audio tracks to keep, ascending.
pub open spec fn included(
    tracks: Seq<MetaModel>,
    original: Seq<char>,
    langs: Seq<Seq<char>>,
) -> Seq<u32> {
    ascending(
        video_ids_upto(tracks, tracks.len()) + ids_of(candidates(tracks, original, langs)),
    )
}

/// The place of a codec among the preferred ones from number `k` on; their number
/// where it is not among them.
pub open spec fn rank_from(codecs: Seq<Seq<char>>, name: Seq<char>, k: nat) -> nat
    decreases codecs.len() - k,
{
    if k >= codecs.len() {
        codecs.len()
    } else if codecs[k as int] == name {
        k
    } else {
        rank_from(codecs, name, k + 1)
    }
}

/// Whether a rank and an id come before others: the better rank, then the lower id.
pub open spec fn comes_before(a: (nat, u32), b: (nat, u32)) -> bool {
    a.0 < b.0 || (a.0 == b.0 && a.1 < b.1)
}

/// The best rank and id among the tracks in a language, of the first `n` tracks.
pub open spec fn best_upto(
    set: Seq<MetaModel>,
    lang: Seq<char>,
    codecs: Seq<Seq<char>>,
    n: nat,
) -> Option<(nat, u32)>
    decreases n,
{
    if n == 0 {
        None
    } else {
        let before = best_upto(set, lang, codecs, (n - 1) as nat);
        let t = set[n - 1];
        let key = (rank_from(codecs, t.codec_name, 0), t.track_id);
        if t.language != lang {
            before
        } else if before is None || comes_before(key, before->0) {
            Some(key)
        } else {
            before
        }
    }
}

/// The best track in the first preferred language, from number `k` on, that has one.
pub open spec fn best_preferred(
    set: Seq<MetaModel>,
    langs: Seq<Seq<char>>,
    codecs: Seq<Seq<char>>,
    k: nat,
) -> Option<u32>
    decreases langs.len() - k,
{
    if k >= langs.len() {
        None
    } else {
        match best_upto(set, langs[k as int], codecs, set.len()) {
            Some(best) => Some(best.1),
            None => best_preferred(set, langs, codecs, k + 1),
        }
    }
}

/// The default audio track: the best in the first preferred language that has tracks,
/// else the best in the original language, else the original default.
pub open spec fn default_audio(
    set: Seq<MetaModel>,
    original: Seq<char>,
    original_default: u32,
    langs: Seq<Seq<char>>,
    codecs: Seq<Seq<char>>,
) -> u32 {
    match best_preferred(set, langs, codecs, 0) {
        Some(id) => id,
        None => match best_upto(set, original, codecs, set.len()) {
            Some(best) => best.1,
            None => original_default,
        },
    }
}

/// The default audio track of a user: that among the audio tracks to keep.
pub open spec fn resolved_default(
    tracks: Seq<MetaModel>,
    original: Seq<char>,
    original_default: u32,
    langs: Seq<Seq<char>>,
    codecs: Seq<Seq<char>>,
) -> u32 {
    default_audio(
        candidates(tracks, original, langs),
        original,
        original_default,
        langs,
        codecs,
    )
}

/// The tracks at the given places.
spec fn at_places(tracks: Seq<MetaModel>, places: Seq<usize>) -> Seq<MetaModel> {
    Seq::new(places.len(), |i: int| tracks[places[i] as int])
}

/// Whether places are places of tracks.
spec fn places_ok(places: Seq<usize>, n: nat) -> bool {
    forall|i: int| 0 <= i < places.len() ==> (#[trigger] places[i]) < n
}

fn rank_of(codecs: &Vec<String>, name: &str) -> (r: usize)
    ensures
        r == rank_from(texts(codecs@), name@, 0),
{
    let mut k: usize = 0;
    while k < codecs.len()
        invariant
            k <= codecs@.len(),
            rank_from(texts(codecs@), name@, 0) == rank_from(texts(codecs@), name@, k as nat),
        decreases codecs@.len() - k,
    {
        assert(texts(codecs@)[k as int] == codecs@[k as int]@);
        if same_text(codecs[k].as_str(), name) {
            return k;
        }
        k = k + 1;
    }
    k
}

/// The best track in a language among those at `places`.
fn best_codec_track(
    tracks: &[TrackMeta],
    places: &Vec<usize>,
    lang: &str,
    audio_codec: &Vec<String>,
) -> (r: Option<u32>)
    requires
        places_ok(places@, tracks@.len()),
    ensures
        match best_upto(
            at_places(meta_views(tracks@), places@),
            lang@,
            texts(audio_codec@),
            places@.len(),
        ) {
            Some(best) => r == Some(best.1),
            None => r is None,
        },
{
    let ghost set = at_places(meta_views(tracks@), places@);
    let mut best: Option<(usize, u32)> = None;
    let mut i: usize = 0;
    while i < places.len()
        invariant
            places_ok(places@, tracks@.len()),
            set == at_places(meta_views(tracks@), places@),
            i <= places@.len(),
            match best_upto(set, lang@, texts(audio_codec@), i as nat) {
                Some(b) => best matches Some(p) && p.0 == b.0 && p.1 == b.1,
                None => best is None,
            },
        decreases places@.len() - i,
    {
        let t: &TrackMeta = &tracks[places[i]];
        assert(set[i as int] == t@);
        if same_text(t.language.as_str(), lang) {
            let rank: usize = rank_of(audio_codec, t.codec_name.as_str());
            best = match best {
                None => Some((rank, t.track_id)),
                Some((r, id)) => if rank < r || (rank == r && t.track_id < id) {
                    Some((rank, t.track_id))
                } else {
                    Some((r, id))
                },
            };
        }
        i = i + 1;
    }
    match best {
        Some((_, id)) => Some(id),
        None => None,
    }
}

/// Selects the default audio track ID.
fn select_default_audio(
    tracks: &[TrackMeta],
    places: &Vec<usize>,
    original_language: &str,
    original_default_track_id: u32,
    prefs: &Prefs,
) -> (r: u32)
    requires
        places_ok(places@, tracks@.len()),
    ensures
        r == default_audio(
            at_places(meta_views(tracks@), places@),
            original_language@,
            original_default_track_id,
            texts(prefs.audio_langs@),
            texts(prefs.audio_codec@),
        ),
{
    let ghost set = at_places(meta_views(tracks@), places@);
    let ghost langs = texts(prefs.audio_langs@);
    let ghost codecs = texts(prefs.audio_codec@);
    let mut k: usize = 0;
    while k < prefs.audio_langs.len()
        invariant
            places_ok(places@, tracks@.len()),
            set == at_places(meta_views(tracks@), places@),
            langs == texts(prefs.audio_langs@),
            codecs == texts(prefs.audio_codec@),
            k <= langs.len(),
            best_preferred(set, langs, codecs, 0) == best_preferred(set, langs, codecs, k as nat),
        decreases langs.len() - k,
    {
        assert(langs[k as int] == prefs.audio_langs@[k as int]@);
        if let Some(id) = best_codec_track(
            tracks,
            places,
            prefs.audio_langs[k].as_str(),
            &prefs.audio_codec,
        ) {
            return id;
        }
        k = k + 1;
    }
    // No preferred language matched: try the original language.
    match best_codec_track(tracks, places, original_language, &prefs.audio_codec) {
        Some(id) => id,
        None => original_default_track_id,
    }
}

/// Whether one of the tracks at `places` has this id.
fn place_has_id(tracks: &[TrackMeta], places: &Vec<usize>, id: u32) -> (r: bool)
    requires
        places_ok(places@, tracks@.len()),
    ensures
        r == has_id(at_places(meta_views(tracks@), places@), id),
{
    let ghost set = at_places(meta_views(tracks@), places@);
    let mut i: usize = 0;
    while i < places.len()
        invariant
            places_ok(places@, tracks@.len()),
            set == at_places(meta_views(tracks@), places@),
            i <= places@.len(),
            forall|k: int| 0 <= k < i ==> (#[trigger] set[k]).track_id != id,
        decreases places@.len() - i,
    {
        let t: &TrackMeta = &tracks[places[i]];
        assert(set[i as int] == t@);
        if t.track_id == id {
            return true;
        }
        i = i + 1;
    }
    false
}

/// The places of the audio tracks to keep.
fn candidate_places(tracks: &[TrackMeta], original_language: &str, prefs: &Prefs) -> (r: Vec<usize>)
    ensures
        places_ok(r@, tracks@.len()),
        at_places(meta_views(tracks@), r@) == candidates(
            meta_views(tracks@),
            original_language@,
            texts(prefs.audio_langs@),
        ),
{
    let ghost models = meta_views(tracks@);
    let ghost langs = texts(prefs.audio_langs@);
    let mut audio: Vec<usize> = Vec::new();
    let mut set: Vec<usize> = Vec::new();
    let mut i: usize = 0;
    assert(at_places(models, audio@) =~= Seq::<MetaModel>::empty());
    assert(at_places(models, set@) =~= Seq::<MetaModel>::empty());
    while i < tracks.len()
        invariant
            models == meta_views(tracks@),
            langs == texts(prefs.audio_langs@),
            i <= tracks@.len(),
            places_ok(audio@, tracks@.len()),
            places_ok(set@, tracks@.len()),
            at_places(models, audio@) == audio_upto(models, i as nat),
            at_places(models, set@) == preferred_upto(models, langs, i as nat),
        decreases tracks@.len() - i,
    {
        let t: &TrackMeta = &tracks[i];
        assert(models[i as int] == t@);
        if t.kind == TrackKind::Audio {
            assert(at_places(models, audio@.push(i)) =~= at_places(models, audio@).push(t@));
            audio.push(i);
            if is_among(t.language.as_str(), &prefs.audio_langs) {
                assert(at_places(models, set@.push(i)) =~= at_places(models, set@).push(t@));
                set.push(i);
            }
        }
        i = i + 1;
    }
    if set.len() == 0 {
        // Fallback: all audio tracks.
        return audio;
    }
    let ghost preferred = at_places(models, set@);
    let mut k: usize = 0;
    while k < tracks.len()
        invariant
            models == meta_views(tracks@),
            k <= tracks@.len(),
            places_ok(set@, tracks@.len()),
            with_original(preferred, models, original_language@, 0) == with_original(
                at_places(models, set@),
                models,
                original_language@,
                k as nat,
            ),
        decreases tracks@.len() - k,
    {
        let t: &TrackMeta = &tracks[k];
        assert(models[k as int] == t@);
        if t.kind == TrackKind::Audio && same_text(t.language.as_str(), original_language)
            && !place_has_id(tracks, &set, t.track_id) {
            assert(at_places(models, set@.push(k)) =~= at_places(models, set@).push(t@));
            set.push(k);
        }
        k = k + 1;
    }
    set
}

/// Resolves which tracks to include and which audio track is default.
///
/// Step 1: audio candidates are all audio tracks in a language of
/// `prefs.audio_langs`; if there are any, also those in the original language; if
/// there are none, all audio tracks.
///
/// Step 2: all video tracks are included.
///
/// Step 3: the default audio track is the best-codec candidate in the first language
/// of `prefs.audio_langs` that has candidates ("best codec" = lowest index in
/// `prefs.audio_codec`; ties broken by lowest track id), else the best in the original
/// language, else `original_default_track_id`.
pub fn resolve_filter(
    tracks: &[TrackMeta],
    original_language: &str,
    original_default_track_id: u32,
    prefs: &Prefs,
) -> (r: TrackFilter)
    ensures
        ({
            let models = meta_views(tracks@);
            let langs = texts(prefs.audio_langs@);
            &&& r.included_track_ids@ == included(models, original_language@, langs)
            &&& r.default_audio_track_id == resolved_default(
                models,
                original_language@,
                original_default_track_id,
                langs,
                texts(prefs.audio_codec@),
            )
        }),
{
    let ghost models = meta_views(tracks@);
    let places: Vec<usize> = candidate_places(tracks, original_language, prefs);
    let ghost set = at_places(models, places@);
    let mut ids: Vec<u32> = Vec::new();
    let mut i: usize = 0;
    while i < tracks.len()
        invariant
            models == meta_views(tracks@),
            i <= tracks@.len(),
            ids@ == video_ids_upto(models, i as nat),
        decreases tracks@.len() - i,
    {
        assert(models[i as int] == tracks@[i as int]@);
        if tracks[i].kind == TrackKind::Video {
            ids.push(tracks[i].track_id);
        }
        i = i + 1;
    }
    let ghost videos = ids@;
    let mut k: usize = 0;
    assert(videos + ids_of(set).take(0) =~= videos);
    while k < places.len()
        invariant
            models == meta_views(tracks@),
            places_ok(places@, tracks@.len()),
            set == at_places(models, places@),
            k <= places@.len(),
            ids@ == videos + ids_of(set).take(k as int),
        decreases places@.len() - k,
    {
        let t: &TrackMeta = &tracks[places[k]];
        assert(ids_of(set)[k as int] == t.track_id);
        ids.push(t.track_id);
        k = k + 1;
        assert(ids@ =~= videos + ids_of(set).take(k as int));
    }
    assert(ids_of(set).take(k as int) =~= ids_of(set));
    TrackFilter {
        included_track_ids: sorted_ids(&ids),
        default_audio_track_id: select_default_audio(
            tracks,
            &places,
            original_language,
            original_default_track_id,
            prefs,
        ),
    }
}

proof fn lemma_video_ids(tracks: Seq<MetaModel>, n: nat, i: int)
    requires
        0 <= i < n <= tracks.len(),
        tracks[i].kind == TrackKind::Video,
    ensures
        video_ids_upto(tracks, n).contains(tracks[i].track_id),
    decreases n,
{
    let all = video_ids_upto(tracks, n);
    if i == n - 1 {
        assert(all[all.len() - 1] == tracks[i].track_id);
    } else {
        lemma_video_ids(tracks, (n - 1) as nat, i);
        let before = video_ids_upto(tracks, (n - 1) as nat);
        let k = choose|k: int| 0 <= k < before.len() && before[k] == tracks[i].track_id;
        assert(all[k] == tracks[i].track_id);
    }
}

proof fn lemma_included(tracks: Seq<MetaModel>, original: Seq<char>, langs: Seq<Seq<char>>, id: u32)
    ensures
        included(tracks, original, langs).contains(id) <==> (video_ids_upto(
            tracks,
            tracks.len(),
        ).contains(id) || has_id(candidates(tracks, original, langs), id)),
{
    let videos = video_ids_upto(tracks, tracks.len());
    let set = candidates(tracks, original, langs);
    let ids = ids_of(set);
    let all = videos + ids;
    ascending_is_sorted_set(all);
    assert(included(tracks, original, langs).contains(id) <==> all.contains(id));
    if videos.contains(id) {
        let k = choose|k: int| 0 <= k < videos.len() && videos[k] == id;
        assert(all[k] == id);
    }
    if has_id(set, id) {
        let k = choose|k: int| 0 <= k < set.len() && (#[trigger] set[k]).track_id == id;
        assert(all[videos.len() + k] == id);
    }
    if all.contains(id) {
        let k = choose|k: int| 0 <= k < all.len() && all[k] == id;
        if k < videos.len() {
            assert(videos[k] == id);
        } else {
            assert(set[k - videos.len()].track_id == id);
        }
    }
}

/// Every video track is included, and the ids ascend.
pub proof fn filter_keeps_video(tracks: Seq<MetaModel>, original: Seq<char>, langs: Seq<Seq<char>>)
    ensures
        is_ascending(included(tracks, original, langs)),
        forall|i: int|
            0 <= i < tracks.len() && (#[trigger] tracks[i]).kind == TrackKind::Video ==> included(
                tracks,
                original,
                langs,
            ).contains(tracks[i].track_id),
{
    ascending_is_sorted_set(
        video_ids_upto(tracks, tracks.len()) + ids_of(candidates(tracks, original, langs)),
    );
    assert forall|i: int|
        0 <= i < tracks.len() && (#[trigger] tracks[i]).kind == TrackKind::Video implies included(
        tracks,
        original,
        langs,
    ).contains(tracks[i].track_id) by {
        lemma_video_ids(tracks, tracks.len(), i);
        lemma_included(tracks, original, langs, tracks[i].track_id);
    }
}

proof fn lemma_preferred(tracks: Seq<MetaModel>, langs: Seq<Seq<char>>, n: nat)
    requires
        n <= tracks.len(),
    ensures
        forall|i: int|
            0 <= i < n && is_preferred(#[trigger] tracks[i], langs) ==> has_id(
                preferred_upto(tracks, langs, n),
                tracks[i].track_id,
            ),
        preferred_upto(tracks, langs, n).len() > 0 ==> exists|i: int|
            0 <= i < n && is_preferred(#[trigger] tracks[i], langs),
    decreases n,
{
    if n > 0 {
        lemma_preferred(tracks, langs, (n - 1) as nat);
        let before = preferred_upto(tracks, langs, (n - 1) as nat);
        let all = preferred_upto(tracks, langs, n);
        assert forall|i: int| 0 <= i < n && is_preferred(#[trigger] tracks[i], langs) implies has_id(
            all,
            tracks[i].track_id,
        ) by {
            if i == n - 1 {
                assert(all[all.len() - 1].track_id == tracks[i].track_id);
            } else {
                let k = choose|k: int|
                    0 <= k < before.len() && (#[trigger] before[k]).track_id
                        == tracks[i].track_id;
                assert(all[k].track_id == tracks[i].track_id);
            }
        }
        if all.len() > 0 {
            if is_preferred(tracks[n - 1], langs) {
                assert(is_preferred(tracks[n - 1], langs));
            } else {
                let i = choose|i: int| 0 <= i < n - 1 && is_preferred(#[trigger] tracks[i], langs);
                assert(0 <= i < n && is_preferred(tracks[i], langs));
            }
        }
    }
}

proof fn lemma_audio(tracks: Seq<MetaModel>, n: nat)
    requires
        n <= tracks.len(),
    ensures
        forall|i: int|
            0 <= i < n && (#[trigger] tracks[i]).kind == TrackKind::Audio ==> has_id(
                audio_upto(tracks, n),
                tracks[i].track_id,
            ),
    decreases n,
{
    if n > 0 {
        lemma_audio(tracks, (n - 1) as nat);
        let before = audio_upto(tracks, (n - 1) as nat);
        let all = audio_upto(tracks, n);
        assert forall|i: int|
            0 <= i < n && (#[trigger] tracks[i]).kind == TrackKind::Audio implies has_id(
            all,
            tracks[i].track_id,
        ) by {
            if i == n - 1 {
                assert(all[all.len() - 1].track_id == tracks[i].track_id);
            } else {
                let k = choose|k: int|
                    0 <= k < before.len() && (#[trigger] before[k]).track_id
                        == tracks[i].track_id;
                assert(all[k].track_id == tracks[i].track_id);
            }
        }
    }
}

proof fn lemma_with_original(
    set: Seq<MetaModel>,
    tracks: Seq<MetaModel>,
    original: Seq<char>,
    k: nat,
)
    requires
        k <= tracks.len(),
    ensures
        forall|id: u32| has_id(set, id) ==> #[trigger] has_id(
            with_original(set, tracks, original, k),
            id,
        ),
        forall|i: int|
            k <= i < tracks.len() && (#[trigger] tracks[i]).kind == TrackKind::Audio
                && tracks[i].language == original ==> has_id(
                with_original(set, tracks, original, k),
                tracks[i].track_id,
            ),
    decreases tracks.len() - k,
{
    if k < tracks.len() {
        let t = tracks[k as int];
        let adds = t.kind == TrackKind::Audio && t.language == original && !has_id(set, t.track_id);
        let next = if adds {
            set.push(t)
        } else {
            set
        };
        lemma_with_original(next, tracks, original, k + 1);
        let all = with_original(set, tracks, original, k);
        assert(all == with_original(next, tracks, original, k + 1));
        assert forall|id: u32| has_id(set, id) implies #[trigger] has_id(all, id) by {
            let j = choose|j: int| 0 <= j < set.len() && (#[trigger] set[j]).track_id == id;
            assert(next[j].track_id == id);
            assert(has_id(next, id));
            assert(has_id(with_original(next, tracks, original, k + 1), id));
        }
        if t.kind == TrackKind::Audio && t.language == original {
            if adds {
                assert(next[set.len() as int].track_id == t.track_id);
            }
            assert(has_id(next, t.track_id));
            assert(has_id(with_original(next, tracks, original, k + 1), t.track_id));
        }
    }
}

/// With an audio track in a preferred language, all such tracks and all audio tracks
/// in the original language are included.
pub proof fn filter_keeps_preferred_and_original(
    tracks: Seq<MetaModel>,
    original: Seq<char>,
    langs: Seq<Seq<char>>,
)
    requires
        exists|i: int| 0 <= i < tracks.len() && is_preferred(#[trigger] tracks[i], langs),
    ensures
        forall|i: int|
            0 <= i < tracks.len() && (is_preferred(#[trigger] tracks[i], langs) || (tracks[i].kind
                == TrackKind::Audio && tracks[i].language == original)) ==> included(
                tracks,
                original,
                langs,
            ).contains(tracks[i].track_id),
{
    let preferred = preferred_upto(tracks, langs, tracks.len());
    lemma_preferred(tracks, langs, tracks.len());
    let first = choose|i: int| 0 <= i < tracks.len() && is_preferred(#[trigger] tracks[i], langs);
    assert(has_id(preferred, tracks[first].track_id));
    lemma_with_original(preferred, tracks, original, 0);
    assert forall|i: int|
        0 <= i < tracks.len() && (is_preferred(#[trigger] tracks[i], langs) || (tracks[i].kind
            == TrackKind::Audio && tracks[i].language == original)) implies included(
        tracks,
        original,
        langs,
    ).contains(tracks[i].track_id) by {
        lemma_included(tracks, original, langs, tracks[i].track_id);
        assert(has_id(candidates(tracks, original, langs), tracks[i].track_id));
    }
}

/// Without an audio track in a preferred language, all audio tracks are included.
pub proof fn filter_falls_back_to_all(
    tracks: Seq<MetaModel>,
    original: Seq<char>,
    langs: Seq<Seq<char>>,
)
    requires
        forall|i: int| 0 <= i < tracks.len() ==> !is_preferred(#[trigger] tracks[i], langs),
    ensures
        forall|i: int|
            0 <= i < tracks.len() && (#[trigger] tracks[i]).kind == TrackKind::Audio ==> included(
                tracks,
                original,
                langs,
            ).contains(tracks[i].track_id),
{
    lemma_preferred(tracks, langs, tracks.len());
    lemma_audio(tracks, tracks.len());
    assert forall|i: int|
        0 <= i < tracks.len() && (#[trigger] tracks[i]).kind == TrackKind::Audio implies included(
        tracks,
        original,
        langs,
    ).contains(tracks[i].track_id) by {
        lemma_included(tracks, original, langs, tracks[i].track_id);
    }
}

/// Whether no track is in a preferred language.
pub open spec fn none_preferred(tracks: Seq<MetaModel>, langs: Seq<Seq<char>>) -> bool {
    forall|i: int| 0 <= i < tracks.len() ==> !is_preferred(#[trigger] tracks[i], langs)
}

/// Whether there is a reason to include a track: it is video, in a preferred language or
/// in the original one, or no track is in a preferred language.
pub open spec fn is_wanted(
    t: MetaModel,
    tracks: Seq<MetaModel>,
    original: Seq<char>,
    langs: Seq<Seq<char>>,
) -> bool {
    t.kind == TrackKind::Video || is_preferred(t, langs) || t.language == original
        || none_preferred(tracks, langs)
}

/// Whether a wanted track has this id.
pub open spec fn wanted_id(
    tracks: Seq<MetaModel>,
    original: Seq<char>,
    langs: Seq<Seq<char>>,
    id: u32,
) -> bool {
    exists|i: int|
        0 <= i < tracks.len() && (#[trigger] tracks[i]).track_id == id && is_wanted(
            tracks[i],
            tracks,
            original,
            langs,
        )
}

/// Every included id is that of a track that there is a reason to include.
pub proof fn filter_includes_no_other(
    tracks: Seq<MetaModel>,
    original: Seq<char>,
    langs: Seq<Seq<char>>,
    id: u32,
)
    requires
        included(tracks, original, langs).contains(id),
    ensures
        wanted_id(tracks, original, langs, id),
{
    let videos = video_ids_upto(tracks, tracks.len());
    let set = candidates(tracks, original, langs);
    let all = videos + ids_of(set);
    ascending_is_sorted_set(all);
    let k = choose|k: int| 0 <= k < all.len() && all[k] == id;
    if k < videos.len() {
        assert(videos[k] == id);
        lemma_video_source(tracks, tracks.len(), k);
        let i = choose|i: int|
            0 <= i < tracks.len() && (#[trigger] tracks[i]).track_id == id && tracks[i].kind
                == TrackKind::Video;
        assert(is_wanted(tracks[i], tracks, original, langs));
    } else {
        let j = k - videos.len();
        assert(set[j].track_id == id);
        lemma_preferred(tracks, langs, tracks.len());
        let preferred = preferred_upto(tracks, langs, tracks.len());
        if preferred.len() == 0 {
            assert forall|i: int| 0 <= i < tracks.len() implies !is_preferred(
                #[trigger] tracks[i],
                langs,
            ) by {
                if is_preferred(tracks[i], langs) {
                    assert(has_id(preferred, tracks[i].track_id));
                }
            }
            lemma_audio_source(tracks, tracks.len(), j);
            let i = choose|i: int| 0 <= i < tracks.len() && #[trigger] tracks[i] == set[j];
            assert(is_wanted(tracks[i], tracks, original, langs));
        } else {
            assert forall|m: int| 0 <= m < preferred.len() implies source_of(
                #[trigger] preferred[m],
                tracks,
                original,
                langs,
            ) by {
                lemma_preferred_source(tracks, langs, tracks.len(), m);
                let i = choose|i: int|
                    0 <= i < tracks.len() && #[trigger] tracks[i] == preferred[m] && is_preferred(
                        tracks[i],
                        langs,
                    );
                assert(is_wanted(tracks[i], tracks, original, langs));
            }
            lemma_original_source(preferred, tracks, original, langs, 0);
            assert(source_of(set[j], tracks, original, langs));
            let i = choose|i: int|
                0 <= i < tracks.len() && #[trigger] tracks[i] == set[j] && is_wanted(
                    tracks[i],
                    tracks,
                    original,
                    langs,
                );
            assert(tracks[i].track_id == id);
        }
    }
}

/// Whether a track is one of `tracks`, and wanted.
pub open spec fn source_of(
    t: MetaModel,
    tracks: Seq<MetaModel>,
    original: Seq<char>,
    langs: Seq<Seq<char>>,
) -> bool {
    exists|i: int|
        0 <= i < tracks.len() && #[trigger] tracks[i] == t && is_wanted(
            tracks[i],
            tracks,
            original,
            langs,
        )
}

proof fn lemma_video_source(tracks: Seq<MetaModel>, n: nat, k: int)
    requires
        n <= tracks.len(),
        0 <= k < video_ids_upto(tracks, n).len(),
    ensures
        exists|i: int|
            0 <= i < n && (#[trigger] tracks[i]).track_id == video_ids_upto(tracks, n)[k]
                && tracks[i].kind == TrackKind::Video,
    decreases n,
{
    let before = video_ids_upto(tracks, (n - 1) as nat);
    if k < before.len() {
        lemma_video_source(tracks, (n - 1) as nat, k);
        let i = choose|i: int|
            0 <= i < n - 1 && (#[trigger] tracks[i]).track_id == before[k] && tracks[i].kind
                == TrackKind::Video;
        assert(0 <= i < n && tracks[i].track_id == video_ids_upto(tracks, n)[k]);
    } else {
        assert(tracks[n - 1].track_id == video_ids_upto(tracks, n)[k]);
    }
}

proof fn lemma_audio_source(tracks: Seq<MetaModel>, n: nat, k: int)
    requires
        n <= tracks.len(),
        0 <= k < audio_upto(tracks, n).len(),
    ensures
        exists|i: int| 0 <= i < n && #[trigger] tracks[i] == audio_upto(tracks, n)[k],
    decreases n,
{
    let before = audio_upto(tracks, (n - 1) as nat);
    if k < before.len() {
        lemma_audio_source(tracks, (n - 1) as nat, k);
        let i = choose|i: int| 0 <= i < n - 1 && #[trigger] tracks[i] == before[k];
        assert(0 <= i < n && tracks[i] == audio_upto(tracks, n)[k]);
    } else {
        assert(tracks[n - 1] == audio_upto(tracks, n)[k]);
    }
}

proof fn lemma_preferred_source(tracks: Seq<MetaModel>, langs: Seq<Seq<char>>, n: nat, k: int)
    requires
        n <= tracks.len(),
        0 <= k < preferred_upto(tracks, langs, n).len(),
    ensures
        exists|i: int|
            0 <= i < n && #[trigger] tracks[i] == preferred_upto(tracks, langs, n)[k]
                && is_preferred(tracks[i], langs),
    decreases n,
{
    let before = preferred_upto(tracks, langs, (n - 1) as nat);
    if k < before.len() {
        lemma_preferred_source(tracks, langs, (n - 1) as nat, k);
        let i = choose|i: int|
            0 <= i < n - 1 && #[trigger] tracks[i] == before[k] && is_preferred(tracks[i], langs);
        assert(0 <= i < n && tracks[i] == preferred_upto(tracks, langs, n)[k]);
    } else {
        assert(tracks[n - 1] == preferred_upto(tracks, langs, n)[k]);
    }
}

proof fn lemma_original_source(
    set: Seq<MetaModel>,
    tracks: Seq<MetaModel>,
    original: Seq<char>,
    langs: Seq<Seq<char>>,
    k: nat,
)
    requires
        k <= tracks.len(),
        forall|m: int|
            0 <= m < set.len() ==> source_of(#[trigger] set[m], tracks, original, langs),
    ensures
        forall|m: int|
            0 <= m < with_original(set, tracks, original, k).len() ==> source_of(
                #[trigger] with_original(set, tracks, original, k)[m],
                tracks,
                original,
                langs,
            ),
    decreases tracks.len() - k,
{
    if k < tracks.len() {
        let t = tracks[k as int];
        if t.kind == TrackKind::Audio && t.language == original && !has_id(set, t.track_id) {
            assert(tracks[k as int] == t && is_wanted(tracks[k as int], tracks, original, langs));
            assert(source_of(t, tracks, original, langs));
            lemma_original_source(set.push(t), tracks, original, langs, k + 1);
            assert(with_original(set, tracks, original, k) == with_original(
                set.push(t),
                tracks,
                original,
                k + 1,
            ));
        } else {
            lemma_original_source(set, tracks, original, langs, k + 1);
            assert(with_original(set, tracks, original, k) == with_original(
                set,
                tracks,
                original,
                k + 1,
            ));
        }
    } else {
        assert(with_original(set, tracks, original, k) == set);
    }
}

pub proof fn lemma_best(set: Seq<MetaModel>, lang: Seq<char>, codecs: Seq<Seq<char>>, n: nat)
    requires
        n <= set.len(),
    ensures
        match best_upto(set, lang, codecs, n) {
            Some(b) => {
                &&& exists|i: int|
                    0 <= i < n && (#[trigger] set[i]).language == lang && set[i].track_id == b.1
                &&& forall|i: int|
                    0 <= i < n && (#[trigger] set[i]).language == lang ==> !comes_before(
                        (rank_from(codecs, set[i].codec_name, 0), set[i].track_id),
                        b,
                    )
            },
            None => forall|i: int| 0 <= i < n ==> (#[trigger] set[i]).language != lang,
        },
    decreases n,
{
    if n > 0 {
        lemma_best(set, lang, codecs, (n - 1) as nat);
        if let Some(b) = best_upto(set, lang, codecs, n) {
            let before = best_upto(set, lang, codecs, (n - 1) as nat);
            if before is Some && before->0 == b {
                let i = choose|i: int|
                    0 <= i < n - 1 && (#[trigger] set[i]).language == lang && set[i].track_id
                        == b.1;
                assert(0 <= i < n && set[i].language == lang && set[i].track_id == b.1);
            } else {
                assert(set[n - 1].language == lang && set[n - 1].track_id == b.1);
            }
        }
    }
}

/// Among tracks in one language, the chosen one has the best rank, and the lowest id
/// of that rank.
pub proof fn best_is_least(set: Seq<MetaModel>, lang: Seq<char>, codecs: Seq<Seq<char>>)
    ensures
        best_upto(set, lang, codecs, set.len()) matches Some(b) ==> {
            &&& exists|i: int|
                0 <= i < set.len() && (#[trigger] set[i]).language == lang && set[i].track_id
                    == b.1
            &&& forall|i: int|
                0 <= i < set.len() && (#[trigger] set[i]).language == lang ==> !comes_before(
                    (rank_from(codecs, set[i].codec_name, 0), set[i].track_id),
                    b,
                )
        },
{
    lemma_best(set, lang, codecs, set.len());
}

proof fn lemma_best_preferred(
    set: Seq<MetaModel>,
    langs: Seq<Seq<char>>,
    codecs: Seq<Seq<char>>,
    k: nat,
)
    ensures
        best_preferred(set, langs, codecs, k) matches Some(id) ==> has_id(set, id),
    decreases langs.len() - k,
{
    if k < langs.len() {
        lemma_best(set, langs[k as int], codecs, set.len());
        lemma_best_preferred(set, langs, codecs, k + 1);
    }
}

/// The default audio track is an included one, or the original default.
pub proof fn default_is_included(
    tracks: Seq<MetaModel>,
    original: Seq<char>,
    original_default: u32,
    langs: Seq<Seq<char>>,
    codecs: Seq<Seq<char>>,
)
    ensures
        ({
            let set = candidates(tracks, original, langs);
            let id = default_audio(set, original, original_default, langs, codecs);
            id == original_default || included(tracks, original, langs).contains(id)
        }),
{
    let set = candidates(tracks, original, langs);
    let id = default_audio(set, original, original_default, langs, codecs);
    lemma_best_preferred(set, langs, codecs, 0);
    lemma_best(set, original, codecs, set.len());
    lemma_included(tracks, original, langs, id);
}

} // verus!
