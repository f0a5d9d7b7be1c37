//! What the toolchain promises from one tool to the next.
use crate::binstruct::{CodecType, PolicyModel};
use crate::compress::{is_zstd, zstd_decoded};
use crate::muxer::plan::plan_times;
use crate::muxer::types::MuxerFault;
use crate::spelling::{
    character_is_found_where_it_last_stands, padded_number_reads_back,
    text_is_found_where_it_first_stands,
};
use crate::text::{
    contains_text, decimal, digit_char, digits_value, ends_with, find_from, last_before,
    matches_at, trim, zero_padded,
};
use crate::tools::gen::{
    assembled, audio_pattern, cbr_fault, default_from, default_of, defaults_upto, deltas_add_up,
    deltas_of, files_from, files_known, first_line, found_file, is_default_audio, is_iso639,
    is_newer, is_sought, located, newest_from, policies_upto, policy_of, sidecar_name, sought_from,
    version_of, vfr_load, video_pattern, CbrMeta, GenArgs, Located, Origin, TrackFiles,
    VfrLoadFault,
};
use crate::tools::mkv::{MkvModel, ParsedModel};
use crate::tools::verify::{track_faults, RawState, TrackState, VfrState};
use crate::tools::verify_manifest::names_manifest;
use crate::vfr::{vfr_parse, VfrModel};
use vstd::prelude::*;
use vstd::string::*;

verus! {

/// Whether what was found of the files of a track is what a policy was made from: the raw
/// file has its digest; with a frame index, that has its own; without one, the raw file is
/// as long as all its frames.
pub open spec fn are_the_files(files: TrackFiles, s: TrackState) -> bool {
    match (files, s.raw) {
        (_, RawState::Missing(_)) => false,
        (
            TrackFiles::Vbr { raw_file_hash, vfr_file_hash, frame_count },
            RawState::Present { path, hash, size },
        ) => {
            &&& hash matches Ok(h) && h@ == raw_file_hash@
            &&& s.vfr matches VfrState::Present { path: _, hash: Ok(v) } && v@ == vfr_file_hash@
        },
        (
            TrackFiles::Cbr { raw_file_hash, meta },
            RawState::Present { path, hash, size },
        ) => {
            &&& hash matches Ok(h) && h@ == raw_file_hash@
            &&& size matches Ok(n) && n == meta.frame_count * meta.cbr_frame_size
        },
    }
}

/// The files that a policy was made from are found intact, and no others are.
pub proof fn generated_policies_verify(e: ParsedModel, files: TrackFiles, s: TrackState)
    ensures
        track_faults(policy_of(e, files), s).len() == 0 <==> are_the_files(files, s),
{
}

/// A policy tells of its track what the muxer goes by: video for type 1, else audio; frames
/// by the index, or else by one size and one duration.
pub proof fn generated_policies_tell_the_track(e: ParsedModel, files: TrackFiles)
    ensures
        ({
            let p = policy_of(e, files);
            &&& p.track_id == e.track_id
            &&& (p.codec_type == CodecType::Video) == (e.track_type == 1)
            &&& e.language.len() > 0 ==> p.language_code == e.language
            &&& e.language.len() == 0 ==> p.language_code == "und"@
            &&& match files {
                TrackFiles::Vbr { raw_file_hash, vfr_file_hash, frame_count } => {
                    &&& p.is_vbr
                    &&& p.frame_count == frame_count
                    &&& p.cbr_frame_size is None
                    &&& p.frame_duration == 0
                    &&& p.raw_file_hash == raw_file_hash@
                    &&& p.vfr_file_hash == Some(vfr_file_hash@)
                },
                TrackFiles::Cbr { raw_file_hash, meta } => {
                    &&& !p.is_vbr
                    &&& p.frame_count == meta.frame_count
                    &&& p.cbr_frame_size == Some(meta.cbr_frame_size)
                    &&& p.frame_duration == meta.frame_duration_ns
                    &&& p.raw_file_hash == raw_file_hash@
                    &&& p.vfr_file_hash is None
                },
            }
        }),
{
}

/// Whether files are the first that were found for a track.
pub open spec fn first_files(
    files: Seq<(u64, TrackFiles)>,
    track_id: u64,
    found: TrackFiles,
    k: int,
) -> bool {
    &&& 0 <= k < files.len()
    &&& files[k] == (track_id, found)
    &&& forall|j: int| 0 <= j < k ==> (#[trigger] files[j]).0 != track_id
}

/// Whether policy `n` is that of entry `i`, from the first files that were found for it.
pub open spec fn is_policy_of(
    entries: Seq<ParsedModel>,
    files: Seq<(u64, TrackFiles)>,
    policies: Seq<PolicyModel>,
    i: int,
    n: int,
) -> bool {
    &&& 0 <= n < policies.len()
    &&& exists|k: int, found: TrackFiles| #[trigger]
        first_files(files, entries[i].track_id, found, k) && policies[n] == policy_of(
            entries[i],
            found,
        )
}

/// The number of video and audio tracks among the first `n`.
pub open spec fn av_upto(entries: Seq<ParsedModel>, n: nat) -> nat
    decreases n,
{
    if n == 0 {
        0
    } else if entries[n - 1].track_type == 1 || entries[n - 1].track_type == 2 {
        av_upto(entries, (n - 1) as nat) + 1
    } else {
        av_upto(entries, (n - 1) as nat)
    }
}

/// Every video and audio track has its policy, in the order of the tracks, and nothing else
/// has one.
pub proof fn each_track_has_its_policy(
    entries: Seq<ParsedModel>,
    files: Seq<(u64, TrackFiles)>,
    n: nat,
)
    requires
        n <= entries.len(),
        files_known(entries, files, n),
    ensures
        policies_upto(entries, files, n).len() == av_upto(entries, n),
        forall|i: int|
            0 <= i < n && (entries[i].track_type == 1 || entries[i].track_type == 2)
                ==> #[trigger] is_policy_of(
                entries,
                files,
                policies_upto(entries, files, n),
                i,
                av_upto(entries, i as nat) as int,
            ),
    decreases n,
{
    if n > 0 {
        let m = (n - 1) as nat;
        each_track_has_its_policy(entries, files, m);
        let before = policies_upto(entries, files, m);
        let all = policies_upto(entries, files, n);
        assert forall|i: int|
            0 <= i < n && (entries[i].track_type == 1 || entries[i].track_type
                == 2) implies #[trigger] is_policy_of(
            entries,
            files,
            all,
            i,
            av_upto(entries, i as nat) as int,
        ) by {
            if i < m {
                assert(is_policy_of(entries, files, before, i, av_upto(entries, i as nat) as int));
                let (k, found) = choose|k: int, found: TrackFiles| #[trigger]
                    first_files(files, entries[i].track_id, found, k)
                        && before[av_upto(entries, i as nat) as int] == policy_of(
                        entries[i],
                        found,
                    );
                assert(all[av_upto(entries, i as nat) as int] == before[av_upto(
                    entries,
                    i as nat,
                ) as int]);
                assert(first_files(files, entries[i].track_id, found, k));
            } else {
                assert(files_from(files, entries[i].track_id, 0) is Some);
                let k = lemma_files_from(files, entries[i].track_id, 0);
                assert(first_files(
                    files,
                    entries[i].track_id,
                    files_from(files, entries[i].track_id, 0)->0,
                    k,
                ));
            }
        }
    }
}

proof fn lemma_files_from(files: Seq<(u64, TrackFiles)>, track_id: u64, from: nat) -> (k: int)
    requires
        files_from(files, track_id, from) is Some,
        forall|j: int| 0 <= j < from ==> (#[trigger] files[j]).0 != track_id,
    ensures
        first_files(files, track_id, files_from(files, track_id, from)->0, k),
    decreases files.len() - from,
{
    if files[from as int].0 == track_id {
        from as int
    } else {
        lemma_files_from(files, track_id, from + 1)
    }
}

/// Whether entry `i` alone is an audio track with FlagDefault 1.
pub open spec fn is_only_default(entries: Seq<ParsedModel>, i: int) -> bool {
    &&& 0 <= i < entries.len()
    &&& entries[i].track_type == 2 && entries[i].flag_default == 1
    &&& forall|j: int|
        0 <= j < entries.len() && j != i ==> !((#[trigger] entries[j]).track_type == 2
            && entries[j].flag_default == 1)
}

/// Whether a language is told: two or three letters, but not `und`.
pub open spec fn is_told(lang: Seq<char>) -> bool {
    &&& 2 <= lang.len() <= 3
    &&& lang != "und"@
    &&& forall|i: int|
        0 <= i < lang.len() ==> 'a' <= #[trigger] lang[i] <= 'z' || 'A' <= lang[i] <= 'Z'
}

/// The default track is found exactly where one audio track alone is the default and its
/// language is told.
pub proof fn one_default_track_is_found(entries: Seq<ParsedModel>)
    ensures
        match default_of(entries) {
            Ok((id, lang)) => exists|i: int| #[trigger]
                is_only_default(entries, i) && id == entries[i].track_id && lang == trim(
                    entries[i].language,
                ) && is_told(lang),
            Err(_) => forall|i: int| #[trigger]
                is_only_default(entries, i) ==> !is_told(trim(entries[i].language)),
        },
{
    let n = entries.len();
    lemma_defaults(entries, n);
    match default_of(entries) {
        Ok((id, lang)) => {
            lemma_default_from(entries, 0);
            let i = default_from(entries, 0)->0 as int;
            assert(is_only_default(entries, i)) by {
                assert forall|j: int| 0 <= j < entries.len() && j != i implies !((
                #[trigger] entries[j]).track_type == 2 && entries[j].flag_default == 1) by {
                    if is_default_audio(entries[j]) {
                        lemma_two_defaults(entries, i, j);
                    }
                }
            }
        },
        Err(_) => {
            assert forall|i: int| #[trigger] is_only_default(entries, i) implies !is_told(
                trim(entries[i].language),
            ) by {
                lemma_one_default(entries, i, n);
                lemma_default_from(entries, 0);
                let lang = trim(entries[i].language);
                if is_told(lang) {
                    assert(is_iso639(lang));
                }
            }
        },
    }
}

/// The tracks that are counted are those that are found.
proof fn lemma_defaults(entries: Seq<ParsedModel>, n: nat)
    requires
        n <= entries.len(),
    ensures
        defaults_upto(entries, n) == 0 ==> forall|j: int|
            0 <= j < n ==> !is_default_audio(#[trigger] entries[j]),
        defaults_upto(entries, n) > 0 ==> exists|j: int|
            0 <= j < n && is_default_audio(#[trigger] entries[j]),
    decreases n,
{
    if n > 0 {
        lemma_defaults(entries, (n - 1) as nat);
        if is_default_audio(entries[n - 1]) {
        } else if defaults_upto(entries, n) > 0 {
            let j = choose|j: int| 0 <= j < n - 1 && is_default_audio(#[trigger] entries[j]);
            assert(0 <= j < n && is_default_audio(entries[j]));
        }
    }
}

proof fn lemma_default_from(entries: Seq<ParsedModel>, k: nat)
    ensures
        match default_from(entries, k) {
            Some(i) => k <= i < entries.len() && is_default_audio(entries[i as int]) && forall|
                j: int,
            |
                k <= j < i ==> !is_default_audio(#[trigger] entries[j]),
            None => forall|j: int|
                k <= j < entries.len() ==> !is_default_audio(#[trigger] entries[j]),
        },
    decreases entries.len() - k,
{
    if k < entries.len() && !is_default_audio(entries[k as int]) {
        lemma_default_from(entries, k + 1);
    }
}

proof fn lemma_counted(entries: Seq<ParsedModel>, i: int, n: nat)
    requires
        0 <= i < n <= entries.len(),
        is_default_audio(entries[i]),
    ensures
        defaults_upto(entries, n) >= defaults_upto(entries, i as nat) + 1,
    decreases n,
{
    if i < n - 1 {
        lemma_counted(entries, i, (n - 1) as nat);
    }
}

proof fn lemma_two_defaults(entries: Seq<ParsedModel>, i: int, j: int)
    requires
        0 <= i < entries.len(),
        0 <= j < entries.len(),
        i != j,
        is_default_audio(entries[i]),
        is_default_audio(entries[j]),
    ensures
        defaults_upto(entries, entries.len()) >= 2,
{
    let a = if i < j {
        i
    } else {
        j
    };
    let b = if i < j {
        j
    } else {
        i
    };
    lemma_counted(entries, a, b as nat);
    lemma_counted(entries, b, entries.len());
}

proof fn lemma_one_default(entries: Seq<ParsedModel>, i: int, n: nat)
    requires
        n <= entries.len(),
        is_only_default(entries, i),
    ensures
        defaults_upto(entries, n) == if i < n {
            1nat
        } else {
            0nat
        },
    decreases n,
{
    if n > 0 {
        lemma_one_default(entries, i, (n - 1) as nat);
        assert(entries[n - 1] == entries[n - 1]);
    }
}

/// A sidecar and a raw file agree exactly if both tell the size that all frames have
/// together.
pub proof fn sizes_agree_or_are_told(track_id: u64, meta: CbrMeta, actual_size: u64)
    ensures
        cbr_fault(track_id, meta, actual_size) is None <==> meta.file_size_bytes
            == meta.frame_count * meta.cbr_frame_size && actual_size == meta.frame_count
            * meta.cbr_frame_size,
{
}

/// A generated file is read with the times of the clusters of the original, and keeps what
/// stands around its clusters byte for byte.
pub proof fn generated_file_keeps_the_original(
    mkv: MkvModel,
    args: GenArgs,
    origin: Origin,
    language: Seq<char>,
    default_id: u64,
    deltas: Seq<i64>,
    policies: Seq<PolicyModel>,
)
    requires
        mkv.cluster_timestamps.len() <= u64::MAX,
        forall|i: int|
            0 <= i < mkv.cluster_timestamps.len() ==> #[trigger] mkv.cluster_timestamps[i]
                <= i64::MAX,
        deltas.len() == mkv.cluster_timestamps.len(),
        forall|i: int|
            0 <= i < deltas.len() ==> #[trigger] deltas[i] == deltas_of(mkv.cluster_timestamps)[i],
    ensures
        ({
            let b = assembled(mkv, args, origin, language, default_id, deltas, policies);
            &&& plan_times(b) == Ok::<Seq<u64>, MuxerFault>(mkv.cluster_timestamps)
            &&& b.mkv_skeleton.pre_tracks_blob == mkv.pre_tracks_blob
            &&& b.mkv_skeleton.post_tracks_blob == mkv.post_tracks_blob
            &&& b.mkv_skeleton.track_entries.len() == mkv.track_entries.len()
            &&& forall|i: int|
                0 <= i < mkv.track_entries.len() ==> {
                    let e = #[trigger] b.mkv_skeleton.track_entries[i];
                    e.track_id == mkv.track_entries[i].track_id && e.bytes
                        == mkv.track_entries[i].raw_bytes
                }
            &&& b.track_policies == policies
            &&& b.header.version == 1
            &&& b.header.config_flags == if args.compress {
                1u8
            } else {
                0u8
            }
            &&& b.source.original_mkv_hash == origin.original_mkv_hash@
            &&& b.source.publisher_info == args.publisher@
            &&& b.source.creation_timestamp == origin.creation_timestamp
            &&& b.source.original_language == language
            &&& b.source.original_default_track_id == default_id
        }),
{
    deltas_add_up(mkv.cluster_timestamps, deltas);
}

/// The name of a raw file tells the kind and the number of its track: `_v` or `_a`, the
/// number with at least two or three digits, and an underscore.
pub proof fn patterns_tell_the_track(track_id: u64)
    ensures
        exists|d: Seq<char>|
            video_pattern(track_id) == #[trigger] ("_v"@ + d + "_"@) && digits_value(d) == Some(
                track_id as nat,
            ) && d.len() >= 2 && (track_id < 100 ==> d.len() == 2),
        exists|d: Seq<char>|
            audio_pattern(track_id) == #[trigger] ("_a"@ + d + "_"@) && digits_value(d) == Some(
                track_id as nat,
            ) && d.len() >= 3 && (track_id < 1000 ==> d.len() == 3),
{
    let n = track_id as nat;
    padded_number_reads_back(n, 2);
    padded_number_reads_back(n, 3);
    reveal_with_fuel(decimal, 4);
    let v = zero_padded(decimal(n), 2);
    let a = zero_padded(decimal(n), 3);
    assert(video_pattern(track_id) == "_v"@ + v + "_"@);
    assert(audio_pattern(track_id) == "_a"@ + a + "_"@);
}

/// Whether `pat` stands somewhere in `text`.
pub open spec fn stands_in(text: Seq<char>, pat: Seq<char>) -> bool {
    exists|k: int| #[trigger] matches_at(text, pat, k)
}

proof fn lemma_contains(text: Seq<char>, pat: Seq<char>)
    ensures
        contains_text(text, pat) <==> stands_in(text, pat),
{
    text_is_found_where_it_first_stands(text, pat, 0);
    if contains_text(text, pat) {
        let k = find_from(text, pat, 0)->0;
        assert(matches_at(text, pat, k));
    }
}

/// Whether a name is one that is looked for: the pattern stands in it and, for a frame index,
/// it has the extension `.vfr`, at its end or before another.
pub open spec fn is_candidate(name: Seq<char>, pattern: Seq<char>, vfr: bool) -> bool {
    stands_in(name, pattern) && (vfr ==> ends_with(name, ".vfr"@) || stands_in(name, ".vfr."@))
}

/// A file is found wherever one can be: it is one that is looked for, and no other such file
/// is a newer version of it.
pub proof fn newest_file_is_found(names: Seq<String>, pattern: Seq<char>, vfr: bool)
    ensures
        match found_file(names, pattern, vfr) {
            Some(k) => k < names.len() && is_candidate(names[k as int]@, pattern, vfr) && forall|
                j: int,
            |
                0 <= j < names.len() && is_candidate((#[trigger] names[j])@, pattern, vfr)
                    ==> !is_newer(names[k as int]@, names[j]@),
            None => forall|j: int|
                0 <= j < names.len() ==> !is_candidate((#[trigger] names[j])@, pattern, vfr),
        },
{
    assert forall|j: int| 0 <= j < names.len() implies is_sought(
        (#[trigger] names[j])@,
        pattern,
        vfr,
    ) == is_candidate(names[j]@, pattern, vfr) by {
        lemma_contains(names[j]@, pattern);
        lemma_contains(names[j]@, ".vfr."@);
    }
    lemma_sought(names, pattern, vfr, 0);
    if let Some(k) = sought_from(names, pattern, vfr, 0) {
        assert forall|j: int|
            0 <= j < k + 1 && is_sought((#[trigger] names[j])@, pattern, vfr) implies !is_newer(
            names[k as int]@,
            names[j]@,
        ) by {
            assert(j == k);
        }
        lemma_newest(names, pattern, vfr, k + 1, k);
    }
}

proof fn lemma_sought(names: Seq<String>, pattern: Seq<char>, vfr: bool, k: nat)
    ensures
        match sought_from(names, pattern, vfr, k) {
            Some(i) => k <= i < names.len() && is_sought(names[i as int]@, pattern, vfr)
                && forall|j: int|
                k <= j < i ==> !is_sought((#[trigger] names[j])@, pattern, vfr),
            None => forall|j: int|
                k <= j < names.len() ==> !is_sought((#[trigger] names[j])@, pattern, vfr),
        },
    decreases names.len() - k,
{
    if k < names.len() && !is_sought(names[k as int]@, pattern, vfr) {
        lemma_sought(names, pattern, vfr, k + 1);
    }
}

proof fn lemma_newest(names: Seq<String>, pattern: Seq<char>, vfr: bool, k: nat, best: nat)
    requires
        best < k <= names.len(),
        is_sought(names[best as int]@, pattern, vfr),
        forall|j: int|
            0 <= j < k && is_sought((#[trigger] names[j])@, pattern, vfr) ==> !is_newer(
                names[best as int]@,
                names[j]@,
            ),
    ensures
        ({
            let r = newest_from(names, pattern, vfr, k, best);
            &&& r < names.len()
            &&& is_sought(names[r as int]@, pattern, vfr)
            &&& forall|j: int|
                0 <= j < names.len() && is_sought((#[trigger] names[j])@, pattern, vfr)
                    ==> !is_newer(names[r as int]@, names[j]@)
        }),
    decreases names.len() - k,
{
    if k < names.len() {
        if is_sought(names[k as int]@, pattern, vfr) && is_newer(
            names[best as int]@,
            names[k as int]@,
        ) {
            assert forall|j: int|
                0 <= j < k + 1 && is_sought((#[trigger] names[j])@, pattern, vfr) implies !is_newer(
                names[k as int]@,
                names[j]@,
            ) by {
                if is_newer(names[k as int]@, names[j]@) {
                    if j < k {
                        newer_versions_are_ordered(
                            names[best as int]@,
                            names[k as int]@,
                            names[j]@,
                        );
                    }
                }
            }
            lemma_newest(names, pattern, vfr, k + 1, k);
        } else {
            lemma_newest(names, pattern, vfr, k + 1, best);
        }
    }
}

/// A newer version of a newer version is newer, and no name is newer than itself.
pub proof fn newer_versions_are_ordered(a: Seq<char>, b: Seq<char>, c: Seq<char>)
    requires
        is_newer(a, b),
        is_newer(b, c),
    ensures
        is_newer(a, c),
        !is_newer(c, c),
{
    character_is_found_where_it_last_stands(a, '_', a.len());
    character_is_found_where_it_last_stands(b, '_', b.len());
    let u = last_before(a, '_', a.len())->0;
    let v = last_before(b, '_', b.len())->0;
    let k = u + 1;
    assert(b[u] == '_') by {
        assert(a.take(k)[u] == b.take(k)[u]);
    }
    assert(v == u) by {
        if v > u {
            if v >= k + 2 {
                assert(a.skip(k + 2)[v - k - 2] == b.skip(k + 2)[v - k - 2]);
            }
        }
    }
}

/// Video has its raw file among the video files, by the video pattern, and its frame index;
/// audio among the audio files, by the audio pattern, with its frame index if there is one.
pub proof fn located_files_tell_the_track(
    e: ParsedModel,
    video: Seq<String>,
    audio: Seq<String>,
    vfr: Seq<String>,
)
    requires
        video.len() <= usize::MAX,
        audio.len() <= usize::MAX,
        vfr.len() <= usize::MAX,
    ensures
        ({
            let names = if e.track_type == 1 {
                video
            } else {
                audio
            };
            let pattern = if e.track_type == 1 {
                video_pattern(e.track_id)
            } else {
                audio_pattern(e.track_id)
            };
            match located(e, video, audio, vfr) {
                Located::Skipped => e.track_type != 1 && e.track_type != 2,
                Located::NoRaw => (e.track_type == 1 || e.track_type == 2) && forall|j: int|
                    0 <= j < names.len() ==> !stands_in((#[trigger] names[j])@, pattern),
                Located::NoVfr => e.track_type == 1 && forall|j: int|
                    0 <= j < vfr.len() ==> !is_candidate((#[trigger] vfr[j])@, pattern, true),
                Located::Found { raw, vfr: index } => {
                    &&& e.track_type == 1 || e.track_type == 2
                    &&& raw < names.len() && stands_in(names[raw as int]@, pattern)
                    &&& e.track_type == 1 ==> index is Some
                    &&& index matches Some(i) ==> i < vfr.len() && is_candidate(
                        vfr[i as int]@,
                        pattern,
                        true,
                    )
                    &&& index is None ==> forall|j: int|
                        0 <= j < vfr.len() ==> !is_candidate((#[trigger] vfr[j])@, pattern, true)
                },
            }
        }),
{
    let names = if e.track_type == 1 {
        video
    } else {
        audio
    };
    let pattern = if e.track_type == 1 {
        video_pattern(e.track_id)
    } else {
        audio_pattern(e.track_id)
    };
    newest_file_is_found(names, pattern, false);
    newest_file_is_found(vfr, pattern, true);
    if located(e, video, audio, vfr) is NoRaw {
        assert forall|j: int| 0 <= j < names.len() implies !stands_in(
            (#[trigger] names[j])@,
            pattern,
        ) by {
            assert(!is_candidate(names[j]@, pattern, false));
        }
    }
}

/// A file name with a version of two digits before its extension.
pub open spec fn versioned(stem: Seq<char>, version: nat, ext: Seq<char>) -> Seq<char> {
    stem + seq!['_'] + zero_padded(decimal(version), 2) + ext
}

/// Of two names that differ in the version alone, that with the higher number is newer.
pub proof fn higher_version_is_newer(stem: Seq<char>, a: nat, b: nat, ext: Seq<char>)
    requires
        a < 100,
        b < 100,
        ext.len() > 0 ==> ext[0] == '.',
        forall|i: int| 0 <= i < ext.len() ==> #[trigger] ext[i] != '_',
    ensures
        is_newer(versioned(stem, a, ext), versioned(stem, b, ext)) <==> a < b,
{
    let x = versioned(stem, a, ext);
    let y = versioned(stem, b, ext);
    let k = stem.len() as int + 1;
    lemma_two_digits(a);
    lemma_two_digits(b);
    let da = zero_padded(decimal(a), 2);
    let db = zero_padded(decimal(b), 2);
    assert(x[stem.len() as int] == '_');
    assert(x[k] == da[0] && x[k + 1] == da[1]);
    assert(y[k] == db[0] && y[k + 1] == db[1]);
    assert(x.skip(k + 2) =~= ext);
    assert(y.skip(k + 2) =~= ext);
    assert(x.take(k) =~= stem + seq!['_']);
    assert(y.take(k) =~= stem + seq!['_']);
    character_is_found_where_it_last_stands(x, '_', x.len());
    let u = last_before(x, '_', x.len())->0;
    assert(u == stem.len()) by {
        if u > stem.len() {
            if u >= k + 2 {
                assert(x[u] == ext[u - k - 2]);
            } else {
                assert(u == k || u == k + 1);
            }
        }
    }
    if ext.len() > 0 {
        assert(x[k + 2] == ext[0] && y[k + 2] == ext[0]);
    }
}

proof fn lemma_two_digits(n: nat)
    requires
        n < 100,
    ensures
        zero_padded(decimal(n), 2) == seq![digit_char(n / 10), digit_char(n % 10)],
{
    reveal_with_fuel(decimal, 3);
    reveal_with_fuel(zero_padded, 3);
    assert(zero_padded(decimal(n), 2) =~= seq![digit_char(n / 10), digit_char(n % 10)]);
}

/// The version of a tool is the first line of what it prints, trimmed; a tool that cannot be
/// run is not found.
pub proof fn versions_are_first_lines(line: Seq<char>, rest: Seq<char>)
    requires
        forall|i: int| 0 <= i < line.len() ==> #[trigger] line[i] != '\n',
    ensures
        first_line(line + seq!['\n'] + rest) == trim(line),
        first_line(line) == trim(line),
        version_of(None) == "not found"@,
{
    lemma_newline(line, rest);
    lemma_no_newline(line);
    let t = line + seq!['\n'] + rest;
    assert(t.take(line.len() as int) =~= line);
}

proof fn lemma_newline(line: Seq<char>, rest: Seq<char>)
    requires
        forall|i: int| 0 <= i < line.len() ==> #[trigger] line[i] != '\n',
    ensures
        find_from(line + seq!['\n'] + rest, seq!['\n'], 0) == Some(line.len() as int),
{
    let nl = seq!['\n'];
    let t = line + nl + rest;
    let n = line.len() as int;
    text_is_found_where_it_first_stands(t, nl, 0);
    assert(t.subrange(n, n + 1) =~= nl);
    assert(matches_at(t, nl, n));
    let k = find_from(t, nl, 0)->0;
    assert(t.subrange(k, k + 1)[0] == t[k]);
    if k < n {
        assert(t[k] == line[k]);
    }
}

proof fn lemma_no_newline(line: Seq<char>)
    requires
        forall|i: int| 0 <= i < line.len() ==> #[trigger] line[i] != '\n',
    ensures
        find_from(line, seq!['\n'], 0) is None,
{
    let nl = seq!['\n'];
    text_is_found_where_it_first_stands(line, nl, 0);
    if let Some(j) = find_from(line, nl, 0) {
        assert(line.subrange(j, j + 1)[0] == line[j]);
    }
}

/// A frame index is decompressed before it is read exactly if it begins like compressed bytes.
pub proof fn indexes_are_read_compressed_or_not(bytes: Seq<u8>)
    ensures
        !is_zstd(bytes) ==> vfr_load(bytes) == match vfr_parse(bytes) {
            Ok(m) => Ok::<VfrModel, VfrLoadFault>(m),
            Err(e) => Err(VfrLoadFault::Vfr(e)),
        },
        is_zstd(bytes) ==> (zstd_decoded(bytes) matches Ok(d) ==> vfr_load(bytes) == match vfr_parse(
            d,
        ) {
            Ok(m) => Ok::<VfrModel, VfrLoadFault>(m),
            Err(e) => Err(VfrLoadFault::Vfr(e)),
        }),
{
}

/// A manifest is known by the word in its name, wherever it stands, and by its extension.
pub proof fn manifests_are_known_by_name(name: Seq<char>, ext: Seq<char>)
    ensures
        names_manifest(name, ext) <==> stands_in(name, "manifest"@) && name.len() >= ext.len()
            && name.skip(name.len() - ext.len()) == ext,
{
    lemma_contains(name, "manifest"@);
}

/// A sidecar has the name of its raw file, with an extension behind it.
pub proof fn sidecars_are_named_after_their_files(raw_name: Seq<char>)
    ensures
        sidecar_name(raw_name).take(raw_name.len() as int) == raw_name,
        sidecar_name(raw_name).skip(raw_name.len() as int) == ".cbr.json"@,
{
    let s = sidecar_name(raw_name);
    assert(s.take(raw_name.len() as int) =~= raw_name);
    assert(s.skip(raw_name.len() as int) =~= ".cbr.json"@);
}

} // verus!
