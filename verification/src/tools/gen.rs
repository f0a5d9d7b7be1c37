//! Making a binstruct file from a Matroska file and raw tracks.
use crate::binstruct::{
    entry_models, policy_models, tool_models, BinstructFile, BinstructModel, ClusterTimestamps,
    CodecType, EntryModel, Header, MkvSkeleton, PolicyModel, SkeletonModel, Source, SourceModel,
    TimestampsModel, ToolEntry, TrackEntryRecord, TrackPolicy,
};
use crate::bytes::bytes_start_with;
use crate::compress::{decode_all, is_zstd, zstd_decoded, zstd_magic};
use crate::filter::track_meta::{text_for, text_lossy};
use crate::muxer::coordinator::{signed64, to_signed};
use crate::muxer::plan::times_from;
use crate::text::{
    chars_equal, chars_of, contains_text, decimal, ends_with, find_chars, find_from, is_text,
    last_before, push_decimal, push_padded, rfind_char, string_of, text_contains,
    text_ends_with, trim, trim_chars, zero_padded,
};
use crate::tools::mkv::{
    parsed_views, MkvModel, ParsedMkv, ParsedModel, ParsedTrackEntry,
};
use crate::vfr::{vfr_parse, VfrError, VfrFault, VfrFile, VfrModel};
use std::path::PathBuf;
use vstd::prelude::*;
use vstd::string::*;

verus! {

/// What the caller of the generator gives.
pub struct GenArgs {
    pub mkv: PathBuf,
    pub torrent_root: PathBuf,
    pub publisher: String,
    pub compress: bool,
    pub output: PathBuf,
}

/// What is known of the making of a binstruct file.
pub struct Origin {
    pub original_mkv_hash: [u8; 32],
    /// Milliseconds since the epoch.
    pub creation_timestamp: u64,
    pub build_tools: Vec<ToolEntry>,
}

/// What the sidecar of a raw track with one frame size tells.
#[derive(Debug, Clone, Copy, PartialEq, Eq)]
pub struct CbrMeta {
    pub frame_count: u64,
    pub cbr_frame_size: u64,
    pub file_size_bytes: u64,
    pub frame_duration_ns: u64,
}

/// The number of default audio tracks among the first `n`.
pub open spec fn defaults_upto(entries: Seq<ParsedModel>, n: nat) -> nat
    decreases n,
{
    if n == 0 {
        0
    } else {
        defaults_upto(entries, (n - 1) as nat) + if is_default_audio(entries[n - 1]) {
            1nat
        } else {
            0nat
        }
    }
}

/// Whether a track is audio with FlagDefault=1.
pub open spec fn is_default_audio(e: ParsedModel) -> bool {
    e.track_type == 2 && e.flag_default == 1
}

/// The first default audio track from number `k` on.
pub open spec fn default_from(entries: Seq<ParsedModel>, k: nat) -> Option<nat>
    decreases entries.len() - k,
{
    if k >= entries.len() {
        None
    } else if is_default_audio(entries[k as int]) {
        Some(k)
    } else {
        default_from(entries, k + 1)
    }
}

/// Whether a code is two or three ASCII letters.
pub open spec fn is_iso639(code: Seq<char>) -> bool {
    (code.len() == 2 || code.len() == 3) && forall|i: int|
        0 <= i < code.len() ==> is_letter(#[trigger] code[i])
}

pub open spec fn is_letter(c: char) -> bool {
    'a' <= c <= 'z' || 'A' <= c <= 'Z'
}

/// The error for a default audio track without a valid language.
pub open spec fn bad_language(id: u64, lang: Seq<char>) -> Seq<char> {
    "default audio track (id="@ + decimal(id as nat) + ") has invalid/empty language '"@ + lang
        + "'; must be a valid ISO 639 code"@
}

/// Id and language of the default audio track, of which there must be exactly one, with
/// a valid language; or the error.
pub open spec fn default_of(entries: Seq<ParsedModel>) -> Result<(u64, Seq<char>), Seq<char>> {
    let count = defaults_upto(entries, entries.len());
    if count == 0 {
        Err("no audio track has FlagDefault=1; exactly one required"@)
    } else if count > 1 {
        Err(decimal(count) + " audio tracks have FlagDefault=1; exactly one required"@)
    } else {
        let e = entries[default_from(entries, 0)->0 as int];
        let lang = trim(e.language);
        if lang.len() == 0 || lang == "und"@ || !is_iso639(lang) {
            Err(bad_language(e.track_id, lang))
        } else {
            Ok((e.track_id, lang))
        }
    }
}

fn is_valid_iso639(code: &[char]) -> (r: bool)
    ensures
        r == is_iso639(code@),
{
    if code.len() != 2 && code.len() != 3 {
        return false;
    }
    let mut i: usize = 0;
    while i < code.len()
        invariant
            code@.len() == 2 || code@.len() == 3,
            i <= code@.len(),
            forall|k: int| 0 <= k < i ==> is_letter(#[trigger] code@[k]),
        decreases code@.len() - i,
    {
        let c: char = code[i];
        if !(('a' <= c && c <= 'z') || ('A' <= c && c <= 'Z')) {
            assert(!is_letter(code@[i as int]));
            return false;
        }
        i = i + 1;
    }
    true
}

/// Id and language of the default audio track.
pub fn default_track(entries: &Vec<ParsedTrackEntry>) -> (r: Result<(u64, String), String>)
    ensures
        match default_of(parsed_views(entries@)) {
            Ok(p) => r matches Ok(q) && q.0 == p.0 && q.1@ == p.1,
            Err(fault) => r matches Err(s) && s@ == fault,
        },
{
    let ghost views = parsed_views(entries@);
    let mut count: usize = 0;
    let mut found: usize = 0;
    let mut i: usize = 0;
    while i < entries.len()
        invariant
            views == parsed_views(entries@),
            i <= entries@.len(),
            count <= i,
            count == defaults_upto(views, i as nat),
            count == 0 ==> default_from(views, 0) == default_from(views, i as nat),
            count > 0 ==> default_from(views, 0) == Some(found as nat) && found < entries@.len(),
        decreases entries@.len() - i,
    {
        let e: &ParsedTrackEntry = &entries[i];
        assert(views[i as int] == e@);
        if e.track_type == 2 && e.flag_default == 1 {
            if count == 0 {
                found = i;
            }
            count = count + 1;
        }
        i = i + 1;
    }
    if count == 0 {
        return Err("no audio track has FlagDefault=1; exactly one required".to_owned());
    }
    if count > 1 {
        let mut s: String = String::new();
        push_decimal(&mut s, count as u128);
        s.append(" audio tracks have FlagDefault=1; exactly one required");
        assert(s@ =~= decimal(count as nat)
            + " audio tracks have FlagDefault=1; exactly one required"@);
        return Err(s);
    }
    let e: &ParsedTrackEntry = &entries[found];
    assert(views[found as int] == e@);
    let chars: Vec<char> = chars_of(e.language.as_str());
    let lang: &[char] = trim_chars(&chars);
    let text: String = string_of(lang);
    if lang.len() == 0 || is_text(lang, "und") || !is_valid_iso639(lang) {
        let mut s: String = "default audio track (id=".to_owned();
        push_decimal(&mut s, e.track_id as u128);
        s.append(") has invalid/empty language '");
        s.append(text.as_str());
        s.append("'; must be a valid ISO 639 code");
        return Err(s);
    }
    Ok((e.track_id, text))
}

/// The part of the name of a raw video file that tells its track.
pub open spec fn video_pattern(track_id: u64) -> Seq<char> {
    "_v"@ + zero_padded(decimal(track_id as nat), 2) + "_"@
}

/// The part of the name of a raw audio file that tells its track.
pub open spec fn audio_pattern(track_id: u64) -> Seq<char> {
    "_a"@ + zero_padded(decimal(track_id as nat), 3) + "_"@
}

/// The part of the name of a raw file that tells its track.
pub fn raw_pattern(track_id: u64, is_video: bool) -> (r: String)
    ensures
        r@ == if is_video {
            video_pattern(track_id)
        } else {
            audio_pattern(track_id)
        },
{
    if is_video {
        let mut s: String = "_v".to_owned();
        push_padded(&mut s, track_id as u128, 2);
        s.append("_");
        s
    } else {
        let mut s: String = "_a".to_owned();
        push_padded(&mut s, track_id as u128, 3);
        s.append("_");
        s
    }
}

/// Whether a name is that of a frame index for a track.
pub open spec fn is_vfr_name(name: Seq<char>, pattern: Seq<char>) -> bool {
    contains_text(name, pattern) && (ends_with(name, ".vfr"@) || contains_text(name, ".vfr."@))
}

/// Whether a name is that of a file that is looked for: of a frame index where `vfr`,
/// else of any file that tells the track.
pub open spec fn is_sought(name: Seq<char>, pattern: Seq<char>, vfr: bool) -> bool {
    if vfr {
        is_vfr_name(name, pattern)
    } else {
        contains_text(name, pattern)
    }
}

/// The first name from number `k` on that is looked for.
pub open spec fn sought_from(
    names: Seq<String>,
    pattern: Seq<char>,
    vfr: bool,
    k: nat,
) -> Option<nat>
    decreases names.len() - k,
{
    if k >= names.len() {
        None
    } else if is_sought(names[k as int]@, pattern, vfr) {
        Some(k)
    } else {
        sought_from(names, pattern, vfr, k + 1)
    }
}

/// Whether the two digits of a version stand from `k` on, with nothing or an extension
/// behind them.
pub open spec fn version_at(name: Seq<char>, k: int) -> bool {
    &&& 0 <= k
    &&& k + 2 <= name.len()
    &&& '0' <= name[k] <= '9'
    &&& '0' <= name[k + 1] <= '9'
    &&& k + 2 < name.len() ==> name[k + 2] == '.'
}

/// Whether two names differ in the version alone, and the second has the higher one.
pub open spec fn is_newer(old_name: Seq<char>, new_name: Seq<char>) -> bool {
    match last_before(old_name, '_', old_name.len()) {
        None => false,
        Some(u) => {
            let k = u + 1;
            &&& version_at(old_name, k as int)
            &&& version_at(new_name, k as int)
            &&& old_name.len() == new_name.len()
            &&& old_name.take(k as int) == new_name.take(k as int)
            &&& old_name.skip(k + 2) == new_name.skip(k + 2)
            &&& old_name[k as int] < new_name[k as int] || (old_name[k as int]
                == new_name[k as int] && old_name[k + 1] < new_name[k + 1])
        },
    }
}

/// The newest version of the file number `best` among the names from number `k` on.
pub open spec fn newest_from(
    names: Seq<String>,
    pattern: Seq<char>,
    vfr: bool,
    k: nat,
    best: nat,
) -> nat
    decreases names.len() - k,
{
    if k >= names.len() {
        best
    } else if is_sought(names[k as int]@, pattern, vfr) && is_newer(
        names[best as int]@,
        names[k as int]@,
    ) {
        newest_from(names, pattern, vfr, k + 1, k)
    } else {
        newest_from(names, pattern, vfr, k + 1, best)
    }
}

/// The place of the first name that is looked for, or that of its newest version.
pub open spec fn found_file(names: Seq<String>, pattern: Seq<char>, vfr: bool) -> Option<nat> {
    match sought_from(names, pattern, vfr, 0) {
        None => None,
        Some(k) => Some(newest_from(names, pattern, vfr, k + 1, k)),
    }
}

fn sought(name: &str, pattern: &str, vfr: bool) -> (r: bool)
    ensures
        r == is_sought(name@, pattern@, vfr),
{
    if vfr {
        text_contains(name, pattern) && (text_ends_with(name, ".vfr") || text_contains(
            name,
            ".vfr.",
        ))
    } else {
        text_contains(name, pattern)
    }
}

fn has_version(name: &[char], k: usize) -> (r: bool)
    requires
        k <= name@.len(),
    ensures
        r == version_at(name@, k as int),
{
    if name.len() - k < 2 {
        return false;
    }
    let a: char = name[k];
    let b: char = name[k + 1];
    '0' <= a && a <= '9' && '0' <= b && b <= '9' && (name.len() - k == 2 || name[k + 2] == '.')
}

fn newer(old_name: &str, new_name: &str) -> (r: bool)
    ensures
        r == is_newer(old_name@, new_name@),
{
    let a: Vec<char> = chars_of(old_name);
    let b: Vec<char> = chars_of(new_name);
    let n: usize = a.len();
    let k: usize = match rfind_char(&a, '_') {
        None => return false,
        Some(u) => u + 1,
    };
    if a.len() != b.len() || !has_version(&a, k) || !has_version(&b, k) {
        return false;
    }
    proof {
        assert(a@.subrange(0, k as int) =~= a@.take(k as int));
        assert(b@.subrange(0, k as int) =~= b@.take(k as int));
        assert(a@.subrange(k + 2, n as int) =~= a@.skip(k + 2));
        assert(b@.subrange(k + 2, n as int) =~= b@.skip(k + 2));
    }
    chars_equal(&a.as_slice()[0..k], &b.as_slice()[0..k]) && chars_equal(
        &a.as_slice()[k + 2..n],
        &b.as_slice()[k + 2..n],
    ) && (a[k] < b[k] || (a[k] == b[k] && a[k + 1] < b[k + 1]))
}

/// The place of the first file name that tells the track, or that of its newest version:
/// where names differ in the version alone, the highest one counts.
pub fn find_file(names: &Vec<String>, pattern: &str, vfr: bool) -> (r: Option<usize>)
    ensures
        match found_file(names@, pattern@, vfr) {
            Some(k) => r matches Some(i) && i == k && i < names@.len(),
            None => r is None,
        },
{
    let mut k: usize = 0;
    while k < names.len() && !sought(names[k].as_str(), pattern, vfr)
        invariant
            k <= names@.len(),
            sought_from(names@, pattern@, vfr, 0) == sought_from(names@, pattern@, vfr, k as nat),
        decreases names@.len() - k,
    {
        k = k + 1;
    }
    if k == names.len() {
        return None;
    }
    let ghost whole = newest_from(names@, pattern@, vfr, (k + 1) as nat, k as nat);
    let mut best: usize = k;
    let mut i: usize = k + 1;
    while i < names.len()
        invariant
            best < i <= names@.len(),
            whole == newest_from(names@, pattern@, vfr, i as nat, best as nat),
        decreases names@.len() - i,
    {
        if sought(names[i].as_str(), pattern, vfr) && newer(
            names[best].as_str(),
            names[i].as_str(),
        ) {
            best = i;
        }
        i = i + 1;
    }
    Some(best)
}

/// Where the files of a track are among the names in their directories.
#[derive(Debug, Clone, Copy, PartialEq, Eq, Structural)]
pub enum Located {
    /// Neither video nor audio.
    Skipped,
    /// With the frame index, if there is one.
    Found { raw: usize, vfr: Option<usize> },
    NoRaw,
    NoVfr,
}

/// Where the files of a track are: video needs a raw file and a frame index, audio a
/// raw file.
pub open spec fn located(
    e: ParsedModel,
    video: Seq<String>,
    audio: Seq<String>,
    vfr: Seq<String>,
) -> Located {
    if e.track_type != 1 && e.track_type != 2 {
        Located::Skipped
    } else {
        let pattern = if e.track_type == 1 {
            video_pattern(e.track_id)
        } else {
            audio_pattern(e.track_id)
        };
        let raw = found_file(
            if e.track_type == 1 {
                video
            } else {
                audio
            },
            pattern,
            false,
        );
        let index = found_file(vfr, pattern, true);
        match (raw, index) {
            (None, _) => Located::NoRaw,
            (Some(r), Some(v)) => Located::Found { raw: r as usize, vfr: Some(v as usize) },
            (Some(r), None) => if e.track_type == 1 {
                Located::NoVfr
            } else {
                Located::Found { raw: r as usize, vfr: None }
            },
        }
    }
}

/// Finds the files of a track among the names in their directories.
pub fn locate_track(
    entry: &ParsedTrackEntry,
    video: &Vec<String>,
    audio: &Vec<String>,
    vfr: &Vec<String>,
) -> (r: Located)
    ensures
        r == located(entry@, video@, audio@, vfr@),
{
    if entry.track_type != 1 && entry.track_type != 2 {
        return Located::Skipped;
    }
    let is_video: bool = entry.track_type == 1;
    let pattern: String = raw_pattern(entry.track_id, is_video);
    let found: Option<usize> = if is_video {
        find_file(video, pattern.as_str(), false)
    } else {
        find_file(audio, pattern.as_str(), false)
    };
    match found {
        None => Located::NoRaw,
        Some(raw) => match find_file(vfr, pattern.as_str(), true) {
            Some(v) => Located::Found { raw, vfr: Some(v) },
            None => if is_video {
                Located::NoVfr
            } else {
                Located::Found { raw, vfr: None }
            },
        },
    }
}

/// The name of the sidecar of a raw file.
pub open spec fn sidecar_name(raw_name: Seq<char>) -> Seq<char> {
    raw_name + ".cbr.json"@
}

/// The name of the sidecar of a raw file.
pub fn cbr_json_name(raw_name: &str) -> (r: String)
    ensures
        r@ == sidecar_name(raw_name@),
        r@ == raw_name@ + ".cbr.json"@,
{
    let mut s: String = raw_name.to_owned();
    s.append(".cbr.json");
    s
}

/// The tail of the messages on sizes that do not agree.
pub open spec fn product_text(meta: CbrMeta) -> Seq<char> {
    " != frame_count("@ + decimal(meta.frame_count as nat) + ") × cbr_frame_size("@ + decimal(
        meta.cbr_frame_size as nat,
    ) + ") = "@ + decimal((meta.frame_count * meta.cbr_frame_size) as nat)
}

/// What is wrong with the sizes that a sidecar and a file tell, if anything.
pub open spec fn cbr_fault(track_id: u64, meta: CbrMeta, actual_size: u64) -> Option<Seq<char>> {
    let expected = meta.frame_count * meta.cbr_frame_size;
    let head = "CBR consistency check failed for audio track "@ + decimal(track_id as nat);
    if meta.file_size_bytes != expected {
        Some(
            head + ": file_size_bytes="@ + decimal(meta.file_size_bytes as nat) + product_text(
                meta,
            ),
        )
    } else if actual_size != expected {
        Some(
            head + ": actual file size "@ + decimal(actual_size as nat) + product_text(meta),
        )
    } else {
        None
    }
}

fn push_product(s: &mut String, meta: &CbrMeta, expected: u128)
    requires
        expected == meta.frame_count * meta.cbr_frame_size,
    ensures
        final(s)@ == old(s)@ + product_text(*meta),
{
    s.append(" != frame_count(");
    push_decimal(s, meta.frame_count as u128);
    s.append(") × cbr_frame_size(");
    push_decimal(s, meta.cbr_frame_size as u128);
    s.append(") = ");
    push_decimal(s, expected);
    assert(s@ =~= old(s)@ + product_text(*meta));
}

/// Checks that the size of a raw file is the number of its frames times their size.
pub fn check_cbr(track_id: u64, meta: &CbrMeta, actual_size: u64) -> (r: Result<(), String>)
    ensures
        match cbr_fault(track_id, *meta, actual_size) {
            Some(fault) => r matches Err(s) && s@ == fault,
            None => r is Ok,
        },
{
    proof {
        assert(0 <= meta.frame_count * meta.cbr_frame_size <= 0xFFFF_FFFF_FFFF_FFFF
            * 0xFFFF_FFFF_FFFF_FFFF) by (nonlinear_arith)
            requires
                0 <= meta.frame_count <= 0xFFFF_FFFF_FFFF_FFFF,
                0 <= meta.cbr_frame_size <= 0xFFFF_FFFF_FFFF_FFFF,
        ;
    }
    let expected: u128 = meta.frame_count as u128 * meta.cbr_frame_size as u128;
    if meta.file_size_bytes as u128 != expected {
        let mut s: String = "CBR consistency check failed for audio track ".to_owned();
        push_decimal(&mut s, track_id as u128);
        s.append(": file_size_bytes=");
        push_decimal(&mut s, meta.file_size_bytes as u128);
        push_product(&mut s, meta, expected);
        return Err(s);
    }
    if actual_size as u128 != expected {
        let mut s: String = "CBR consistency check failed for audio track ".to_owned();
        push_decimal(&mut s, track_id as u128);
        s.append(": actual file size ");
        push_decimal(&mut s, actual_size as u128);
        push_product(&mut s, meta, expected);
        return Err(s);
    }
    Ok(())
}

/// Why a frame index could not be loaded.
#[derive(Debug, Clone, PartialEq, Eq)]
pub enum VfrLoadError {
    Zstd(String),
    Vfr(VfrError),
}

/// [`VfrLoadError`] with sequences for strings.
pub ghost enum VfrLoadFault {
    Zstd(Seq<char>),
    Vfr(VfrFault),
}

impl View for VfrLoadError {
    type V = VfrLoadFault;

    open spec fn view(&self) -> VfrLoadFault {
        match self {
            VfrLoadError::Zstd(s) => VfrLoadFault::Zstd(s@),
            VfrLoadError::Vfr(e) => VfrLoadFault::Vfr(e@),
        }
    }
}

/// What a frame index, compressed or not, means.
pub open spec fn vfr_load(bytes: Seq<u8>) -> Result<VfrModel, VfrLoadFault> {
    let data: Result<Seq<u8>, Seq<char>> = if is_zstd(bytes) {
        zstd_decoded(bytes)
    } else {
        Ok(bytes)
    };
    match data {
        Err(e) => Err(VfrLoadFault::Zstd(e)),
        Ok(d) => match vfr_parse(d) {
            Ok(m) => Ok(m),
            Err(e) => Err(VfrLoadFault::Vfr(e)),
        },
    }
}

/// Reads a frame index; bytes that begin like a zstd frame are decompressed first.
pub fn read_vfr(bytes: &[u8]) -> (r: Result<VfrFile, VfrLoadError>)
    ensures
        match r {
            Ok(f) => vfr_load(bytes@) == Ok::<VfrModel, VfrLoadFault>(f@),
            Err(e) => vfr_load(bytes@) == Err::<VfrModel, VfrLoadFault>(e@),
        },
{
    let magic: [u8; 4] = [0x28u8, 0xB5u8, 0x2Fu8, 0xFDu8];
    assert(magic@ =~= zstd_magic());
    if bytes_start_with(bytes, &magic) {
        match decode_all(bytes) {
            Err(e) => Err(VfrLoadError::Zstd(e)),
            Ok(raw) => match VfrFile::read_from(&raw) {
                Ok(f) => Ok(f),
                Err(e) => Err(VfrLoadError::Vfr(e)),
            },
        }
    } else {
        match VfrFile::read_from(bytes) {
            Ok(f) => Ok(f),
            Err(e) => Err(VfrLoadError::Vfr(e)),
        }
    }
}

/// What the files of a track tell: with a frame index, its hash and number of frames;
/// else the sidecar.
pub enum TrackFiles {
    Vbr { raw_file_hash: [u8; 32], vfr_file_hash: [u8; 32], frame_count: u64 },
    Cbr { raw_file_hash: [u8; 32], meta: CbrMeta },
}

/// The policy of a track.
pub open spec fn policy_of(e: ParsedModel, files: TrackFiles) -> PolicyModel {
    PolicyModel {
        track_id: e.track_id,
        codec_type: if e.track_type == 1 {
            CodecType::Video
        } else {
            CodecType::Audio
        },
        language_code: if e.language.len() == 0 {
            "und"@
        } else {
            e.language
        },
        frame_count: match files {
            TrackFiles::Vbr { raw_file_hash, vfr_file_hash, frame_count } => frame_count,
            TrackFiles::Cbr { raw_file_hash, meta } => meta.frame_count,
        },
        is_vbr: files is Vbr,
        frame_duration: match files {
            TrackFiles::Vbr { raw_file_hash, vfr_file_hash, frame_count } => 0,
            TrackFiles::Cbr { raw_file_hash, meta } => meta.frame_duration_ns,
        },
        cbr_frame_size: match files {
            TrackFiles::Vbr { raw_file_hash, vfr_file_hash, frame_count } => None,
            TrackFiles::Cbr { raw_file_hash, meta } => Some(meta.cbr_frame_size),
        },
        raw_file_hash: match files {
            TrackFiles::Vbr { raw_file_hash, vfr_file_hash, frame_count } => raw_file_hash@,
            TrackFiles::Cbr { raw_file_hash, meta } => raw_file_hash@,
        },
        vfr_file_hash: match files {
            TrackFiles::Vbr { raw_file_hash, vfr_file_hash, frame_count } => Some(vfr_file_hash@),
            TrackFiles::Cbr { raw_file_hash, meta } => None,
        },
    }
}

/// Makes the policy of a track.
pub fn make_policy(entry: &ParsedTrackEntry, files: &TrackFiles) -> (r: TrackPolicy)
    ensures
        r@ == policy_of(entry@, *files),
{
    let codec_type: CodecType = if entry.track_type == 1 {
        CodecType::Video
    } else {
        CodecType::Audio
    };
    let language_code: String = if entry.language.as_str().is_empty() {
        "und".to_owned()
    } else {
        entry.language.clone()
    };
    match files {
        TrackFiles::Vbr { raw_file_hash, vfr_file_hash, frame_count } => TrackPolicy {
            track_id: entry.track_id,
            codec_type,
            language_code,
            frame_count: *frame_count,
            is_vbr: true,
            frame_duration: 0,
            cbr_frame_size: None,
            raw_file_hash: *raw_file_hash,
            vfr_file_hash: Some(*vfr_file_hash),
        },
        TrackFiles::Cbr { raw_file_hash, meta } => TrackPolicy {
            track_id: entry.track_id,
            codec_type,
            language_code,
            frame_count: meta.frame_count,
            is_vbr: false,
            frame_duration: meta.frame_duration_ns,
            cbr_frame_size: Some(meta.cbr_frame_size),
            raw_file_hash: *raw_file_hash,
            vfr_file_hash: None,
        },
    }
}

/// The first files, from number `k` on, that were found for a track.
pub open spec fn files_from(
    files: Seq<(u64, TrackFiles)>,
    track_id: u64,
    k: nat,
) -> Option<TrackFiles>
    decreases files.len() - k,
{
    if k >= files.len() {
        None
    } else if files[k as int].0 == track_id {
        Some(files[k as int].1)
    } else {
        files_from(files, track_id, k + 1)
    }
}

/// Whether files were found for each of the first `n` tracks that is video or audio.
pub open spec fn files_known(
    entries: Seq<ParsedModel>,
    files: Seq<(u64, TrackFiles)>,
    n: nat,
) -> bool {
    forall|i: int|
        0 <= i < n ==> is_av(#[trigger] entries[i]) ==> files_from(files, entries[i].track_id, 0)
            is Some
}

/// Whether a track is video or audio.
pub open spec fn is_av(e: ParsedModel) -> bool {
    e.track_type == 1 || e.track_type == 2
}

/// The policies of those of the first `n` tracks that are video or audio, in order.
pub open spec fn policies_upto(
    entries: Seq<ParsedModel>,
    files: Seq<(u64, TrackFiles)>,
    n: nat,
) -> Seq<PolicyModel>
    decreases n,
{
    if n == 0 {
        Seq::empty()
    } else {
        let before = policies_upto(entries, files, (n - 1) as nat);
        let e = entries[n - 1];
        if is_av(e) {
            before.push(policy_of(e, files_from(files, e.track_id, 0)->0))
        } else {
            before
        }
    }
}

fn find_files(files: &Vec<(u64, TrackFiles)>, track_id: u64) -> (r: Option<&TrackFiles>)
    ensures
        match files_from(files@, track_id, 0) {
            Some(f) => r matches Some(g) && *g == f,
            None => r is None,
        },
{
    let mut k: usize = 0;
    while k < files.len()
        invariant
            k <= files@.len(),
            files_from(files@, track_id, 0) == files_from(files@, track_id, k as nat),
        decreases files@.len() - k,
    {
        if files[k].0 == track_id {
            return Some(&files[k].1);
        }
        k = k + 1;
    }
    None
}

/// Makes the policies of the video and audio tracks from the files that were found for
/// each track id; nothing where a track has no files.
pub fn make_policies(
    entries: &Vec<ParsedTrackEntry>,
    files: &Vec<(u64, TrackFiles)>,
) -> (r: Option<Vec<TrackPolicy>>)
    ensures
        match r {
            Some(v) => {
                &&& files_known(parsed_views(entries@), files@, entries@.len())
                &&& policy_models(v@) == policies_upto(
                    parsed_views(entries@),
                    files@,
                    entries@.len(),
                )
            },
            None => !files_known(parsed_views(entries@), files@, entries@.len()),
        },
{
    let ghost views = parsed_views(entries@);
    let mut out: Vec<TrackPolicy> = Vec::new();
    let mut i: usize = 0;
    assert(policy_models(out@) =~= Seq::<PolicyModel>::empty());
    while i < entries.len()
        invariant
            views == parsed_views(entries@),
            i <= entries@.len(),
            files_known(views, files@, i as nat),
            policy_models(out@) == policies_upto(views, files@, i as nat),
        decreases entries@.len() - i,
    {
        let e: &ParsedTrackEntry = &entries[i];
        assert(views[i as int] == e@);
        if e.track_type == 1 || e.track_type == 2 {
            match find_files(files, e.track_id) {
                None => {
                    assert(is_av(views[i as int]));
                    return None;
                },
                Some(f) => {
                    let ghost before = out@;
                    let policy: TrackPolicy = make_policy(e, f);
                    out.push(policy);
                    assert(policy_models(out@) =~= policy_models(before).push(policy@));
                },
            }
        }
        i = i + 1;
    }
    Some(out)
}

/// The differences between times: the first time, then how much each is later.
pub open spec fn deltas_of(ts: Seq<u64>) -> Seq<int> {
    Seq::new(
        ts.len(),
        |i: int|
            if i == 0 {
                signed64(ts[0])
            } else {
                signed64(ts[i]) - signed64(ts[i - 1])
            },
    )
}

/// Whether all differences fit in 64 bits.
pub open spec fn deltas_fit(ts: Seq<u64>) -> bool {
    forall|i: int|
        0 <= i < ts.len() ==> i64::MIN <= #[trigger] deltas_of(ts)[i] && deltas_of(ts)[i]
            <= i64::MAX
}

/// The differences between times, if they all fit in 64 bits.
pub fn checked_deltas(ts: &Vec<u64>) -> (r: Option<Vec<i64>>)
    ensures
        match r {
            Some(v) => deltas_fit(ts@) && v@.len() == ts@.len() && forall|i: int|
                0 <= i < ts@.len() ==> #[trigger] v@[i] == deltas_of(ts@)[i],
            None => !deltas_fit(ts@),
        },
{
    let mut deltas: Vec<i64> = Vec::new();
    let mut i: usize = 0;
    while i < ts.len()
        invariant
            i <= ts@.len(),
            deltas@.len() == i,
            forall|k: int| 0 <= k < i ==> #[trigger] deltas@[k] == deltas_of(ts@)[k],
            forall|k: int|
                0 <= k < i ==> i64::MIN <= #[trigger] deltas_of(ts@)[k] && deltas_of(ts@)[k]
                    <= i64::MAX,
        decreases ts@.len() - i,
    {
        let d: i128 = if i == 0 {
            to_signed(ts[0])
        } else {
            to_signed(ts[i]) - to_signed(ts[i - 1])
        };
        assert(d == deltas_of(ts@)[i as int]);
        if d < i64::MIN as i128 || d > i64::MAX as i128 {
            return None;
        }
        deltas.push(d as i64);
        i = i + 1;
    }
    Some(deltas)
}

/// The differences between times: the first time, then how much each is later.
pub fn timestamps_to_deltas(ts: &Vec<u64>) -> (r: Vec<i64>)
    requires
        deltas_fit(ts@),
    ensures
        r@.len() == ts@.len(),
        forall|i: int| 0 <= i < ts@.len() ==> #[trigger] r@[i] == deltas_of(ts@)[i],
{
    match checked_deltas(ts) {
        Some(v) => v,
        None => Vec::new(),
    }
}

/// Adding up the differences between times gives the times, where none is above the
/// greatest signed 64-bit number.
pub proof fn deltas_add_up(ts: Seq<u64>, deltas: Seq<i64>)
    requires
        forall|i: int| 0 <= i < ts.len() ==> #[trigger] ts[i] <= i64::MAX,
        deltas.len() == ts.len(),
        forall|i: int| 0 <= i < ts.len() ==> #[trigger] deltas[i] == deltas_of(ts)[i],
    ensures
        times_from(Seq::empty(), 0, deltas, 0) == Some(ts),
{
    lemma_deltas_from(ts, deltas, 0);
    assert(ts.take(0) =~= Seq::<u64>::empty());
}

proof fn lemma_deltas_from(ts: Seq<u64>, deltas: Seq<i64>, k: nat)
    requires
        k <= ts.len(),
        forall|i: int| 0 <= i < ts.len() ==> #[trigger] ts[i] <= i64::MAX,
        deltas.len() == ts.len(),
        forall|i: int| 0 <= i < ts.len() ==> #[trigger] deltas[i] == deltas_of(ts)[i],
    ensures
        times_from(
            ts.take(k as int),
            if k == 0 {
                0
            } else {
                ts[k - 1] as int
            },
            deltas,
            k,
        ) == Some(ts),
    decreases ts.len() - k,
{
    if k == ts.len() {
        assert(ts.take(k as int) =~= ts);
    } else {
        lemma_deltas_from(ts, deltas, k + 1);
        assert(deltas[k as int] == deltas_of(ts)[k as int]);
        assert(ts[k as int] <= i64::MAX);
        if k > 0 {
            assert(ts[k - 1] <= i64::MAX);
        }
        assert(ts.take(k as int).push(ts[k as int]) =~= ts.take(k as int + 1));
    }
}

/// The track entries that a binstruct file keeps.
pub open spec fn kept_entries(entries: Seq<ParsedModel>) -> Seq<EntryModel> {
    Seq::new(
        entries.len(),
        |i: int| EntryModel { track_id: entries[i].track_id, bytes: entries[i].raw_bytes },
    )
}

/// The binstruct file of a Matroska file.
pub open spec fn assembled(
    mkv: MkvModel,
    args: GenArgs,
    origin: Origin,
    language: Seq<char>,
    default_id: u64,
    deltas: Seq<i64>,
    policies: Seq<PolicyModel>,
) -> BinstructModel {
    BinstructModel {
        header: Header {
            version: 1,
            config_flags: if args.compress {
                0x01
            } else {
                0x00
            },
        },
        source: SourceModel {
            original_mkv_hash: origin.original_mkv_hash@,
            publisher_info: args.publisher@,
            creation_timestamp: origin.creation_timestamp,
            original_language: language,
            original_default_track_id: default_id,
            build_tools: tool_models(origin.build_tools@),
        },
        mkv_skeleton: SkeletonModel {
            pre_tracks_blob: mkv.pre_tracks_blob,
            track_entries: kept_entries(mkv.track_entries),
            post_tracks_blob: mkv.post_tracks_blob,
        },
        cluster_timestamps: TimestampsModel {
            cluster_count: mkv.cluster_timestamps.len() as u64,
            deltas,
        },
        track_policies: policies,
    }
}

fn keep_entries(entries: Vec<ParsedTrackEntry>) -> (r: Vec<TrackEntryRecord>)
    ensures
        entry_models(r@) == kept_entries(parsed_views(entries@)),
{
    let ghost all = parsed_views(entries@);
    let ghost n = entries@.len();
    let mut rest: Vec<ParsedTrackEntry> = entries;
    let mut back: Vec<TrackEntryRecord> = Vec::new();
    let total: usize = rest.len();
    while rest.len() > 0
        invariant
            n == total,
            all.len() == n,
            rest@.len() + back@.len() == n,
            forall|k: int| 0 <= k < rest@.len() ==> (#[trigger] rest@[k])@ == all[k],
            forall|k: int|
                0 <= k < back@.len() ==> (#[trigger] back@[k])@ == kept_entries(all)[n - 1 - k],
        decreases rest@.len(),
    {
        if let Some(e) = rest.pop() {
            back.push(TrackEntryRecord { track_id: e.track_id, bytes: e.raw_bytes });
        }
    }
    let mut out: Vec<TrackEntryRecord> = Vec::new();
    while back.len() > 0
        invariant
            all.len() == n,
            back@.len() + out@.len() == n,
            forall|k: int|
                0 <= k < back@.len() ==> (#[trigger] back@[k])@ == kept_entries(all)[n - 1 - k],
            forall|k: int| 0 <= k < out@.len() ==> (#[trigger] out@[k])@ == kept_entries(all)[k],
        decreases back@.len(),
    {
        if let Some(e) = back.pop() {
            out.push(e);
        }
    }
    assert(entry_models(out@) =~= kept_entries(all));
    out
}

/// Puts a binstruct file together; nothing where the differences between the times of
/// the clusters do not fit in 64 bits.
pub fn assemble(
    mkv: ParsedMkv,
    args: GenArgs,
    origin: Origin,
    original_language: String,
    original_default_track_id: u64,
    track_policies: Vec<TrackPolicy>,
) -> (r: Option<BinstructFile>)
    ensures
        match r {
            Some(b) => {
                &&& deltas_fit(mkv@.cluster_timestamps)
                &&& b.cluster_timestamps.deltas@.len() == mkv@.cluster_timestamps.len()
                &&& forall|i: int|
                    0 <= i < mkv@.cluster_timestamps.len()
                        ==> #[trigger] b.cluster_timestamps.deltas@[i] == deltas_of(
                        mkv@.cluster_timestamps,
                    )[i]
                &&& b@ == assembled(
                    mkv@,
                    args,
                    origin,
                    original_language@,
                    original_default_track_id,
                    b.cluster_timestamps.deltas@,
                    policy_models(track_policies@),
                )
            },
            None => !deltas_fit(mkv@.cluster_timestamps),
        },
{
    let deltas: Vec<i64> = match checked_deltas(&mkv.cluster_timestamps) {
        Some(v) => v,
        None => return None,
    };
    let cluster_count: u64 = mkv.cluster_timestamps.len() as u64;
    let track_entries: Vec<TrackEntryRecord> = keep_entries(mkv.track_entries);
    Some(
        BinstructFile {
            header: Header {
                version: 1,
                config_flags: if args.compress {
                    0x01
                } else {
                    0x00
                },
            },
            source: Source {
                original_mkv_hash: origin.original_mkv_hash,
                publisher_info: args.publisher,
                creation_timestamp: origin.creation_timestamp,
                original_language,
                original_default_track_id,
                build_tools: origin.build_tools,
            },
            mkv_skeleton: MkvSkeleton {
                pre_tracks_blob: mkv.pre_tracks_blob,
                track_entries,
                post_tracks_blob: mkv.post_tracks_blob,
            },
            cluster_timestamps: ClusterTimestamps { cluster_count, deltas },
            track_policies,
        },
    )
}

/// The first line of a text, without white space around it.
pub open spec fn first_line(text: Seq<char>) -> Seq<char> {
    match find_from(text, seq!['\n'], 0) {
        Some(k) => trim(text.take(k)),
        None => trim(text),
    }
}

/// The first line of a text, without white space around it.
pub fn first_line_of(text: &str) -> (r: String)
    ensures
        r@ == first_line(text@),
{
    let chars: Vec<char> = chars_of(text);
    let mut newline: Vec<char> = Vec::new();
    newline.push('\n');
    assert(newline@ =~= seq!['\n']);
    match find_chars(&chars, &newline, 0) {
        Some(k) => {
            assert(chars@.subrange(0, k as int) =~= chars@.take(k as int));
            string_of(trim_chars(&chars.as_slice()[0..k]))
        },
        None => string_of(trim_chars(&chars)),
    }
}

/// The version of a tool: the first line of what it prints, if it could be run.
pub open spec fn version_of(stdout: Option<Seq<u8>>) -> Seq<char> {
    match stdout {
        Some(bytes) => first_line(text_for(bytes)),
        None => "not found"@,
    }
}

/// Notes a tool with its version.
pub fn tool_entry(name: &str, stdout: Option<&[u8]>) -> (r: ToolEntry)
    ensures
        r.name@ == name@,
        r.version@ == version_of(
            match stdout {
                Some(bytes) => Some(bytes@),
                None => None,
            },
        ),
{
    let version: String = match stdout {
        Some(bytes) => first_line_of(text_lossy(bytes).as_str()),
        None => "not found".to_owned(),
    };
    ToolEntry { name: name.to_owned(), version }
}

} // verus!
