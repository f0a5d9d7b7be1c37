//! What a TrackEntry tells about a track.
use crate::binstruct::{BinstructFile, EntryModel, TrackEntryRecord};
use crate::bytes::be_value;
use crate::text::{begins_with, chars_begin_with, chars_of, is_text};
use crate::vint::{decode_vint, lemma_vint_at_value, vint_at, VintRead};
use vstd::prelude::*;
use vstd::string::*;
use vstd::utf8::{decode_utf8, valid_utf8};

verus! {

/// Extracted view of a track for use by the filter.
#[derive(Clone, Debug, PartialEq, Eq)]
pub struct TrackMeta {
    pub track_id: u32,
    pub kind: TrackKind,
    /// ISO 639; "und" if unknown.
    pub language: String,
    /// CodecID verbatim from TrackEntry EBML, e.g. "A_EAC3".
    pub codec_id: String,
    /// Normalised codec name, e.g. "eac3", "h264", "aac".
    pub codec_name: String,
}

#[derive(Clone, Copy, Debug, PartialEq, Eq, Structural)]
pub enum TrackKind {
    Video,
    Audio,
}

/// [`TrackMeta`] with sequences for strings.
pub ghost struct MetaModel {
    pub track_id: u32,
    pub kind: TrackKind,
    pub language: Seq<char>,
    pub codec_id: Seq<char>,
    pub codec_name: Seq<char>,
}

impl View for TrackMeta {
    type V = MetaModel;

    open spec fn view(&self) -> MetaModel {
        MetaModel {
            track_id: self.track_id,
            kind: self.kind,
            language: self.language@,
            codec_id: self.codec_id@,
            codec_name: self.codec_name@,
        }
    }
}

pub open spec fn meta_views(s: Seq<TrackMeta>) -> Seq<MetaModel> {
    Seq::new(s.len(), |i: int| s[i]@)
}

/// The text that `String::from_utf8_lossy` makes of bytes.
pub uninterp spec fn lossy_text(bytes: Seq<u8>) -> Seq<char>;

/// The text that bytes encode, or, where they are not valid UTF-8, the one that
/// `String::from_utf8_lossy` makes of them.
pub open spec fn text_for(bytes: Seq<u8>) -> Seq<char> {
    if valid_utf8(bytes) {
        decode_utf8(bytes)
    } else {
        lossy_text(bytes)
    }
}

/// The text that `str::to_uppercase` makes of a text.
pub uninterp spec fn uppercase(s: Seq<char>) -> Seq<char>;

/// `String::from_utf8_lossy`: a text for any bytes; of valid UTF-8 the text that it
/// encodes.
#[verifier::external_body]
pub(crate) fn text_lossy(bytes: &[u8]) -> (r: String)
    ensures
        r@ == lossy_text(bytes@),
        valid_utf8(bytes@) ==> r@ == decode_utf8(bytes@),
{
    String::from_utf8_lossy(bytes).into_owned()
}

/// A text with capitals for its ASCII letters.
pub open spec fn ascii_capitals(s: Seq<char>) -> Seq<char> {
    Seq::new(
        s.len(),
        |i: int|
            if 'a' <= s[i] <= 'z' {
                (s[i] as u8 - 32) as char
            } else {
                s[i]
            },
    )
}

/// Whether a text is all ASCII.
pub open spec fn is_ascii(s: Seq<char>) -> bool {
    forall|i: int| 0 <= i < s.len() ==> (#[trigger] s[i]) as u32 <= 0x7F
}

/// A text in capitals.
pub open spec fn capitals(s: Seq<char>) -> Seq<char> {
    if is_ascii(s) {
        ascii_capitals(s)
    } else {
        uppercase(s)
    }
}

/// `str::to_uppercase`: the uppercase equivalent of a text; of an ASCII text, that with
/// capitals for its letters.
#[verifier::external_body]
fn to_uppercase(s: &str) -> (r: String)
    ensures
        r@ == uppercase(s@),
        is_ascii(s@) ==> r@ == ascii_capitals(s@),
{
    s.to_uppercase()
}

/// The name of a codec, from its id in capitals.
pub open spec fn codec_name_of(upper: Seq<char>) -> Seq<char> {
    if upper == "V_MPEG4/ISO/AVC"@ {
        "h264"@
    } else if upper == "V_MPEGH/ISO/HEVC"@ {
        "h265"@
    } else if upper == "V_AV1"@ {
        "av1"@
    } else if upper == "A_AC3"@ {
        "ac3"@
    } else if upper == "A_EAC3"@ {
        "eac3"@
    } else if upper == "A_TRUEHD"@ {
        "truehd"@
    } else if upper == "A_DTS"@ || upper == "A_DTS/MA"@ {
        "dts"@
    } else if upper == "A_AAC"@ || upper == "A_AAC/MPEG2/LC"@ || upper == "A_AAC/MPEG4/LC"@ {
        "aac"@
    } else if upper == "A_MPEG/L3"@ {
        "mp3"@
    } else if begins_with(upper, "V_"@) {
        "video_unknown"@
    } else if begins_with(upper, "A_"@) {
        "audio_unknown"@
    } else {
        "unknown"@
    }
}

/// The kind of a track, from its codec id in capitals.
pub open spec fn kind_of_codec(upper: Seq<char>) -> TrackKind {
    if begins_with(upper, "V_"@) {
        TrackKind::Video
    } else {
        TrackKind::Audio
    }
}

/// The kind and the codec name of a track, from its codec id in capitals.
pub fn classify_codec(upper: &str) -> (r: (TrackKind, String))
    ensures
        r.0 == kind_of_codec(upper@),
        r.1@ == codec_name_of(upper@),
{
    let u: Vec<char> = chars_of(upper);
    let video: bool = chars_begin_with(&u, &chars_of("V_"));
    let name: &str = if is_text(&u, "V_MPEG4/ISO/AVC") {
        "h264"
    } else if is_text(&u, "V_MPEGH/ISO/HEVC") {
        "h265"
    } else if is_text(&u, "V_AV1") {
        "av1"
    } else if is_text(&u, "A_AC3") {
        "ac3"
    } else if is_text(&u, "A_EAC3") {
        "eac3"
    } else if is_text(&u, "A_TRUEHD") {
        "truehd"
    } else if is_text(&u, "A_DTS") || is_text(&u, "A_DTS/MA") {
        "dts"
    } else if is_text(&u, "A_AAC") || is_text(&u, "A_AAC/MPEG2/LC") || is_text(
        &u,
        "A_AAC/MPEG4/LC",
    ) {
        "aac"
    } else if is_text(&u, "A_MPEG/L3") {
        "mp3"
    } else if video {
        "video_unknown"
    } else if chars_begin_with(&u, &chars_of("A_")) {
        "audio_unknown"
    } else {
        "unknown"
    };
    let kind: TrackKind = if video {
        TrackKind::Video
    } else {
        TrackKind::Audio
    };
    (kind, name.to_owned())
}

pub const EBML_ID_CODEC_ID: u32 = 0x86;

pub const EBML_ID_LANGUAGE: u32 = 0x22B59C;

/// The width of an element id that begins with `b`, at most four; zero for none.
pub open spec fn id_width(b: u8) -> int {
    if b >= 0x80 {
        1
    } else if b >= 0x40 {
        2
    } else if b >= 0x20 {
        3
    } else if b >= 0x10 {
        4
    } else {
        0
    }
}

/// The element id at `pos` and the place after it.
pub open spec fn mkv_id_at(data: Seq<u8>, pos: int) -> Option<(u32, int)> {
    if pos >= data.len() {
        None
    } else {
        let w = id_width(data[pos]);
        if w == 0 || pos + w > data.len() {
            None
        } else {
            Some((be_value(data.subrange(pos, pos + w)) as u32, pos + w))
        }
    }
}

/// The element size at `pos` and the place after it.
pub open spec fn mkv_size_at(data: Seq<u8>, pos: int) -> Option<(u64, int)> {
    if pos >= data.len() {
        None
    } else {
        match vint_at(data.skip(pos)) {
            VintRead::Value(v, n) => Some((v, pos + n)),
            _ => None,
        }
    }
}

/// Codec id and language found so far.
pub ghost struct Found {
    pub codec_id: Seq<char>,
    pub language: Seq<char>,
}

/// Scans the elements of `data` from `pos` on, and the elements in them, for codec id
/// and language; the last of each counts. What cannot be read ends the scan.
pub open spec fn scan_from(data: Seq<u8>, st: Found, pos: int) -> Found
    decreases data.len(), data.len() - pos,
{
    match mkv_id_at(data, pos) {
        None => st,
        Some((id, p1)) => match mkv_size_at(data, p1) {
            None => st,
            Some((size, p2)) => if p2 + size > data.len() || p2 <= pos || pos < 0 {
                st
            } else {
                let payload = data.subrange(p2, p2 + size);
                let next = if id == EBML_ID_CODEC_ID {
                    Found { codec_id: text_for(payload), ..st }
                } else if id == EBML_ID_LANGUAGE {
                    Found { language: text_for(payload), ..st }
                } else {
                    scan_from(payload, st, 0)
                };
                scan_from(data, next, p2 + size)
            },
        },
    }
}

/// Codec id and language of a TrackEntry blob; "und" for a missing language.
pub open spec fn blob_fields(blob: Seq<u8>) -> Found {
    let f = scan_from(blob, Found { codec_id: Seq::empty(), language: Seq::empty() }, 0);
    if f.language.len() == 0 {
        Found { language: "und"@, ..f }
    } else {
        f
    }
}

/// Reads an EBML element ID (marker bits are kept).
/// Supports IDs up to 4 bytes wide.
fn read_mkv_id(data: &[u8], pos: usize) -> (r: Option<(u32, usize)>)
    ensures
        match r {
            Some(p) => mkv_id_at(data@, pos as int) == Some((p.0, p.1 as int)) && pos < p.1
                && p.1 <= data@.len(),
            None => mkv_id_at(data@, pos as int) is None,
        },
{
    if pos >= data.len() {
        return None;
    }
    let first: u8 = data[pos];
    let width: usize = if first >= 0x80 {
        1
    } else if first >= 0x40 {
        2
    } else if first >= 0x20 {
        3
    } else if first >= 0x10 {
        4
    } else {
        return None;
    };
    if width > data.len() - pos {
        return None;
    }
    let mut id: u64 = 0;
    let mut i: usize = 0;
    assert(data@.subrange(pos as int, pos as int) =~= Seq::<u8>::empty());
    while i < width
        invariant
            width <= 4,
            i <= width,
            pos + width <= data@.len() <= usize::MAX,
            id == be_value(data@.subrange(pos as int, pos + i)),
        decreases width - i,
    {
        proof {
            crate::bytes::lemma_pow256_values();
            let t = data@.subrange(pos as int, pos + i + 1);
            assert(t.drop_last() =~= data@.subrange(pos as int, pos + i));
            crate::bytes::lemma_be_value_bound(t.drop_last());
        }
        id = id * 256 + data[pos + i] as u64;
        i = i + 1;
    }
    Some((id as u32, pos + width))
}

/// Reads an EBML size VINT (marker bit is cleared).
fn read_mkv_size(data: &[u8], pos: usize) -> (r: Option<(u64, usize)>)
    ensures
        match r {
            Some(p) => mkv_size_at(data@, pos as int) == Some((p.0, p.1 as int)) && pos < p.1
                && p.1 <= data@.len(),
            None => mkv_size_at(data@, pos as int) is None,
        },
{
    if pos >= data.len() {
        return None;
    }
    let tail: &[u8] = &data[pos..data.len()];
    proof {
        assert(tail@ =~= data@.skip(pos as int));
        lemma_vint_at_value(tail@);
    }
    match decode_vint(tail) {
        VintRead::Value(v, n) => Some((v, pos + n)),
        _ => None,
    }
}

/// Recursively scans EBML elements for CodecID and Language fields.
fn scan_ebml_elements(data: &[u8], codec_id: &mut String, language: &mut String)
    ensures
        scan_from(data@, Found { codec_id: old(codec_id)@, language: old(language)@ }, 0)
            == (Found { codec_id: final(codec_id)@, language: final(language)@ }),
    decreases data@.len(),
{
    let mut pos: usize = 0;
    let ghost start = Found { codec_id: codec_id@, language: language@ };
    loop
        invariant
            pos <= data@.len(),
            scan_from(data@, start, 0) == scan_from(
                data@,
                Found { codec_id: codec_id@, language: language@ },
                pos as int,
            ),
        ensures
            scan_from(data@, start, 0) == (Found { codec_id: codec_id@, language: language@ }),
        decreases data@.len() - pos,
    {
        let (id, p1): (u32, usize) = match read_mkv_id(data, pos) {
            Some(t) => t,
            None => {
                break ;
            },
        };
        let (size, p2): (u64, usize) = match read_mkv_size(data, p1) {
            Some(t) => t,
            None => {
                break ;
            },
        };
        if size > (data.len() - p2) as u64 {
            break ;
        }
        let end: usize = p2 + size as usize;
        let payload: &[u8] = &data[p2..end];
        if id == EBML_ID_CODEC_ID {
            *codec_id = text_lossy(payload);
        } else if id == EBML_ID_LANGUAGE {
            *language = text_lossy(payload);
        } else {
            // Any other element might be a master that holds them.
            scan_ebml_elements(payload, codec_id, language);
        }
        pos = end;
    }
}

/// What an entry tells about its track.
pub open spec fn entry_meta(e: EntryModel) -> MetaModel {
    let f = blob_fields(e.bytes);
    MetaModel {
        track_id: e.track_id as u32,
        kind: kind_of_codec(capitals(f.codec_id)),
        language: f.language,
        codec_id: f.codec_id,
        codec_name: codec_name_of(capitals(f.codec_id)),
    }
}

/// Codec id and language of a TrackEntry blob; "und" for a missing language.
fn parse_track_entry_blob(blob: &[u8]) -> (r: (String, String))
    ensures
        blob_fields(blob@) == (Found { codec_id: r.0@, language: r.1@ }),
{
    let mut codec_id: String = String::new();
    let mut language: String = String::new();
    scan_ebml_elements(blob, &mut codec_id, &mut language);
    if language.as_str().is_empty() {
        language = "und".to_owned();
    }
    (codec_id, language)
}

fn meta_of_entry(entry: &TrackEntryRecord) -> (r: TrackMeta)
    ensures
        r@ == entry_meta(entry@),
{
    let (codec_id, language): (String, String) = parse_track_entry_blob(&entry.bytes);
    let upper: String = to_uppercase(codec_id.as_str());
    let (kind, codec_name): (TrackKind, String) = classify_codec(upper.as_str());
    TrackMeta { track_id: entry.track_id as u32, kind, language, codec_id, codec_name }
}

/// Extracts TrackMeta from a BinstructFile by parsing the CodecID (EBML ID 0x86)
/// and Language (EBML ID 0x22B59C) from each TrackEntry blob.
pub fn extract_track_metas(binstruct: &BinstructFile) -> (r: Vec<TrackMeta>)
    ensures
        r@.len() == binstruct@.mkv_skeleton.track_entries.len(),
        forall|i: int|
            0 <= i < r@.len() ==> (#[trigger] r@[i])@ == entry_meta(
                binstruct@.mkv_skeleton.track_entries[i],
            ),
{
    let entries: &Vec<TrackEntryRecord> = &binstruct.mkv_skeleton.track_entries;
    let mut out: Vec<TrackMeta> = Vec::new();
    let mut i: usize = 0;
    while i < entries.len()
        invariant
            entries@ == binstruct.mkv_skeleton.track_entries@,
            i <= entries@.len(),
            out@.len() == i,
            forall|k: int|
                0 <= k < i ==> (#[trigger] out@[k])@ == entry_meta(
                    binstruct@.mkv_skeleton.track_entries[k],
                ),
        decreases entries@.len() - i,
    {
        out.push(meta_of_entry(&entries[i]));
        i = i + 1;
    }
    out
}

} // verus!
