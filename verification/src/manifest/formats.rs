//! The text formats of manifests: XML, NFO and Markdown, each read as far as it goes.
use super::{
    text_view, track_views, variant_views, Manifest, ManifestError, ManifestModel, ManifestTrack,
    TrackKind, TrackModel, VariantEntry, VariantModel,
};
use crate::text::{
    begins_with, chars_begin_with, chars_of, find_chars, find_from, is_text, last_before,
    lower, lower_chars, number_of, parse_number, rfind_char,
    string_of, strip_start, strip_start_chars, trim, trim_chars,
};
use vstd::prelude::*;
use vstd::string::*;

verus! {

/// What stands between the first `open` and the next `close` after it.
pub open spec fn between(text: Seq<char>, open: Seq<char>, close: Seq<char>) -> Option<Seq<char>> {
    match find_from(text, open, 0) {
        None => None,
        Some(a) => match find_from(text, close, a + open.len()) {
            None => None,
            Some(b) => Some(text.subrange(a + open.len(), b)),
        },
    }
}

/// The content of the first `<tag>` element, without white space around it.
pub open spec fn element_text(text: Seq<char>, tag: Seq<char>) -> Option<Seq<char>> {
    match between(text, seq!['<'] + tag + seq!['>'], seq!['<', '/'] + tag + seq!['>']) {
        Some(t) => Some(trim(t)),
        None => None,
    }
}

/// The value of the first `attr="..."`.
pub open spec fn attribute(text: Seq<char>, attr: Seq<char>) -> Option<Seq<char>> {
    between(text, attr + seq!['=', '"'], seq!['"'])
}

/// The first of two that is there.
pub open spec fn or_else(a: Option<Seq<char>>, b: Option<Seq<char>>) -> Option<Seq<char>> {
    match a {
        Some(t) => Some(t),
        None => b,
    }
}

/// A text, or the empty one.
pub open spec fn or_empty(a: Option<Seq<char>>) -> Seq<char> {
    match a {
        Some(t) => t,
        None => Seq::empty(),
    }
}

/// The value of a hexadecimal digit.
pub open spec fn hex_value(c: char) -> Option<u8> {
    if '0' <= c <= '9' {
        Some((c as u8 - '0' as u8) as u8)
    } else if 'a' <= c <= 'f' {
        Some((c as u8 - 'a' as u8 + 10) as u8)
    } else if 'A' <= c <= 'F' {
        Some((c as u8 - 'A' as u8 + 10) as u8)
    } else {
        None
    }
}

/// The byte that two hexadecimal digits spell.
pub open spec fn hex_byte(hi: char, lo: char) -> u8 {
    (hex_value(hi)->0 * 16 + hex_value(lo)->0) as u8
}

/// The 32 bytes that 64 hexadecimal digits spell, white space around them aside.
pub open spec fn hex32(s: Seq<char>) -> Option<Seq<u8>> {
    let t = trim(s);
    if t.len() == 64 && forall|i: int| 0 <= i < 64 ==> hex_value(#[trigger] t[i]) is Some {
        Some(Seq::new(32, |i: int| hex_byte(t[2 * i], t[2 * i + 1])))
    } else {
        None
    }
}

pub open spec fn zero_hash() -> Seq<u8> {
    Seq::new(32, |i: int| 0u8)
}

/// The hash that a text spells, or zeros.
pub open spec fn hash_of(s: Seq<char>) -> Seq<u8> {
    match hex32(s) {
        Some(h) => h,
        None => zero_hash(),
    }
}

/// The year that a text spells, or zero.
pub open spec fn year_of(s: Option<Seq<char>>) -> u16 {
    match s {
        Some(t) => match number_of(t, 65535) {
            Some(y) => y as u16,
            None => 0,
        },
        None => 0,
    }
}

fn hex_digit(c: char) -> (r: Option<u8>)
    ensures
        r == hex_value(c),
        r matches Some(v) ==> v < 16,
{
    if '0' <= c && c <= '9' {
        Some(c as u8 - '0' as u8)
    } else if 'a' <= c && c <= 'f' {
        Some(c as u8 - 'a' as u8 + 10)
    } else if 'A' <= c && c <= 'F' {
        Some(c as u8 - 'A' as u8 + 10)
    } else {
        None
    }
}

/// The 32 bytes that 64 hexadecimal digits spell, white space around them aside.
fn parse_hex32(s: &[char]) -> (r: Option<[u8; 32]>)
    ensures
        match r {
            Some(h) => hex32(s@) == Some(h@),
            None => hex32(s@) is None,
        },
{
    let t: &[char] = trim_chars(s);
    if t.len() != 64 {
        return None;
    }
    let mut out: [u8; 32] = [0u8; 32];
    let mut i: usize = 0;
    while i < 32
        invariant
            t@ == trim(s@),
            t@.len() == 64,
            i <= 32,
            forall|k: int| 0 <= k < 2 * i ==> hex_value(#[trigger] t@[k]) is Some,
            forall|k: int| 0 <= k < i ==> out@[k] == hex_byte(t@[2 * k], t@[2 * k + 1]),
        decreases 32 - i,
    {
        let hi: u8 = match hex_digit(t[2 * i]) {
            Some(v) => v,
            None => return None,
        };
        let lo: u8 = match hex_digit(t[2 * i + 1]) {
            Some(v) => v,
            None => return None,
        };
        out[i] = hi * 16 + lo;
        i = i + 1;
    }
    assert(out@ =~= Seq::new(32, |i: int| hex_byte(t@[2 * i], t@[2 * i + 1])));
    Some(out)
}

/// The hash that a text spells, or zeros.
fn parse_hash(s: &[char]) -> (r: [u8; 32])
    ensures
        r@ == hash_of(s@),
{
    match parse_hex32(s) {
        Some(h) => h,
        None => {
            let z: [u8; 32] = [0u8; 32];
            assert(z@ =~= zero_hash());
            z
        },
    }
}

/// What stands between the first `open` and the next `close` after it.
fn find_between<'a>(text: &'a [char], open: &[char], close: &[char]) -> (r: Option<&'a [char]>)
    ensures
        match r {
            Some(t) => between(text@, open@, close@) == Some(t@),
            None => between(text@, open@, close@) is None,
        },
{
    let size: usize = text.len();
    let start: usize = match find_chars(text, open, 0) {
        Some(a) => a + open.len(),
        None => return None,
    };
    match find_chars(text, close, start) {
        Some(end) => Some(&text[start..end]),
        None => None,
    }
}

/// The content of the first `<tag>` element, without white space around it.
fn xml_text(text: &[char], tag: &str) -> (r: Option<String>)
    ensures
        text_view(r) == element_text(text@, tag@),
{
    let name: Vec<char> = chars_of(tag);
    let mut open: Vec<char> = Vec::new();
    let mut close: Vec<char> = Vec::new();
    open.push('<');
    close.push('<');
    close.push('/');
    let mut i: usize = 0;
    while i < name.len()
        invariant
            name@ == tag@,
            i <= name@.len(),
            open@ == seq!['<'] + tag@.take(i as int),
            close@ == seq!['<', '/'] + tag@.take(i as int),
        decreases name@.len() - i,
    {
        open.push(name[i]);
        close.push(name[i]);
        i = i + 1;
        assert(tag@.take(i as int) =~= tag@.take(i - 1).push(tag@[i - 1]));
        assert(open@ =~= seq!['<'] + tag@.take(i as int));
        assert(close@ =~= seq!['<', '/'] + tag@.take(i as int));
    }
    open.push('>');
    close.push('>');
    proof {
        assert(tag@.take(i as int) =~= tag@);
        assert(open@ =~= seq!['<'] + tag@ + seq!['>']);
        assert(close@ =~= seq!['<', '/'] + tag@ + seq!['>']);
    }
    match find_between(text, &open, &close) {
        Some(t) => Some(string_of(trim_chars(t))),
        None => None,
    }
}

/// The value of the first `attr="..."`.
fn xml_attr_in(text: &[char], attr: &str) -> (r: Option<String>)
    ensures
        text_view(r) == attribute(text@, attr@),
{
    let mut needle: Vec<char> = chars_of(attr);
    needle.push('=');
    needle.push('"');
    let mut quote: Vec<char> = Vec::new();
    quote.push('"');
    proof {
        assert(needle@ =~= attr@ + seq!['=', '"']);
        assert(quote@ =~= seq!['"']);
    }
    match find_between(text, &needle, &quote) {
        Some(t) => Some(string_of(t)),
        None => None,
    }
}

fn first_of(a: Option<String>, b: Option<String>) -> (r: Option<String>)
    ensures
        text_view(r) == or_else(text_view(a), text_view(b)),
{
    match a {
        Some(t) => Some(t),
        None => b,
    }
}

fn text_or_empty(a: Option<String>) -> (r: String)
    ensures
        r@ == or_empty(text_view(a)),
{
    match a {
        Some(t) => t,
        None => String::new(),
    }
}

fn parse_year(a: Option<String>) -> (r: u16)
    ensures
        r == year_of(text_view(a)),
{
    match a {
        Some(t) => match parse_number(&chars_of(t.as_str()), 65535) {
            Some(y) => y as u16,
            None => 0,
        },
        None => 0,
    }
}

/// Where the tag that starts at `i` ends.
pub open spec fn tag_end(text: Seq<char>, i: int) -> Option<int> {
    find_from(text, seq!['>'], i)
}

/// The tag that starts at `i`, up to and with its end; one that does not end goes on to the
/// end of the text.
pub open spec fn tag_at(text: Seq<char>, i: int) -> Seq<char> {
    match tag_end(text, i) {
        Some(k) => text.subrange(i, k + 1),
        None => text.skip(i),
    }
}

/// The kind that a type attribute names.
pub open spec fn kind_named(t: Option<Seq<char>>) -> TrackKind {
    if t == Some("audio"@) {
        TrackKind::Audio
    } else if t == Some("subtitle"@) {
        TrackKind::Subtitle
    } else {
        TrackKind::Video
    }
}

/// The track that a tag describes.
pub open spec fn tag_track(tag: Seq<char>) -> TrackModel {
    TrackModel {
        track_id: match attribute(tag, "id"@) {
            Some(t) => match number_of(t, u64::MAX) {
                Some(v) => v,
                None => 0,
            },
            None => 0,
        },
        kind: kind_named(attribute(tag, "type"@)),
        language: attribute(tag, "language"@),
        codec: or_empty(attribute(tag, "codec"@)),
        variant: attribute(tag, "variant"@),
        resolution: attribute(tag, "resolution"@),
    }
}

/// The tracks that the tags from `i` on describe, after those in `acc`.
pub open spec fn xml_tracks_from(acc: Seq<TrackModel>, text: Seq<char>, i: int) -> Seq<TrackModel>
    decreases
            if i < text.len() {
                text.len() - i
            } else {
                0
            },
{
    match find_from(text, "<track "@, i) {
        Some(k) if i <= k < text.len() => xml_tracks_from(
            acc.push(tag_track(tag_at(text, k))),
            text,
            k + 7,
        ),
        _ => acc,
    }
}

/// The variant that a tag describes.
pub open spec fn tag_variant(tag: Seq<char>) -> VariantModel {
    VariantModel {
        id: or_empty(attribute(tag, "id"@)),
        description: or_empty(attribute(tag, "description"@)),
    }
}

/// The variants that the tags from `i` on describe, after those in `acc`.
pub open spec fn xml_variants_from(acc: Seq<VariantModel>, text: Seq<char>, i: int) -> Seq<
    VariantModel,
>
    decreases
            if i < text.len() {
                text.len() - i
            } else {
                0
            },
{
    match find_from(text, "<variant "@, i) {
        Some(k) if i <= k < text.len() => xml_variants_from(
            acc.push(tag_variant(tag_at(text, k))),
            text,
            k + 9,
        ),
        _ => acc,
    }
}

/// What an XML text means as a manifest.
pub open spec fn xml_manifest(text: Seq<char>) -> ManifestModel {
    ManifestModel {
        title: or_empty(element_text(text, "title"@)),
        year: year_of(element_text(text, "year"@)),
        original_mkv_filename: or_empty(
            or_else(
                element_text(text, "original-mkv-filename"@),
                element_text(text, "original_mkv_filename"@),
            ),
        ),
        original_mkv_hash: hash_of(
            or_empty(
                or_else(element_text(text, "hash"@), element_text(text, "original-mkv-hash"@)),
            ),
        ),
        original_language: or_empty(
            or_else(
                or_else(
                    attribute(text, "original-language"@),
                    element_text(text, "original-language"@),
                ),
                element_text(text, "original_language"@),
            ),
        ),
        system_version: or_empty(
            or_else(
                attribute(text, "system-version"@),
                element_text(text, "system-version"@),
            ),
        ),
        publisher: or_empty(element_text(text, "publisher"@)),
        tracks: xml_tracks_from(Seq::empty(), text, 0),
        variants_legend: xml_variants_from(Seq::empty(), text, 0),
    }
}

/// The tag that starts at `i`.
fn slice_tag(text: &[char], i: usize) -> (r: &[char])
    requires
        i <= text@.len(),
    ensures
        r@ == tag_at(text@, i as int),
{
    let mut gt: Vec<char> = Vec::new();
    gt.push('>');
    assert(gt@ =~= seq!['>']);
    let size: usize = text.len();
    match find_chars(text, &gt, i) {
        Some(k) => &text[i..k + 1],
        None => {
            assert(text@.subrange(i as int, size as int) =~= text@.skip(i as int));
            &text[i..size]
        },
    }
}

fn parse_track_tag(tag: &[char]) -> (r: ManifestTrack)
    ensures
        r@ == tag_track(tag@),
{
    let track_id: u64 = match xml_attr_in(tag, "id") {
        Some(t) => match parse_number(&chars_of(t.as_str()), u64::MAX) {
            Some(v) => v,
            None => 0,
        },
        None => 0,
    };
    let kind: TrackKind = match xml_attr_in(tag, "type") {
        Some(t) => {
            let c: Vec<char> = chars_of(t.as_str());
            if is_text(&c, "audio") {
                TrackKind::Audio
            } else if is_text(&c, "subtitle") {
                TrackKind::Subtitle
            } else {
                TrackKind::Video
            }
        },
        None => TrackKind::Video,
    };
    ManifestTrack {
        track_id,
        kind,
        language: xml_attr_in(tag, "language"),
        codec: text_or_empty(xml_attr_in(tag, "codec")),
        variant: xml_attr_in(tag, "variant"),
        resolution: xml_attr_in(tag, "resolution"),
    }
}

fn parse_xml_tracks(text: &[char]) -> (r: Vec<ManifestTrack>)
    ensures
        track_views(r@) == xml_tracks_from(Seq::empty(), text@, 0),
{
    let open: Vec<char> = chars_of("<track ");
    proof {
        reveal_strlit("<track ");
    }
    let size: usize = text.len();
    let mut tracks: Vec<ManifestTrack> = Vec::new();
    let mut pos: usize = 0;
    assert(track_views(tracks@) =~= Seq::<TrackModel>::empty());
    loop
        invariant
            open@ == "<track "@,
            open@.len() == 7,
            size == text@.len(),
            pos <= size,
            xml_tracks_from(Seq::empty(), text@, 0) == xml_tracks_from(
                track_views(tracks@),
                text@,
                pos as int,
            ),
        ensures
            track_views(tracks@) == xml_tracks_from(Seq::empty(), text@, 0),
        decreases size - pos,
    {
        match find_chars(text, &open, pos) {
            None => {
                break ;
            },
            Some(k) => {
                let t: ManifestTrack = parse_track_tag(slice_tag(text, k));
                proof {
                    assert(track_views(tracks@.push(t)) =~= track_views(tracks@).push(t@));
                }
                tracks.push(t);
                pos = k + 7;
            },
        }
    }
    tracks
}

fn parse_xml_variants(text: &[char]) -> (r: Vec<VariantEntry>)
    ensures
        variant_views(r@) == xml_variants_from(Seq::empty(), text@, 0),
{
    let open: Vec<char> = chars_of("<variant ");
    proof {
        reveal_strlit("<variant ");
    }
    let size: usize = text.len();
    let mut entries: Vec<VariantEntry> = Vec::new();
    let mut pos: usize = 0;
    assert(variant_views(entries@) =~= Seq::<VariantModel>::empty());
    loop
        invariant
            open@ == "<variant "@,
            open@.len() == 9,
            size == text@.len(),
            pos <= size,
            xml_variants_from(Seq::empty(), text@, 0) == xml_variants_from(
                variant_views(entries@),
                text@,
                pos as int,
            ),
        ensures
            variant_views(entries@) == xml_variants_from(Seq::empty(), text@, 0),
        decreases size - pos,
    {
        match find_chars(text, &open, pos) {
            None => {
                break ;
            },
            Some(k) => {
                let tag: &[char] = slice_tag(text, k);
                let v = VariantEntry {
                    id: text_or_empty(xml_attr_in(tag, "id")),
                    description: text_or_empty(xml_attr_in(tag, "description")),
                };
                proof {
                    assert(variant_views(entries@.push(v)) =~= variant_views(entries@).push(v@));
                }
                entries.push(v);
                pos = k + 9;
            },
        }
    }
    entries
}

/// Reads the XML format.
pub fn parse_xml(text: &str) -> (r: Result<Manifest, ManifestError>)
    ensures
        r matches Ok(m) && m@ == xml_manifest(text@),
{
    let chars: Vec<char> = chars_of(text);
    let c: &[char] = chars.as_slice();
    let hash_hex: String = text_or_empty(
        first_of(xml_text(c, "hash"), xml_text(c, "original-mkv-hash")),
    );
    Ok(
        Manifest {
            title: text_or_empty(xml_text(c, "title")),
            year: parse_year(xml_text(c, "year")),
            original_mkv_filename: text_or_empty(
                first_of(xml_text(c, "original-mkv-filename"), xml_text(c, "original_mkv_filename")),
            ),
            original_mkv_hash: parse_hash(&chars_of(hash_hex.as_str())),
            original_language: text_or_empty(
                first_of(
                    first_of(xml_attr_in(c, "original-language"), xml_text(c, "original-language")),
                    xml_text(c, "original_language"),
                ),
            ),
            system_version: text_or_empty(
                first_of(xml_attr_in(c, "system-version"), xml_text(c, "system-version")),
            ),
            publisher: text_or_empty(xml_text(c, "publisher")),
            tracks: parse_xml_tracks(c),
            variants_legend: parse_xml_variants(c),
        },
    )
}

/// A manifest of a title and a year.
pub open spec fn plain_manifest(title: Seq<char>, year: u16) -> ManifestModel {
    ManifestModel {
        title,
        year,
        original_mkv_filename: Seq::empty(),
        original_mkv_hash: zero_hash(),
        original_language: Seq::empty(),
        system_version: Seq::empty(),
        publisher: Seq::empty(),
        tracks: Seq::empty(),
        variants_legend: Seq::empty(),
    }
}

fn empty_manifest() -> (r: Manifest)
    ensures
        r@ == plain_manifest(Seq::empty(), 0),
{
    let m = Manifest {
        title: String::new(),
        year: 0,
        original_mkv_filename: String::new(),
        original_mkv_hash: [0u8; 32],
        original_language: String::new(),
        system_version: String::new(),
        publisher: String::new(),
        tracks: Vec::new(),
        variants_legend: Vec::new(),
    };
    assert(m@.original_mkv_hash =~= zero_hash());
    assert(m@.tracks =~= Seq::<TrackModel>::empty());
    assert(m@.variants_legend =~= Seq::<VariantModel>::empty());
    m
}

/// What an NFO text means as a manifest: title and year.
pub open spec fn nfo_manifest(text: Seq<char>) -> ManifestModel {
    plain_manifest(
        or_empty(element_text(text, "title"@)),
        year_of(element_text(text, "year"@)),
    )
}

/// Reads the NFO format, which tells title and year.
pub fn parse_nfo(text: &str) -> (r: Result<Manifest, ManifestError>)
    ensures
        r matches Ok(m) && m@ == nfo_manifest(text@),
{
    let chars: Vec<char> = chars_of(text);
    let mut m: Manifest = empty_manifest();
    m.title = text_or_empty(xml_text(&chars, "title"));
    m.year = parse_year(xml_text(&chars, "year"));
    Ok(m)
}

/// The year in the last brackets of a heading, and where the brackets open.
pub open spec fn heading_year(h1: Seq<char>) -> Option<(int, u16)> {
    match (last_before(h1, '(', h1.len()), last_before(h1, ')', h1.len())) {
        (Some(lp), Some(rp)) => if lp < rp {
            match number_of(h1.subrange(lp + 1, rp), 65535) {
                Some(y) => Some((lp, y as u16)),
                None => None,
            }
        } else {
            None
        },
        _ => None,
    }
}

/// What a heading adds: "Title (Year)", or a title.
pub open spec fn md_heading(st: ManifestModel, h1: Seq<char>) -> ManifestModel {
    match heading_year(h1) {
        Some((lp, year)) => ManifestModel { title: trim(h1.take(lp)), year, ..st },
        None => ManifestModel { title: h1, ..st },
    }
}

/// What a key with its value adds.
pub open spec fn md_entry(st: ManifestModel, key: Seq<char>, val: Seq<char>) -> ManifestModel {
    let k = lower(key);
    if k == "año"@ || k == "year"@ || k == "año de producción"@ {
        match number_of(val, 65535) {
            Some(y) => ManifestModel { year: y as u16, ..st },
            None => st,
        }
    } else if k == "idioma original"@ || k == "original language"@ {
        ManifestModel { original_language: val, ..st }
    } else if k == "hash del mkv original"@ || k == "original mkv hash"@ || k == "hash"@ {
        ManifestModel { original_mkv_hash: hash_of(val), ..st }
    } else if k == "publicador"@ || k == "publisher"@ {
        ManifestModel { publisher: val, ..st }
    } else if k == "system version"@ || k == "versión del sistema"@ {
        ManifestModel { system_version: val, ..st }
    } else if k == "mkv original"@ || k == "original mkv filename"@ {
        ManifestModel { original_mkv_filename: val, ..st }
    } else {
        st
    }
}

/// What a line adds: the first heading gives the title; "- **Key**: value" an entry.
pub open spec fn md_line(st: ManifestModel, line: Seq<char>) -> ManifestModel {
    let l = trim(line);
    if st.title.len() == 0 && begins_with(l, "# "@) {
        md_heading(st, l.skip(2))
    } else {
        let kv = trim(strip_start(l, '-'));
        if begins_with(kv, "**"@) {
            let e = kv.skip(2);
            match find_from(e, "**:"@, 0) {
                Some(colon) => md_entry(st, e.take(colon), trim(e.skip(colon + 3))),
                None => st,
            }
        } else {
            st
        }
    }
}

/// The end of the line that starts at `i`.
pub open spec fn line_end(text: Seq<char>, i: int) -> int {
    match find_from(text, seq!['\n'], i) {
        Some(k) => k,
        None => text.len() as int,
    }
}

/// What the lines from `i` on add.
pub open spec fn md_from(st: ManifestModel, text: Seq<char>, i: int) -> ManifestModel
    decreases
            if i < text.len() {
                text.len() - i
            } else {
                0
            },
{
    if i >= text.len() || line_end(text, i) < i {
        st
    } else {
        md_from(md_line(st, text.subrange(i, line_end(text, i))), text, line_end(text, i) + 1)
    }
}

/// What a Markdown text means as a manifest.
pub open spec fn md_manifest(text: Seq<char>) -> ManifestModel {
    md_from(plain_manifest(Seq::empty(), 0), text, 0)
}

fn read_heading(m: Manifest, h1: &[char]) -> (r: Manifest)
    ensures
        r@ == md_heading(m@, h1@),
{
    let mut m: Manifest = m;
    if let (Some(lp), Some(rp)) = (rfind_char(h1, '('), rfind_char(h1, ')')) {
        if lp < rp {
            if let Some(y) = parse_number(&h1[lp + 1..rp], 65535) {
                m.year = y as u16;
                assert(h1@.subrange(0, lp as int) =~= h1@.take(lp as int));
                m.title = string_of(trim_chars(&h1[0..lp]));
                return m;
            }
        }
    }
    m.title = string_of(h1);
    m
}

fn read_entry(m: Manifest, key: &[char], val: &[char]) -> (r: Manifest)
    ensures
        r@ == md_entry(m@, key@, val@),
{
    let mut m: Manifest = m;
    let k: Vec<char> = lower_chars(key);
    if is_text(&k, "año") || is_text(&k, "year") || is_text(&k, "año de producción") {
        if let Some(y) = parse_number(val, 65535) {
            m.year = y as u16;
        }
    } else if is_text(&k, "idioma original") || is_text(&k, "original language") {
        m.original_language = string_of(val);
    } else if is_text(&k, "hash del mkv original") || is_text(&k, "original mkv hash") || is_text(
        &k,
        "hash",
    ) {
        m.original_mkv_hash = parse_hash(val);
    } else if is_text(&k, "publicador") || is_text(&k, "publisher") {
        m.publisher = string_of(val);
    } else if is_text(&k, "system version") || is_text(&k, "versión del sistema") {
        m.system_version = string_of(val);
    } else if is_text(&k, "mkv original") || is_text(&k, "original mkv filename") {
        m.original_mkv_filename = string_of(val);
    }
    m
}

fn read_line(m: Manifest, line: &[char]) -> (r: Manifest)
    ensures
        r@ == md_line(m@, line@),
{
    proof {
        reveal_strlit("# ");
        reveal_strlit("**");
        reveal_strlit("**:");
    }
    let l: &[char] = trim_chars(line);
    if m.title.as_str().is_empty() && chars_begin_with(l, &chars_of("# ")) {
        let n: usize = l.len();
        assert(l@.subrange(2, n as int) =~= l@.skip(2));
        return read_heading(m, &l[2..n]);
    }
    let kv: &[char] = trim_chars(strip_start_chars(l, '-'));
    if !chars_begin_with(kv, &chars_of("**")) {
        return m;
    }
    let size: usize = kv.len();
    let e: &[char] = &kv[2..size];
    assert(e@ =~= kv@.skip(2));
    match find_chars(e, &chars_of("**:"), 0) {
        Some(colon) => {
            let n: usize = e.len();
            assert(e@.subrange(0, colon as int) =~= e@.take(colon as int));
            assert(e@.subrange(colon + 3, n as int) =~= e@.skip(colon + 3));
            read_entry(m, &e[0..colon], trim_chars(&e[colon + 3..n]))
        },
        None => m,
    }
}

/// Reads the Markdown format.
pub fn parse_md(text: &str) -> (r: Result<Manifest, ManifestError>)
    ensures
        r matches Ok(m) && m@ == md_manifest(text@),
{
    let chars: Vec<char> = chars_of(text);
    let mut newline: Vec<char> = Vec::new();
    newline.push('\n');
    assert(newline@ =~= seq!['\n']);
    let mut m: Manifest = empty_manifest();
    let mut pos: usize = 0;
    let size: usize = chars.len();
    loop
        invariant
            chars@ == text@,
            newline@ == seq!['\n'],
            size == text@.len(),
            pos <= size,
            md_manifest(text@) == md_from(m@, text@, pos as int),
        ensures
            md_manifest(text@) == m@,
        decreases size - pos,
    {
        if pos >= size {
            break ;
        }
        match find_chars(&chars, &newline, pos) {
            Some(k) => {
                m = read_line(m, &chars.as_slice()[pos..k]);
                pos = k + 1;
            },
            None => {
                m = read_line(m, &chars.as_slice()[pos..size]);
                assert(md_from(m@, text@, size + 1) == m@);
                pos = size;
                break ;
            },
        }
    }
    Ok(m)
}

} // verus!
