//! What the text formats of a manifest tell: each field where it is written.
use super::formats::{
    attribute, between, element_text, line_end, md_entry, md_from, md_line, md_manifest,
    nfo_manifest, tag_at, tag_track, tag_variant, xml_manifest, xml_tracks_from, xml_variants_from,
};
use super::{ManifestModel, TrackKind, TrackModel, VariantModel};
use crate::spelling::{
    character_is_found_where_it_last_stands, decimal_reads_back, hex_reads_back,
    text_is_found_where_it_first_stands,
};
use crate::text::{
    begins_with, decimal, find_from, is_white_space, last_before, lower, matches_at, strip_start,
    trim, trim_end, trim_start,
};
use crate::tools::inspect::hex_of;
use vstd::prelude::*;
use vstd::string::*;

verus! {

/// Whether `pat` stands in `text` at `k`, and nowhere from `from` up to `k`.
pub open spec fn stands_first(text: Seq<char>, pat: Seq<char>, from: int, k: int) -> bool {
    &&& from <= k
    &&& k + pat.len() <= text.len()
    &&& text.subrange(k, k + pat.len()) == pat
    &&& forall|j: int| from <= j < k ==> !#[trigger] matches_at(text, pat, j)
}

/// Whether `pat` stands nowhere in `text`.
pub open spec fn stands_nowhere(text: Seq<char>, pat: Seq<char>) -> bool {
    forall|j: int| 0 <= j ==> !#[trigger] matches_at(text, pat, j)
}

/// Whether `value` stands in `text` behind the first `open`, at `k`, and before the next
/// `close`.
pub open spec fn encloses(
    text: Seq<char>,
    open: Seq<char>,
    close: Seq<char>,
    value: Seq<char>,
    k: int,
) -> bool {
    let start = k + open.len();
    &&& stands_first(text, open, 0, k)
    &&& stands_first(text, close, start, start + value.len())
    &&& text.subrange(start, start + value.len()) == value
}

/// What is enclosed is found.
pub proof fn enclosed_text_is_found(
    text: Seq<char>,
    open: Seq<char>,
    close: Seq<char>,
    value: Seq<char>,
    k: int,
)
    requires
        encloses(text, open, close, value, k),
    ensures
        between(text, open, close) == Some(value),
{
    lemma_found(text, open, 0, k);
    lemma_found(text, close, k + open.len(), k + open.len() + value.len());
}

proof fn lemma_found(text: Seq<char>, pat: Seq<char>, from: int, k: int)
    requires
        0 <= from,
        stands_first(text, pat, from, k),
    ensures
        find_from(text, pat, from) == Some(k),
{
    text_is_found_where_it_first_stands(text, pat, from);
    assert(matches_at(text, pat, k));
    if let Some(i) = find_from(text, pat, from) {
        assert(matches_at(text, pat, i));
    }
}

proof fn lemma_not_found(text: Seq<char>, pat: Seq<char>)
    requires
        stands_nowhere(text, pat),
    ensures
        find_from(text, pat, 0) is None,
{
    text_is_found_where_it_first_stands(text, pat, 0);
    if let Some(i) = find_from(text, pat, 0) {
        assert(matches_at(text, pat, i));
    }
}

/// The tag that opens an element.
pub open spec fn opening(tag: Seq<char>) -> Seq<char> {
    seq!['<'] + tag + seq!['>']
}

/// The tag that closes an element.
pub open spec fn closing(tag: Seq<char>) -> Seq<char> {
    seq!['<', '/'] + tag + seq!['>']
}

/// What stands before the value of an attribute.
pub open spec fn assigning(name: Seq<char>) -> Seq<char> {
    name + seq!['=', '"']
}

/// What stands behind the value of an attribute.
pub open spec fn quote() -> Seq<char> {
    seq!['"']
}

/// Whether the first element with a tag holds `value`.
pub open spec fn has_element(text: Seq<char>, tag: Seq<char>, value: Seq<char>) -> bool {
    exists|k: int| #[trigger] encloses(text, opening(tag), closing(tag), value, k)
}

/// Whether the first attribute with a name has `value`.
pub open spec fn has_attribute(text: Seq<char>, name: Seq<char>, value: Seq<char>) -> bool {
    exists|k: int| #[trigger] encloses(text, assigning(name), quote(), value, k)
}

pub open spec fn lacks_element(text: Seq<char>, tag: Seq<char>) -> bool {
    stands_nowhere(text, opening(tag))
}

pub open spec fn lacks_attribute(text: Seq<char>, name: Seq<char>) -> bool {
    stands_nowhere(text, assigning(name))
}

/// An element is read as what it holds, without white space around it; an attribute as its
/// value; what is not there as nothing.
pub proof fn elements_and_attributes_are_read(text: Seq<char>, name: Seq<char>, value: Seq<char>)
    ensures
        has_element(text, name, value) ==> element_text(text, name) == Some(trim(value)),
        has_attribute(text, name, value) ==> attribute(text, name) == Some(value),
        lacks_element(text, name) ==> element_text(text, name) is None,
        lacks_attribute(text, name) ==> attribute(text, name) is None,
{
    if has_element(text, name, value) {
        let k = choose|k: int| #[trigger]
            encloses(text, opening(name), closing(name), value, k);
        enclosed_text_is_found(text, opening(name), closing(name), value, k);
    }
    if has_attribute(text, name, value) {
        let k = choose|k: int| #[trigger]
            encloses(text, assigning(name), quote(), value, k);
        enclosed_text_is_found(text, assigning(name), quote(), value, k);
    }
    if lacks_element(text, name) {
        lemma_not_found(text, opening(name));
    }
    if lacks_attribute(text, name) {
        lemma_not_found(text, assigning(name));
    }
}

/// The elements of an XML manifest give the fields that they are named after. Of two names
/// for a field the first counts, and an attribute counts before an element.
pub proof fn xml_fields_stand_in_their_elements(text: Seq<char>, v: Seq<char>)
    ensures
        ({
            let m = xml_manifest(text);
            &&& has_element(text, "title"@, v) ==> m.title == trim(v)
            &&& has_element(text, "publisher"@, v) ==> m.publisher == trim(v)
            &&& has_element(text, "original-mkv-filename"@, v) ==> m.original_mkv_filename == trim(
                v,
            )
            &&& lacks_element(text, "original-mkv-filename"@) && has_element(
                text,
                "original_mkv_filename"@,
                v,
            ) ==> m.original_mkv_filename == trim(v)
            &&& has_attribute(text, "original-language"@, v) ==> m.original_language == v
            &&& lacks_attribute(text, "original-language"@) && has_element(
                text,
                "original-language"@,
                v,
            ) ==> m.original_language == trim(v)
            &&& lacks_attribute(text, "original-language"@) && lacks_element(
                text,
                "original-language"@,
            ) && has_element(text, "original_language"@, v) ==> m.original_language == trim(v)
            &&& has_attribute(text, "system-version"@, v) ==> m.system_version == v
            &&& lacks_attribute(text, "system-version"@) && has_element(
                text,
                "system-version"@,
                v,
            ) ==> m.system_version == trim(v)
            &&& lacks_element(text, "title"@) ==> m.title == Seq::<char>::empty()
        }),
{
    elements_and_attributes_are_read(text, "title"@, v);
    elements_and_attributes_are_read(text, "publisher"@, v);
    elements_and_attributes_are_read(text, "original-mkv-filename"@, v);
    elements_and_attributes_are_read(text, "original_mkv_filename"@, v);
    elements_and_attributes_are_read(text, "original-language"@, v);
    elements_and_attributes_are_read(text, "original_language"@, v);
    elements_and_attributes_are_read(text, "system-version"@, v);
}

/// A year and a digest that are written into an XML manifest read back.
pub proof fn xml_numbers_read_back(text: Seq<char>, year: u16, hash: Seq<u8>)
    requires
        hash.len() == 32,
    ensures
        ({
            let m = xml_manifest(text);
            &&& has_element(text, "year"@, decimal(year as nat)) ==> m.year == year
            &&& lacks_element(text, "year"@) ==> m.year == 0
            &&& has_element(text, "hash"@, hex_of(hash)) ==> m.original_mkv_hash == hash
            &&& lacks_element(text, "hash"@) && has_element(
                text,
                "original-mkv-hash"@,
                hex_of(hash),
            ) ==> m.original_mkv_hash == hash
        }),
{
    let y = decimal(year as nat);
    let h = hex_of(hash);
    elements_and_attributes_are_read(text, "year"@, y);
    elements_and_attributes_are_read(text, "hash"@, h);
    elements_and_attributes_are_read(text, "original-mkv-hash"@, h);
    lemma_number_trimmed(year as nat);
    decimal_reads_back(year as nat);
    hex_reads_back(hash);
    crate::spelling::lemma_hex_of(hash);
    assert(trim(trim(h)) == trim(h)) by {
        crate::spelling::trimmed_text_stands_between_blanks(h);
    }
}

proof fn lemma_number_trimmed(n: nat)
    ensures
        trim(decimal(n)) == decimal(n),
{
    let s = decimal(n);
    decimal_reads_back(n);
    lemma_digits_solid(n);
}

proof fn lemma_digits_solid(n: nat)
    ensures
        decimal(n).len() > 0,
        forall|i: int|
            0 <= i < decimal(n).len() ==> '0' <= #[trigger] decimal(n)[i] <= '9',
    decreases n,
{
    if n >= 10 {
        lemma_digits_solid(n / 10);
        let d = decimal(n / 10);
        assert forall|i: int| 0 <= i < decimal(n).len() implies '0' <= #[trigger] decimal(n)[i]
            <= '9' by {
            if i < d.len() {
                assert(decimal(n)[i] == d[i]);
            }
        }
    }
}

/// An NFO gives title and year by the same elements, and nothing else.
pub proof fn nfo_tells_title_and_year(text: Seq<char>, v: Seq<char>, year: u16)
    ensures
        ({
            let m = nfo_manifest(text);
            &&& has_element(text, "title"@, v) ==> m.title == trim(v)
            &&& has_element(text, "year"@, decimal(year as nat)) ==> m.year == year
            &&& m.original_language.len() == 0
            &&& m.publisher.len() == 0
            &&& m.system_version.len() == 0
            &&& m.original_mkv_filename.len() == 0
            &&& m.tracks.len() == 0
            &&& m.variants_legend.len() == 0
            &&& m.original_mkv_hash.len() == 32
            &&& forall|i: int| 0 <= i < 32 ==> #[trigger] m.original_mkv_hash[i] == 0
        }),
{
    elements_and_attributes_are_read(text, "title"@, v);
    elements_and_attributes_are_read(text, "year"@, decimal(year as nat));
    lemma_number_trimmed(year as nat);
    decimal_reads_back(year as nat);
}

/// The attributes of a track tag give the fields of the track. What names no other kind is
/// video.
pub proof fn track_tags_tell_their_attributes(tag: Seq<char>, id: u64, v: Seq<char>)
    ensures
        ({
            let t = tag_track(tag);
            &&& has_attribute(tag, "id"@, decimal(id as nat)) ==> t.track_id == id
            &&& has_attribute(tag, "type"@, "audio"@) ==> t.kind == TrackKind::Audio
            &&& has_attribute(tag, "type"@, "subtitle"@) ==> t.kind == TrackKind::Subtitle
            &&& has_attribute(tag, "type"@, "video"@) ==> t.kind == TrackKind::Video
            &&& lacks_attribute(tag, "type"@) ==> t.kind == TrackKind::Video
            &&& has_attribute(tag, "language"@, v) ==> t.language == Some(v)
            &&& lacks_attribute(tag, "language"@) ==> t.language is None
            &&& has_attribute(tag, "codec"@, v) ==> t.codec == v
            &&& has_attribute(tag, "variant"@, v) ==> t.variant == Some(v)
            &&& lacks_attribute(tag, "variant"@) ==> t.variant is None
            &&& has_attribute(tag, "resolution"@, v) ==> t.resolution == Some(v)
            &&& lacks_attribute(tag, "resolution"@) ==> t.resolution is None
        }),
{
    reveal_strlit("audio");
    reveal_strlit("video");
    reveal_strlit("subtitle");
    assert("audio"@[0] != "video"@[0]);
    assert("audio"@.len() != "subtitle"@.len());
    assert("video"@.len() != "subtitle"@.len());
    elements_and_attributes_are_read(tag, "id"@, decimal(id as nat));
    decimal_reads_back(id as nat);
    elements_and_attributes_are_read(tag, "type"@, "audio"@);
    elements_and_attributes_are_read(tag, "type"@, "subtitle"@);
    elements_and_attributes_are_read(tag, "type"@, "video"@);
    elements_and_attributes_are_read(tag, "language"@, v);
    elements_and_attributes_are_read(tag, "codec"@, v);
    elements_and_attributes_are_read(tag, "variant"@, v);
    elements_and_attributes_are_read(tag, "resolution"@, v);
}

/// The attributes of a variant tag give id and description.
pub proof fn variant_tags_tell_their_attributes(tag: Seq<char>, v: Seq<char>)
    ensures
        has_attribute(tag, "id"@, v) ==> tag_variant(tag).id == v,
        has_attribute(tag, "description"@, v) ==> tag_variant(tag).description == v,
{
    elements_and_attributes_are_read(tag, "id"@, v);
    elements_and_attributes_are_read(tag, "description"@, v);
}

/// Whether `places` are all the places from `from` on where `pat` stands, in order.
pub open spec fn are_places(text: Seq<char>, pat: Seq<char>, from: int, places: Seq<int>) -> bool {
    &&& forall|i: int|
        0 <= i < places.len() ==> from <= #[trigger] places[i] && matches_at(text, pat, places[i])
    &&& forall|i: int, j: int| 0 <= i < j < places.len() ==> places[i] < places[j]
    &&& forall|k: int| from <= k && #[trigger] matches_at(text, pat, k) ==> places.contains(k)
}

/// The tag that begins at `k`: up to the next `>`, or to the end of the text.
pub open spec fn tag_from(text: Seq<char>, k: int) -> Seq<char> {
    if exists|e: int| #[trigger] stands_first(text, seq!['>'], k, e) {
        let e = choose|e: int| #[trigger] stands_first(text, seq!['>'], k, e);
        text.subrange(k, e + 1)
    } else {
        text.skip(k)
    }
}

proof fn lemma_tag(text: Seq<char>, k: int)
    requires
        0 <= k,
    ensures
        tag_at(text, k) == tag_from(text, k),
{
    let gt = seq!['>'];
    text_is_found_where_it_first_stands(text, gt, k);
    if let Some(e) = find_from(text, gt, k) {
        assert(stands_first(text, gt, k, e));
        let f = choose|e: int| #[trigger] stands_first(text, gt, k, e);
        lemma_found(text, gt, k, f);
    } else {
        if exists|e: int| #[trigger] stands_first(text, gt, k, e) {
            let f = choose|e: int| #[trigger] stands_first(text, gt, k, e);
            lemma_found(text, gt, k, f);
        }
    }
}

proof fn lemma_more_places(
    text: Seq<char>,
    pat: Seq<char>,
    from: int,
    k: int,
    n: int,
    rest: Seq<int>,
)
    requires
        from <= k,
        0 < n,
        matches_at(text, pat, k),
        forall|j: int| from <= j < k ==> !#[trigger] matches_at(text, pat, j),
        forall|j: int| k < j < k + n ==> !#[trigger] matches_at(text, pat, j),
        are_places(text, pat, k + n, rest),
    ensures
        are_places(text, pat, from, seq![k] + rest),
{
    let places = seq![k] + rest;
    assert forall|i: int| 0 <= i < places.len() implies from <= #[trigger] places[i] && matches_at(
        text,
        pat,
        places[i],
    ) by {
        if i > 0 {
            assert(places[i] == rest[i - 1]);
        }
    }
    assert forall|i: int, j: int| 0 <= i < j < places.len() implies places[i] < places[j] by {
        assert(places[j] == rest[j - 1]);
        if i > 0 {
            assert(places[i] == rest[i - 1]);
        }
    }
    assert forall|j: int| from <= j && #[trigger] matches_at(text, pat, j) implies places.contains(
        j,
    ) by {
        if j == k {
            assert(places[0] == j);
        } else {
            assert(j >= k + n);
            assert(rest.contains(j));
            let i = choose|i: int| 0 <= i < rest.len() && rest[i] == j;
            assert(places[i + 1] == j);
        }
    }
}

/// The tracks of an XML manifest are those of all its `<track` tags, in order; a tag
/// goes up to the next `>`, or to the end of the text.
pub proof fn every_track_tag_is_read(text: Seq<char>) -> (places: Seq<int>)
    ensures
        are_places(text, "<track "@, 0, places),
        xml_tracks_from(Seq::empty(), text, 0).len() == places.len(),
        forall|i: int|
            0 <= i < places.len() ==> #[trigger] xml_tracks_from(Seq::empty(), text, 0)[i]
                == tag_track(tag_from(text, places[i])),
{
    let places = lemma_track_places(Seq::empty(), text, 0);
    assert(xml_tracks_from(Seq::empty(), text, 0) =~= Seq::<TrackModel>::empty() + Seq::new(
        places.len(),
        |i: int| tag_track(tag_from(text, places[i])),
    ));
    places
}

proof fn lemma_track_places(acc: Seq<TrackModel>, text: Seq<char>, from: int) -> (places: Seq<int>)
    requires
        0 <= from,
    ensures
        are_places(text, "<track "@, from, places),
        xml_tracks_from(acc, text, from) == acc + Seq::new(
            places.len(),
            |i: int| tag_track(tag_from(text, places[i])),
        ),
    decreases
            if from < text.len() {
                text.len() - from
            } else {
                0
            },
{
    let pat = "<track "@;
    reveal_strlit("<track ");
    text_is_found_where_it_first_stands(text, pat, from);
    match find_from(text, pat, from) {
        Some(k) => {
            let t = tag_track(tag_at(text, k));
            let rest = lemma_track_places(acc.push(t), text, k + 7);
            let places = seq![k] + rest;
            lemma_tag(text, k);
            assert(matches_at(text, pat, k));
            assert forall|j: int| k < j < k + 7 implies !#[trigger] matches_at(text, pat, j) by {
                if matches_at(text, pat, j) {
                    assert(text.subrange(j, j + 7)[0] == '<');
                    assert(text.subrange(k, k + 7)[j - k] == text[j]);
                    assert(pat[j - k] != '<');
                }
            }
            lemma_more_places(text, pat, from, k, 7, rest);
            let l = Seq::new(places.len(), |i: int| tag_track(tag_from(text, places[i])));
            let r = Seq::new(rest.len(), |i: int| tag_track(tag_from(text, rest[i])));
            assert(acc.push(t) + r =~= acc + l);
            places
        },
        None => {
            let places = Seq::<int>::empty();
            assert(acc + Seq::new(
                places.len(),
                |i: int| tag_track(tag_from(text, places[i])),
            ) =~= acc);
            places
        },
    }
}

/// The variants of an XML manifest are those of all its `<variant` tags, in order; a tag
/// goes up to the next `>`, or to the end of the text.
pub proof fn every_variant_tag_is_read(text: Seq<char>) -> (places: Seq<int>)
    ensures
        are_places(text, "<variant "@, 0, places),
        xml_variants_from(Seq::empty(), text, 0).len() == places.len(),
        forall|i: int|
            0 <= i < places.len() ==> #[trigger] xml_variants_from(Seq::empty(), text, 0)[i]
                == tag_variant(tag_from(text, places[i])),
{
    let places = lemma_variant_places(Seq::empty(), text, 0);
    assert(xml_variants_from(Seq::empty(), text, 0) =~= Seq::<VariantModel>::empty() + Seq::new(
        places.len(),
        |i: int| tag_variant(tag_from(text, places[i])),
    ));
    places
}

proof fn lemma_variant_places(acc: Seq<VariantModel>, text: Seq<char>, from: int) -> (places: Seq<int>)
    requires
        0 <= from,
    ensures
        are_places(text, "<variant "@, from, places),
        xml_variants_from(acc, text, from) == acc + Seq::new(
            places.len(),
            |i: int| tag_variant(tag_from(text, places[i])),
        ),
    decreases
            if from < text.len() {
                text.len() - from
            } else {
                0
            },
{
    let pat = "<variant "@;
    reveal_strlit("<variant ");
    text_is_found_where_it_first_stands(text, pat, from);
    match find_from(text, pat, from) {
        Some(k) => {
            let t = tag_variant(tag_at(text, k));
            let rest = lemma_variant_places(acc.push(t), text, k + 9);
            let places = seq![k] + rest;
            lemma_tag(text, k);
            assert(matches_at(text, pat, k));
            assert forall|j: int| k < j < k + 9 implies !#[trigger] matches_at(text, pat, j) by {
                if matches_at(text, pat, j) {
                    assert(text.subrange(j, j + 9)[0] == '<');
                    assert(text.subrange(k, k + 9)[j - k] == text[j]);
                    assert(pat[j - k] != '<');
                }
            }
            lemma_more_places(text, pat, from, k, 9, rest);
            let l = Seq::new(places.len(), |i: int| tag_variant(tag_from(text, places[i])));
            let r = Seq::new(rest.len(), |i: int| tag_variant(tag_from(text, rest[i])));
            assert(acc.push(t) + r =~= acc + l);
            places
        },
        None => {
            let places = Seq::<int>::empty();
            assert(acc + Seq::new(
                places.len(),
                |i: int| tag_variant(tag_from(text, places[i])),
            ) =~= acc);
            places
        },
    }
}

/// Whether a text is one line.
pub open spec fn is_line(s: Seq<char>) -> bool {
    forall|i: int| 0 <= i < s.len() ==> #[trigger] s[i] != '\n'
}

proof fn lemma_find_shift(a: Seq<char>, b: Seq<char>, pat: Seq<char>, i: int)
    requires
        0 <= i,
    ensures
        find_from(a + b, pat, a.len() + i) == match find_from(b, pat, i) {
            Some(k) => Some(a.len() + k),
            None => None,
        },
    decreases b.len() + 1 - i,
{
    if i + pat.len() <= b.len() {
        assert((a + b).subrange(a.len() + i, a.len() + i + pat.len()) =~= b.subrange(
            i,
            i + pat.len(),
        ));
        assert(matches_at(a + b, pat, a.len() + i) == matches_at(b, pat, i));
        if !matches_at(b, pat, i) {
            lemma_find_shift(a, b, pat, i + 1);
        }
    }
}

proof fn lemma_md_shift(st: ManifestModel, a: Seq<char>, b: Seq<char>, i: int)
    requires
        0 <= i,
    ensures
        md_from(st, a + b, a.len() + i) == md_from(st, b, i),
    decreases
            if i < b.len() {
                b.len() - i
            } else {
                0
            },
{
    if i < b.len() {
        let nl = seq!['\n'];
        lemma_find_shift(a, b, nl, i);
        text_is_found_where_it_first_stands(b, nl, i);
        let e = line_end(b, i);
        assert(line_end(a + b, a.len() + i) == a.len() + e);
        assert((a + b).subrange(a.len() + i, a.len() + e) =~= b.subrange(i, e));
        lemma_md_shift(md_line(st, b.subrange(i, e)), a, b, e + 1);
    }
}

/// A Markdown manifest is read line by line: what a line adds comes before what the lines
/// behind it add.
pub proof fn md_is_read_line_by_line(st: ManifestModel, line: Seq<char>, rest: Seq<char>)
    requires
        is_line(line),
    ensures
        md_manifest(rest) == md_from(
            (ManifestModel {
                title: Seq::empty(),
                year: 0,
                original_mkv_filename: Seq::empty(),
                original_mkv_hash: Seq::new(32, |i: int| 0u8),
                original_language: Seq::empty(),
                system_version: Seq::empty(),
                publisher: Seq::empty(),
                tracks: Seq::empty(),
                variants_legend: Seq::empty(),
            }),
            rest,
            0,
        ),
        md_from(st, line + seq!['\n'] + rest, 0) == md_from(md_line(st, line), rest, 0),
        line.len() > 0 ==> md_from(st, line, 0) == md_line(st, line),
        md_from(st, Seq::empty(), 0) == st,
{
    let nl = seq!['\n'];
    let head = line + nl;
    let text = head + rest;
    assert(text[line.len() as int] == '\n');
    assert(text.subrange(line.len() as int, line.len() as int + 1) =~= nl);
    assert forall|j: int| 0 <= j < line.len() implies !#[trigger] matches_at(text, nl, j) by {
        if matches_at(text, nl, j) {
            assert(text.subrange(j, j + 1)[0] == line[j]);
        }
    }
    assert(stands_first(text, nl, 0, line.len() as int));
    lemma_found(text, nl, 0, line.len() as int);
    assert(text.subrange(0, line.len() as int) =~= line);
    lemma_md_shift(md_line(st, line), head, rest, 0);
    if line.len() > 0 {
        assert forall|j: int| 0 <= j implies !#[trigger] matches_at(line, nl, j) by {
            if matches_at(line, nl, j) {
                assert(line.subrange(j, j + 1)[0] == line[j]);
            }
        }
        lemma_not_found(line, nl);
        assert(line.subrange(0, line.len() as int) =~= line);
        assert(md_from(md_line(st, line), line, line.len() as int + 1) == md_line(st, line));
    }
}

/// Whether a text neither begins nor ends with white space.
pub open spec fn is_trimmed(s: Seq<char>) -> bool {
    s.len() > 0 && !is_white_space(s[0]) && !is_white_space(s.last())
}

/// The first heading gives the title, and the year in its last brackets.
pub proof fn md_heading_gives_title_and_year(st: ManifestModel, title: Seq<char>, year: u16)
    requires
        st.title.len() == 0,
        is_trimmed(title),
    ensures
        md_line(st, "# "@ + title + " ("@ + decimal(year as nat) + ")"@) == (ManifestModel {
            title,
            year,
            ..st
        }),
        (forall|i: int| 0 <= i < title.len() ==> #[trigger] title[i] != '(') ==> md_line(
            st,
            "# "@ + title,
        ) == (ManifestModel { title, ..st }),
{
    reveal_strlit("# ");
    reveal_strlit(" (");
    reveal_strlit(")");
    let y = decimal(year as nat);
    let line = "# "@ + title + " ("@ + y + ")"@;
    let h1 = line.skip(2);
    lemma_digits_solid(year as nat);
    decimal_reads_back(year as nat);
    assert(trim(line) == line) by {
        assert(line[0] == '#');
        assert(line.last() == ')');
    }
    assert(line.take(2) =~= "# "@);
    let n = title.len() as int;
    let lp = n + 1;
    let rp = lp + 1 + y.len();
    assert(h1 =~= title + " ("@ + y + ")"@);
    assert(h1.len() == rp + 1);
    assert(h1[lp] == '(' && h1[rp] == ')');
    character_is_found_where_it_last_stands(h1, '(', h1.len());
    character_is_found_where_it_last_stands(h1, ')', h1.len());
    assert(last_before(h1, '(', h1.len()) == Some(lp)) by {
        let u = last_before(h1, '(', h1.len())->0;
        if u > lp {
            if u < rp {
                assert(h1[u] == y[u - lp - 1]);
            }
        }
    }
    assert(last_before(h1, ')', h1.len()) == Some(rp));
    assert(h1.subrange(lp + 1, rp) =~= y);
    let t = h1.take(lp);
    assert(t =~= title.push(' '));
    lemma_trim(title);
    if forall|i: int| 0 <= i < title.len() ==> #[trigger] title[i] != '(' {
        let plain = "# "@ + title;
        assert(plain[0] == '#' && plain.last() == title.last());
        assert(trim(plain) == plain);
        assert(plain.take(2) =~= "# "@);
        assert(plain.skip(2) =~= title);
        character_is_found_where_it_last_stands(title, '(', title.len());
    }
}

/// A line `- **Key**: value` is an entry with that key and value.
pub proof fn md_lines_are_entries(st: ManifestModel, key: Seq<char>, val: Seq<char>)
    requires
        is_trimmed(val),
        forall|i: int| 0 <= i < key.len() ==> #[trigger] key[i] != '*',
    ensures
        md_line(st, "- **"@ + key + "**: "@ + val) == md_entry(st, key, val),
        md_line(st, "**"@ + key + "**: "@ + val) == md_entry(st, key, val),
{
    reveal_strlit("- **");
    reveal_strlit("**");
    reveal_strlit("**: ");
    let kv = "**"@ + key + "**: "@ + val;
    let line = "- **"@ + key + "**: "@ + val;
    lemma_bold(st, key, val);
    assert(is_trimmed(kv)) by {
        assert(kv[0] == '*' && kv.last() == val.last());
    }
    assert(is_trimmed(line)) by {
        assert(line[0] == '-' && line.last() == val.last());
    }
    lemma_trim(kv);
    lemma_trim(line);
    assert(line =~= seq!['-', ' '] + kv);
    lemma_dash(kv);
    lemma_no_heading(line, '-');
    lemma_no_heading(kv, '*');
    assert(strip_start(kv, '-') == kv);
}

/// What is in bold before a colon is a key, and what follows its value.
proof fn lemma_bold(st: ManifestModel, key: Seq<char>, val: Seq<char>)
    requires
        is_trimmed(val),
        forall|i: int| 0 <= i < key.len() ==> #[trigger] key[i] != '*',
    ensures
        ({
            let kv = "**"@ + key + "**: "@ + val;
            &&& begins_with(kv, "**"@)
            &&& find_from(kv.skip(2), "**:"@, 0) == Some(key.len() as int)
            &&& kv.skip(2).take(key.len() as int) == key
            &&& trim(kv.skip(2).skip(key.len() as int + 3)) == val
        }),
{
    reveal_strlit("**");
    reveal_strlit("**: ");
    reveal_strlit("**:");
    let kv = "**"@ + key + "**: "@ + val;
    assert(kv.take(2) =~= "**"@);
    let e = kv.skip(2);
    assert(e =~= key + "**: "@ + val);
    let n = key.len() as int;
    let pat = "**:"@;
    assert(e.subrange(n, n + 3) =~= pat);
    assert forall|j: int| 0 <= j < n implies !#[trigger] matches_at(e, pat, j) by {
        if matches_at(e, pat, j) {
            assert(e.subrange(j, j + 3)[0] == '*');
            assert(e[j] == key[j]);
        }
    }
    lemma_found(e, pat, 0, n);
    assert(e.take(n) =~= key);
    assert(e.skip(n + 3) =~= seq![' '] + val);
    lemma_trim(val);
}

proof fn lemma_no_heading(s: Seq<char>, c: char)
    requires
        s.len() > 0,
        s[0] == c,
        c != '#',
    ensures
        !begins_with(s, "# "@),
{
    reveal_strlit("# ");
    if begins_with(s, "# "@) {
        assert(s.take(2)[0] == s[0]);
    }
}

/// A dash and a space before a text that begins with neither are taken away.
proof fn lemma_dash(kv: Seq<char>)
    requires
        is_trimmed(kv),
    ensures
        trim(strip_start(seq!['-', ' '] + kv, '-')) == kv,
{
    let line = seq!['-', ' '] + kv;
    let rest = seq![' '] + kv;
    assert(line.skip(1) =~= rest);
    reveal_with_fuel(strip_start, 3);
    assert(strip_start(line, '-') == rest);
    lemma_trim(kv);
}

/// Trimming takes a space at either end, and leaves a trimmed text as it is.
proof fn lemma_trim(s: Seq<char>)
    requires
        is_trimmed(s),
    ensures
        trim(s) == s,
        trim(s.push(' ')) == s,
        trim(seq![' '] + s) == s,
{
    assert(is_white_space(' '));
    let a = s.push(' ');
    assert(a.drop_last() =~= s);
    assert(a[0] == s[0]);
    assert(trim_start(a) == a);
    assert(trim_end(s) == s);
    assert(trim_end(a) == s);
    let b = seq![' '] + s;
    assert(b.skip(1) =~= s);
    assert(trim_start(s) == s);
    assert(trim_start(b) == s);
}

/// The keys of entries, in English and in Spanish and in any case, give their fields.
pub proof fn md_keys_give_their_fields(
    st: ManifestModel,
    key: Seq<char>,
    val: Seq<char>,
    year: u16,
    hash: Seq<u8>,
)
    requires
        hash.len() == 32,
    ensures
        lower(key) == "year"@ || lower(key) == "año"@ || lower(key) == "año de producción"@
            ==> md_entry(st, key, decimal(year as nat)) == (ManifestModel { year, ..st }),
        lower(key) == "original language"@ || lower(key) == "idioma original"@ ==> md_entry(
            st,
            key,
            val,
        ) == (ManifestModel { original_language: val, ..st }),
        lower(key) == "hash"@ || lower(key) == "original mkv hash"@ || lower(key)
            == "hash del mkv original"@ ==> md_entry(st, key, hex_of(hash)) == (ManifestModel {
            original_mkv_hash: hash,
            ..st
        }),
        lower(key) == "publisher"@ || lower(key) == "publicador"@ ==> md_entry(st, key, val) == (
        ManifestModel { publisher: val, ..st }),
        lower(key) == "system version"@ || lower(key) == "versión del sistema"@ ==> md_entry(
            st,
            key,
            val,
        ) == (ManifestModel { system_version: val, ..st }),
        lower(key) == "original mkv filename"@ || lower(key) == "mkv original"@ ==> md_entry(
            st,
            key,
            val,
        ) == (ManifestModel { original_mkv_filename: val, ..st }),
{
    decimal_reads_back(year as nat);
    hex_reads_back(hash);
    lemma_keys_differ();
}

/// The keys differ in their lengths, or in a character.
proof fn lemma_keys_differ()
    ensures
        "year"@.len() == 4,
        "año"@.len() == 3,
        "año de producción"@.len() == 17,
        "original language"@.len() == 17,
        "idioma original"@.len() == 15,
        "hash"@.len() == 4,
        "original mkv hash"@.len() == 17,
        "hash del mkv original"@.len() == 21,
        "publisher"@.len() == 9,
        "publicador"@.len() == 10,
        "system version"@.len() == 14,
        "versión del sistema"@.len() == 19,
        "original mkv filename"@.len() == 21,
        "mkv original"@.len() == 12,
        "year"@[0] == 'y',
        "hash"@[0] == 'h',
        "año de producción"@[0] == 'a',
        "original language"@[0] == 'o',
        "original language"@[9] == 'l',
        "original mkv hash"@[0] == 'o',
        "original mkv hash"@[9] == 'm',
        "hash del mkv original"@[0] == 'h',
        "original mkv filename"@[0] == 'o',
{
    reveal_strlit("year");
    reveal_strlit("año");
    reveal_strlit("año de producción");
    reveal_strlit("original language");
    reveal_strlit("idioma original");
    reveal_strlit("hash");
    reveal_strlit("original mkv hash");
    reveal_strlit("hash del mkv original");
    reveal_strlit("publisher");
    reveal_strlit("publicador");
    reveal_strlit("system version");
    reveal_strlit("versión del sistema");
    reveal_strlit("original mkv filename");
    reveal_strlit("mkv original");
}

} // verus!
