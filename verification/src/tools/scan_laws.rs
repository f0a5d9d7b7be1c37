//! What a scan makes of a Matroska file that is put together from elements.
use crate::bytes::be_value;
use crate::muxer::ebml::{lemma_mkv_elem_len, mkv_elem};
use crate::muxer::read_back::{element_reads_back, is_id};
use crate::tools::mkv::{
    cluster_times, collected, entry_from, entry_of, entry_with, head_at, pre_of, range_of, scan_of,
    segment_from, skipped, tail, text_or_none, tracks_from, tracks_of, video_from, Bounds,
    HeadRead, ParsedModel, ScanModel,
};
use crate::vint::{lemma_pow128_values, uint_value};
use vstd::prelude::*;

verus! {

/// An element: its id, and its payload.
pub ghost struct Elem {
    pub id: Seq<u8>,
    pub payload: Seq<u8>,
}

/// Whether an element can be written with a size.
pub open spec fn is_elem(e: Elem) -> bool {
    is_id(e.id) && e.payload.len() < 0xFF_FFFF_FFFF_FFFF
}

pub open spec fn are_elems(elems: Seq<Elem>) -> bool {
    forall|i: int| 0 <= i < elems.len() ==> is_elem(#[trigger] elems[i])
}

pub open spec fn elem_bytes(e: Elem) -> Seq<u8> {
    mkv_elem(e.id, e.payload)
}

/// Elements, one after the other.
pub open spec fn elems_bytes(elems: Seq<Elem>) -> Seq<u8>
    decreases elems.len(),
{
    if elems.len() == 0 {
        Seq::empty()
    } else {
        elem_bytes(elems[0]) + elems_bytes(elems.skip(1))
    }
}

/// The number that an id spells in 32 bits.
pub open spec fn id_number(id: Seq<u8>) -> u32 {
    be_value(id) as u32
}

pub proof fn lemma_be_value_small(s: Seq<u8>)
    requires
        1 <= s.len() <= 4,
    ensures
        s.len() == 1 ==> be_value(s) == s[0],
        s.len() == 2 ==> be_value(s) == s[0] * 0x100 + s[1],
        s.len() == 3 ==> be_value(s) == s[0] * 0x1_0000 + s[1] * 0x100 + s[2],
        s.len() == 4 ==> be_value(s) == s[0] * 0x100_0000 + s[1] * 0x1_0000 + s[2] * 0x100 + s[3],
{
    reveal_with_fuel(be_value, 5);
    let a = s.drop_last();
    let b = a.drop_last();
    let c = b.drop_last();
    if s.len() >= 2 {
        assert(a.last() == s[s.len() - 2]);
    }
    if s.len() >= 3 {
        assert(b.last() == s[s.len() - 3]);
    }
    if s.len() >= 4 {
        assert(c.last() == s[0]);
    }
}

/// Different ids spell different numbers.
pub proof fn ids_spell_their_numbers(a: Seq<u8>, b: Seq<u8>)
    requires
        is_id(a),
        is_id(b),
    ensures
        id_number(a) == id_number(b) <==> a == b,
        id_number(a) == be_value(a),
{
    lemma_be_value_small(a);
    lemma_be_value_small(b);
    if a.len() == b.len() && id_number(a) == id_number(b) {
        assert(a =~= b);
    }
}

/// The head of a written element tells its id, the size of its payload, and its own length.
pub proof fn written_head_reads_back(e: Elem, rest: Seq<u8>)
    requires
        is_elem(e),
    ensures
        head_at(elem_bytes(e) + rest) == (HeadRead::Head {
            id: id_number(e.id),
            size: Some(e.payload.len() as u64),
            len: (elem_bytes(e).len() - e.payload.len()) as usize,
        }),
        2 <= elem_bytes(e).len() - e.payload.len() <= 12,
        elem_bytes(e).skip(elem_bytes(e).len() - e.payload.len()) == e.payload,
{
    let b = elem_bytes(e);
    let d = b + rest;
    let w = e.id.len() as int;
    element_reads_back(e.id, e.payload, rest);
    lemma_mkv_elem_len(e.id, e.payload);
    lemma_pow128_values();
    lemma_be_value_small(e.id);
    assert(d[0] == b.take(w)[0]);
    assert(d.take(w) =~= b.take(w));
    let start = b.len() - e.payload.len();
    assert(b.skip(start) =~= b.subrange(start, b.len() as int));
}

/// The payload of the last element with an id.
pub open spec fn last_with(elems: Seq<Elem>, id: Seq<u8>) -> Option<Seq<u8>>
    decreases elems.len(),
{
    if elems.len() == 0 {
        None
    } else if elems.last().id == id {
        Some(elems.last().payload)
    } else {
        last_with(elems.drop_last(), id)
    }
}

/// What children add to what is known about a track.
spec fn entry_fold(st: ParsedModel, elems: Seq<Elem>) -> ParsedModel
    decreases elems.len(),
{
    if elems.len() == 0 {
        st
    } else {
        entry_with(
            entry_fold(st, elems.drop_last()),
            id_number(elems.last().id),
            elems.last().payload,
        )
    }
}

proof fn lemma_entry_fold_first(st: ParsedModel, elems: Seq<Elem>)
    requires
        elems.len() > 0,
    ensures
        entry_fold(st, elems) == entry_fold(
            entry_with(st, id_number(elems[0].id), elems[0].payload),
            elems.skip(1),
        ),
    decreases elems.len(),
{
    if elems.len() == 1 {
        assert(elems.drop_last() =~= Seq::<Elem>::empty());
        assert(elems.skip(1) =~= Seq::<Elem>::empty());
    } else {
        lemma_entry_fold_first(st, elems.drop_last());
        assert(elems.skip(1).drop_last() =~= elems.drop_last().skip(1));
    }
}

/// One element further on in a byte string.
pub proof fn lemma_step(before: Seq<u8>, elems: Seq<Elem>, rest: Seq<u8>)
    requires
        are_elems(elems),
        elems.len() > 0,
    ensures
        ({
            let d = before + (elems_bytes(elems) + rest);
            let e = elem_bytes(elems[0]);
            let pos = before.len() as int;
            let start = pos + e.len() - elems[0].payload.len();
            let next = pos + e.len();
            &&& d == (before + e) + (elems_bytes(elems.skip(1)) + rest)
            &&& head_at(d.skip(pos)) == (HeadRead::Head {
                id: id_number(elems[0].id),
                size: Some(elems[0].payload.len() as u64),
                len: (start - pos) as usize,
            })
            &&& 2 <= start - pos <= 12
            &&& next <= d.len()
            &&& d.subrange(start, next) == elems[0].payload
            &&& d.subrange(pos, next) == e
            &&& are_elems(elems.skip(1))
        }),
{
    let d = before + (elems_bytes(elems) + rest);
    let e = elem_bytes(elems[0]);
    let pos = before.len() as int;
    let after = elems_bytes(elems.skip(1)) + rest;
    assert(d =~= (before + e) + after);
    assert(d.skip(pos) =~= e + after);
    written_head_reads_back(elems[0], after);
    let start = pos + e.len() - elems[0].payload.len();
    assert(d.subrange(start, pos + e.len()) =~= e.skip(start - pos));
    assert(d.subrange(pos, pos + e.len()) =~= e);
    let tail = elems.skip(1);
    assert forall|i: int| 0 <= i < tail.len() implies is_elem(#[trigger] tail[i]) by {
        assert(tail[i] == elems[i + 1]);
    }
}

proof fn lemma_entry(st: ParsedModel, before: Seq<u8>, elems: Seq<Elem>)
    requires
        are_elems(elems),
    ensures
        entry_from(st, before + (elems_bytes(elems) + Seq::empty()), before.len() as int)
            == entry_fold(st, elems),
    decreases elems.len(),
{
    let nil = Seq::<u8>::empty();
    if elems.len() > 0 {
        lemma_step(before, elems, nil);
        lemma_entry_fold_first(st, elems);
        lemma_entry(
            entry_with(st, id_number(elems[0].id), elems[0].payload),
            before + elem_bytes(elems[0]),
            elems.skip(1),
        );
    }
}

/// The number that bytes spell, or another where there are none.
pub open spec fn number_or(p: Option<Seq<u8>>, other: u64) -> u64 {
    match p {
        Some(b) => uint_value(b),
        None => other,
    }
}

/// The first byte, or another where there is none.
pub open spec fn byte_or(p: Option<Seq<u8>>, other: u8) -> u8 {
    match p {
        Some(b) => if b.len() > 0 {
            b[0]
        } else {
            0
        },
        None => other,
    }
}

pub open spec fn text_or(p: Option<Seq<u8>>, other: Seq<char>) -> Seq<char> {
    match p {
        Some(b) => text_or_none(b),
        None => other,
    }
}

proof fn lemma_fields(st: ParsedModel, elems: Seq<Elem>)
    requires
        are_elems(elems),
    ensures
        ({
            let r = entry_fold(st, elems);
            &&& r.raw_bytes == st.raw_bytes
            &&& r.track_id == number_or(last_with(elems, seq![0xD7u8]), st.track_id)
            &&& r.track_type == byte_or(last_with(elems, seq![0x83u8]), st.track_type)
            &&& r.flag_default == byte_or(last_with(elems, seq![0x88u8]), st.flag_default)
            &&& r.language == text_or(last_with(elems, seq![0x22u8, 0xB5u8, 0x9Cu8]), st.language)
            &&& r.codec_id == text_or(last_with(elems, seq![0x86u8]), st.codec_id)
            &&& (r.pixel_width, r.pixel_height) == match last_with(elems, seq![0xE0u8]) {
                Some(v) => video_from(v, 0, None, None),
                None => (st.pixel_width, st.pixel_height),
            }
        }),
    decreases elems.len(),
{
    if elems.len() > 0 {
        let e = elems.last();
        assert(is_elem(elems[elems.len() - 1]));
        assert forall|i: int| 0 <= i < elems.drop_last().len() implies is_elem(
            #[trigger] elems.drop_last()[i],
        ) by {
            assert(elems.drop_last()[i] == elems[i]);
        }
        lemma_fields(st, elems.drop_last());
        let lits = seq![
            seq![0xD7u8],
            seq![0x83u8],
            seq![0x88u8],
            seq![0x22u8, 0xB5u8, 0x9Cu8],
            seq![0x86u8],
            seq![0xE0u8],
        ];
        assert forall|k: int| 0 <= k < 6 implies id_number(#[trigger] lits[k]) == id_number(e.id)
            <==> lits[k] == e.id by {
            ids_spell_their_numbers(lits[k], e.id);
        }
        lemma_be_value_small(lits[0]);
        lemma_be_value_small(lits[1]);
        lemma_be_value_small(lits[2]);
        lemma_be_value_small(lits[3]);
        lemma_be_value_small(lits[4]);
        lemma_be_value_small(lits[5]);
        assert(lits[0] != lits[1]) by {
            assert(lits[0][0] != lits[1][0]);
        }
    }
}

/// A TrackEntry tells what its children hold, each under the id that Matroska gives it; of
/// several with one id the last counts.
pub proof fn track_entry_tells_its_children(children: Seq<Elem>, raw: Seq<u8>)
    requires
        are_elems(children),
    ensures
        ({
            let r = entry_of(elems_bytes(children), raw);
            &&& r.raw_bytes == raw
            &&& r.track_id == number_or(last_with(children, seq![0xD7u8]), 0)
            &&& r.track_type == byte_or(last_with(children, seq![0x83u8]), 0)
            &&& r.flag_default == byte_or(last_with(children, seq![0x88u8]), 0)
            &&& r.language == text_or(
                last_with(children, seq![0x22u8, 0xB5u8, 0x9Cu8]),
                Seq::empty(),
            )
            &&& r.codec_id == text_or(last_with(children, seq![0x86u8]), Seq::empty())
            &&& (r.pixel_width, r.pixel_height) == match last_with(children, seq![0xE0u8]) {
                Some(v) => video_from(v, 0, None, None),
                None => (None, None),
            }
        }),
{
    let st = ParsedModel {
        track_id: 0,
        track_type: 0,
        flag_default: 0,
        language: Seq::empty(),
        codec_id: Seq::empty(),
        pixel_width: None,
        pixel_height: None,
        raw_bytes: raw,
    };
    let nil = Seq::<u8>::empty();
    lemma_entry(st, nil, children);
    assert(nil + (elems_bytes(children) + nil) =~= elems_bytes(children));
    lemma_fields(st, children);
}

/// The low 32 bits of the number that bytes spell.
pub open spec fn pixels_of(p: Option<Seq<u8>>) -> Option<u32> {
    match p {
        Some(b) => Some(uint_value(b) as u32),
        None => None,
    }
}

/// A Video element tells width and height; of several the last counts.
pub proof fn video_element_tells_its_size(children: Seq<Elem>)
    requires
        are_elems(children),
    ensures
        video_from(elems_bytes(children), 0, None, None) == (
            pixels_of(last_with(children, seq![0xB0u8])),
            pixels_of(last_with(children, seq![0xBAu8])),
        ),
{
    let nil = Seq::<u8>::empty();
    let none = Seq::<Elem>::empty();
    assert(none + children =~= children);
    lemma_video(none, nil, children);
    assert(nil + (elems_bytes(children) + nil) =~= elems_bytes(children));
}

proof fn lemma_video(done: Seq<Elem>, before: Seq<u8>, elems: Seq<Elem>)
    requires
        are_elems(elems),
    ensures
        video_from(
            before + (elems_bytes(elems) + Seq::empty()),
            before.len() as int,
            pixels_of(last_with(done, seq![0xB0u8])),
            pixels_of(last_with(done, seq![0xBAu8])),
        ) == (
            pixels_of(last_with(done + elems, seq![0xB0u8])),
            pixels_of(last_with(done + elems, seq![0xBAu8])),
        ),
    decreases elems.len(),
{
    let nil = Seq::<u8>::empty();
    if elems.len() > 0 {
        let e = elems[0];
        assert(is_elem(e));
        lemma_step(before, elems, nil);
        let b0 = seq![0xB0u8];
        let ba = seq![0xBAu8];
        ids_spell_their_numbers(b0, e.id);
        ids_spell_their_numbers(ba, e.id);
        lemma_be_value_small(b0);
        lemma_be_value_small(ba);
        assert(b0[0] != ba[0]);
        assert(done.push(e).drop_last() =~= done);
        lemma_video(done.push(e), before + elem_bytes(e), elems.skip(1));
        assert(done.push(e) + elems.skip(1) =~= done + elems);
    } else {
        assert(done + elems =~= done);
    }
}

/// The track entries among elements, in order, each with its own bytes.
pub open spec fn entries_among(elems: Seq<Elem>) -> Seq<ParsedModel>
    decreases elems.len(),
{
    if elems.len() == 0 {
        Seq::empty()
    } else {
        let rest = entries_among(elems.skip(1));
        if elems[0].id == seq![0xAEu8] {
            seq![entry_of(elems[0].payload, elem_bytes(elems[0]))] + rest
        } else {
            rest
        }
    }
}

/// A Tracks element tells the TrackEntry elements in it, in order, each with its bytes as
/// they are.
pub proof fn tracks_element_tells_its_entries(children: Seq<Elem>)
    requires
        are_elems(children),
        elems_bytes(children).len() < 0xFF_FFFF_FFFF_FFFF,
    ensures
        tracks_of(mkv_elem(seq![0x16u8, 0x54u8, 0xAEu8, 0x6Bu8], elems_bytes(children))) == Ok::<
            Seq<ParsedModel>,
            Seq<char>,
        >(entries_among(children)),
{
    let nil = Seq::<u8>::empty();
    let payload = elems_bytes(children);
    let outer = Elem { id: seq![0x16u8, 0x54u8, 0xAEu8, 0x6Bu8], payload };
    let body = elem_bytes(outer);
    written_head_reads_back(outer, nil);
    lemma_be_value_small(outer.id);
    assert(body + nil =~= body);
    let start = body.len() - payload.len();
    let before = body.take(start);
    assert(body =~= before + (payload + nil)) by {
        assert(body =~= before + body.skip(start));
    }
    lemma_tracks(Seq::empty(), before, children);
    assert(Seq::<ParsedModel>::empty() + entries_among(children) =~= entries_among(children));
}

#[verifier::rlimit(40)]
proof fn lemma_tracks(acc: Seq<ParsedModel>, before: Seq<u8>, elems: Seq<Elem>)
    requires
        are_elems(elems),
    ensures
        ({
            let d = before + (elems_bytes(elems) + Seq::empty());
            tracks_from(acc, d, before.len() as int, d.len() as int) == Ok::<
                Seq<ParsedModel>,
                Seq<char>,
            >(acc + entries_among(elems))
        }),
    decreases elems.len(),
{
    let nil = Seq::<u8>::empty();
    if elems.len() > 0 {
        let e = elems[0];
        assert(is_elem(e));
        lemma_step(before, elems, nil);
        let ae = seq![0xAEu8];
        ids_spell_their_numbers(ae, e.id);
        lemma_be_value_small(ae);
        let d = before + (elems_bytes(elems) + nil);
        let pos = before.len() as int;
        let b = elem_bytes(e);
        let end = d.len() as int;
        let next = acc.push(entry_of(e.payload, b));
        assert(d == (before + b) + (elems_bytes(elems.skip(1)) + nil));
        assert((before + b).len() == pos + b.len());
        if e.id == ae {
            assert(tracks_from(acc, d, pos, end) == tracks_from(next, d, pos + b.len(), end));
            lemma_tracks(next, before + b, elems.skip(1));
            assert(next + entries_among(elems.skip(1)) =~= acc + entries_among(elems));
        } else {
            assert(tracks_from(acc, d, pos, end) == tracks_from(acc, d, pos + b.len(), end));
            lemma_tracks(acc, before + b, elems.skip(1));
        }
    } else {
        assert(acc + entries_among(elems) =~= acc);
    }
}

/// Whether elements are none of those that a scan looks for: SeekHead, Tracks, Cluster.
pub open spec fn are_plain(elems: Seq<Elem>) -> bool {
    &&& are_elems(elems)
    &&& forall|i: int|
        0 <= i < elems.len() ==> (#[trigger] elems[i]).id != seq![0x11u8, 0x4Du8, 0x9Bu8, 0x74u8]
            && elems[i].id != seq![0x16u8, 0x54u8, 0xAEu8, 0x6Bu8] && elems[i].id != seq![
            0x1Fu8,
            0x43u8,
            0xB6u8,
            0x75u8,
        ]
}

/// Whether the end of a Segment, if it is known, does not come before `at`.
pub open spec fn reaches(end: Option<int>, at: int) -> bool {
    end matches Some(e) ==> at <= e
}

pub proof fn lemma_scan_ids(e: Elem)
    requires
        is_elem(e),
    ensures
        id_number(e.id) == 0x114D9B74 <==> e.id == seq![0x11u8, 0x4Du8, 0x9Bu8, 0x74u8],
        id_number(e.id) == 0x1654AE6B <==> e.id == seq![0x16u8, 0x54u8, 0xAEu8, 0x6Bu8],
        id_number(e.id) == 0x1F43B675 <==> e.id == seq![0x1Fu8, 0x43u8, 0xB6u8, 0x75u8],
        id_number(e.id) == 0xE7 <==> e.id == seq![0xE7u8],
        e.id.len() == 4 <==> id_number(e.id) >= 0x0100_0000,
{
    let a = seq![0x11u8, 0x4Du8, 0x9Bu8, 0x74u8];
    let b = seq![0x16u8, 0x54u8, 0xAEu8, 0x6Bu8];
    let c = seq![0x1Fu8, 0x43u8, 0xB6u8, 0x75u8];
    let d = seq![0xE7u8];
    ids_spell_their_numbers(a, e.id);
    ids_spell_their_numbers(b, e.id);
    ids_spell_their_numbers(c, e.id);
    ids_spell_their_numbers(d, e.id);
    lemma_be_value_small(a);
    lemma_be_value_small(b);
    lemma_be_value_small(c);
    lemma_be_value_small(d);
    lemma_be_value_small(e.id);
}

/// [`segment_from`] without its definition.
#[verifier::opaque]
spec fn scanned_from(c: Seq<u8>, pos: int, end: Option<int>, b: Bounds) -> Result<
    Bounds,
    Seq<char>,
> {
    segment_from(c, pos, end, b)
}

/// A scan goes by plain elements.
proof fn lemma_plain(
    before: Seq<u8>,
    elems: Seq<Elem>,
    rest: Seq<u8>,
    end: Option<int>,
    b: Bounds,
)
    requires
        are_plain(elems),
        reaches(end, before.len() as int + elems_bytes(elems).len()),
    ensures
        ({
            let c = before + (elems_bytes(elems) + rest);
            scanned_from(c, before.len() as int, end, b) == scanned_from(
                c,
                before.len() as int + elems_bytes(elems).len(),
                end,
                b,
            )
        }),
    decreases elems.len(),
{
    if elems.len() > 0 {
        let c = before + (elems_bytes(elems) + rest);
        let e = elems[0];
        let n = elem_bytes(e).len();
        assert(is_elem(e));
        lemma_step(before, elems, rest);
        lemma_scan_ids(e);
        let tail = elems.skip(1);
        assert forall|i: int| 0 <= i < tail.len() implies (#[trigger] tail[i]).id != seq![
            0x11u8,
            0x4Du8,
            0x9Bu8,
            0x74u8,
        ] && tail[i].id != seq![0x16u8, 0x54u8, 0xAEu8, 0x6Bu8] && tail[i].id != seq![
            0x1Fu8,
            0x43u8,
            0xB6u8,
            0x75u8,
        ] by {
            assert(tail[i] == elems[i + 1]);
        }
        let pos = before.len() as int;
        assert(scanned_from(c, pos, end, b) == scanned_from(c, pos + n, end, b)) by {
            reveal(scanned_from);
        }
        lemma_plain(before + elem_bytes(e), tail, rest, end, b);
    }
}

/// A scan notes where the SeekHead and the Tracks stand.
proof fn lemma_noted(before: Seq<u8>, e: Elem, rest: Seq<u8>, end: Option<int>, b: Bounds)
    requires
        is_elem(e),
        reaches(end, before.len() as int + elem_bytes(e).len()),
    ensures
        ({
            let c = before + (elem_bytes(e) + rest);
            let pos = before.len() as int;
            let next = pos + elem_bytes(e).len();
            &&& e.id == seq![0x11u8, 0x4Du8, 0x9Bu8, 0x74u8] ==> scanned_from(c, pos, end, b)
                == scanned_from(c, next, end, Bounds { seekhead: Some((pos, next)), ..b })
            &&& e.id == seq![0x16u8, 0x54u8, 0xAEu8, 0x6Bu8] ==> scanned_from(c, pos, end, b)
                == scanned_from(c, next, end, Bounds { tracks: Some((pos, next)), ..b })
        }),
{
    let one = seq![e];
    assert(is_elem(one[0]));
    assert(one.skip(1) =~= Seq::<Elem>::empty());
    assert(elems_bytes(one.skip(1)) =~= Seq::<u8>::empty());
    assert(elems_bytes(one) =~= elem_bytes(e));
    lemma_step(before, one, rest);
    lemma_scan_ids(e);
    reveal(scanned_from);
}

/// What stands in a Segment before its first Cluster: elements, perhaps a SeekHead, more
/// elements, the Tracks, and more elements.
pub ghost struct Parts {
    pub first: Seq<Elem>,
    pub seekhead: Option<Seq<u8>>,
    pub second: Seq<Elem>,
    pub tracks: Seq<u8>,
    pub third: Seq<Elem>,
}

impl Parts {
    /// The SeekHead, if there is one.
    pub open spec fn seekhead_bytes(self) -> Seq<u8> {
        match self.seekhead {
            Some(p) => mkv_elem(seq![0x11u8, 0x4Du8, 0x9Bu8, 0x74u8], p),
            None => Seq::empty(),
        }
    }

    pub open spec fn tracks_bytes(self) -> Seq<u8> {
        mkv_elem(seq![0x16u8, 0x54u8, 0xAEu8, 0x6Bu8], self.tracks)
    }

    /// The parts one after the other, behind `head` and before `clusters`.
    #[verifier::opaque]
    pub open spec fn file(self, head: Seq<u8>, clusters: Seq<u8>) -> Seq<u8> {
        head + (elems_bytes(self.first) + (self.seekhead_bytes() + (elems_bytes(self.second) + (
        self.tracks_bytes() + (elems_bytes(self.third) + clusters)))))
    }

    pub open spec fn wf(self) -> bool {
        &&& are_plain(self.first)
        &&& are_plain(self.second)
        &&& are_plain(self.third)
        &&& self.seekhead matches Some(p) ==> p.len() < 0xFF_FFFF_FFFF_FFFF
        &&& self.tracks.len() < 0xFF_FFFF_FFFF_FFFF
    }
}

/// Whether `head` is the EBML header and the head of a Segment that does not end before
/// `body` does.
pub open spec fn heads_segment(ebml: Seq<u8>, segment: Seq<u8>, body: Seq<u8>) -> bool {
    &&& ebml.len() < 0xFF_FFFF_FFFF_FFFF
    &&& segment.len() > 0
    &&& head_at(segment + body) matches HeadRead::Head { id, size, len } && id == 0x18538067 && len
        == segment.len() && (size matches Some(s) ==> s >= body.len())
}

/// Where a scan finds the parts of a file behind `head`.
pub open spec fn parts_found(head: Seq<u8>, p: Parts) -> ScanModel {
    let x1 = head.len() as int + elems_bytes(p.first).len();
    let x2 = x1 + p.seekhead_bytes().len();
    let x3 = x2 + elems_bytes(p.second).len();
    let x4 = x3 + p.tracks_bytes().len();
    ScanModel {
        seekhead: if p.seekhead is Some {
            Some((x1, x2))
        } else {
            None
        },
        tracks: (x3, x4),
        cluster: x4 + elems_bytes(p.third).len(),
    }
}

/// A scan tells the parts of a file apart: it finds SeekHead, Tracks and the first Cluster
/// where they stand.
pub proof fn scan_finds_the_parts(ebml: Seq<u8>, segment: Seq<u8>, p: Parts, clusters: Seq<u8>)
    requires
        p.wf(),
        head_at(clusters) matches HeadRead::Head { id, size, len } && id == 0x1F43B675,
        heads_segment(ebml, segment, p.file(Seq::empty(), clusters)),
    ensures
        ({
            let head = mkv_elem(seq![0x1Au8, 0x45u8, 0xDFu8, 0xA3u8], ebml) + segment;
            scan_of(p.file(head, clusters)) == Ok::<ScanModel, Seq<char>>(parts_found(head, p))
        }),
{
    let e = Elem { id: seq![0x1Au8, 0x45u8, 0xDFu8, 0xA3u8], payload: ebml };
    let eb = elem_bytes(e);
    let head = eb + segment;
    let body = p.file(Seq::empty(), clusters);
    let c = p.file(head, clusters);
    lemma_file_split(eb, segment, p, clusters);
    let size = head_at(segment + body)->size;
    let end: Option<int> = match size {
        Some(s) => Some(head.len() + s),
        None => None,
    };
    assert(c.len() == head.len() + body.len());
    lemma_segment(head, p, clusters, end);
    let b0 = Bounds { seekhead: None, tracks: None, cluster: None };
    let r = scanned_from(c, head.len() as int, end, b0);
    lemma_scan(c, e, segment, body, size, r->Ok_0);
}

/// What a scan makes of the parts: what stands before the Tracks without the SeekHead, the
/// Tracks, and what stands between them and the first Cluster, each byte for byte.
pub proof fn found_parts_are_kept(head: Seq<u8>, p: Parts, clusters: Seq<u8>)
    ensures
        ({
            let c = p.file(head, clusters);
            let scan = parts_found(head, p);
            &&& scan.cluster == c.len() - clusters.len()
            &&& pre_of(c, scan) == Ok::<Seq<u8>, Seq<char>>(
                head + elems_bytes(p.first) + elems_bytes(p.second),
            )
            &&& range_of(c, scan.tracks.0, scan.tracks.1) == Ok::<Seq<u8>, Seq<char>>(
                p.tracks_bytes(),
            )
            &&& range_of(c, scan.tracks.1, scan.cluster) == Ok::<Seq<u8>, Seq<char>>(
                elems_bytes(p.third),
            )
        }),
{
    lemma_tracks_some(p.tracks);
    lemma_ranges(head, p, clusters);
}

/// A scan begins behind the two heads.
proof fn lemma_scan(
    c: Seq<u8>,
    e: Elem,
    segment: Seq<u8>,
    body: Seq<u8>,
    size: Option<u64>,
    b: Bounds,
)
    requires
        e.id == seq![0x1Au8, 0x45u8, 0xDFu8, 0xA3u8],
        e.payload.len() < 0xFF_FFFF_FFFF_FFFF,
        segment.len() > 0,
        c == elem_bytes(e) + (segment + body),
        head_at(segment + body) matches HeadRead::Head { id, size: s, len } && id == 0x18538067
            && len == segment.len() && s == size,
        scanned_from(
            c,
            (elem_bytes(e) + segment).len() as int,
            match size {
                Some(s) => Some((elem_bytes(e) + segment).len() + s),
                None => None,
            },
            Bounds { seekhead: None, tracks: None, cluster: None },
        ) == Ok::<Bounds, Seq<char>>(b),
        b.tracks is Some,
        b.cluster is Some,
    ensures
        scan_of(c) == Ok::<ScanModel, Seq<char>>(
            ScanModel { seekhead: b.seekhead, tracks: b.tracks->0, cluster: b.cluster->0 },
        ),
{
    let eb = elem_bytes(e);
    written_head_reads_back(e, segment + body);
    lemma_be_value_small(e.id);
    assert(tail(c, eb.len() as int) =~= segment + body);
    assert(skipped(c, (eb.len() - e.payload.len()) as int, e.payload.len() as int) == eb.len());
    reveal(scanned_from);
}

/// The parts of a file stand where the lengths before them add up to.
proof fn lemma_ranges(head: Seq<u8>, p: Parts, clusters: Seq<u8>)
    requires
        p.tracks_bytes().len() > 0,
    ensures
        ({
            let c = p.file(head, clusters);
            let x1 = head.len() + elems_bytes(p.first).len();
            let x2 = x1 + p.seekhead_bytes().len();
            let x3 = x2 + elems_bytes(p.second).len();
            let x4 = x3 + p.tracks_bytes().len();
            let x5 = x4 + elems_bytes(p.third).len();
            let scan = ScanModel {
                seekhead: if p.seekhead is Some {
                    Some((x1 as int, x2 as int))
                } else {
                    None
                },
                tracks: (x3 as int, x4 as int),
                cluster: x5 as int,
            };
            &&& c.len() == x5 + clusters.len()
            &&& pre_of(c, scan) == Ok::<Seq<u8>, Seq<char>>(
                head + elems_bytes(p.first) + elems_bytes(p.second),
            )
            &&& range_of(c, x3 as int, x4 as int) == Ok::<Seq<u8>, Seq<char>>(p.tracks_bytes())
            &&& range_of(c, x4 as int, x5 as int) == Ok::<Seq<u8>, Seq<char>>(
                elems_bytes(p.third),
            )
        }),
{
    reveal(Parts::file);
    let c = p.file(head, clusters);
    let s1 = elems_bytes(p.first);
    let s2 = p.seekhead_bytes();
    let s3 = elems_bytes(p.second);
    let s4 = p.tracks_bytes();
    let s5 = elems_bytes(p.third);
    let x1 = head.len() + s1.len();
    let x2 = x1 + s2.len();
    let x3 = x2 + s3.len();
    let x4 = x3 + s4.len();
    let x5 = x4 + s5.len();
    assert(c.subrange(x3 as int, x4 as int) =~= s4);
    assert(c.subrange(x4 as int, x5 as int) =~= s5);
    assert(c.subrange(0, x1 as int) =~= head + s1);
    assert(c.subrange(x2 as int, x3 as int) =~= s3);
    if x1 == 0 {
        assert(head + s1 =~= Seq::<u8>::empty());
    }
    if s3.len() == 0 {
        assert(s3 =~= Seq::<u8>::empty());
    }
    if s5.len() == 0 {
        assert(s5 =~= Seq::<u8>::empty());
    }
    assert(range_of(c, 0, x1 as int) == Ok::<Seq<u8>, Seq<char>>(head + s1));
    assert(range_of(c, x2 as int, x3 as int) == Ok::<Seq<u8>, Seq<char>>(s3));
    if p.seekhead is None {
        assert(c.subrange(0, x3 as int) =~= head + s1 + s3);
        if x3 == 0 {
            assert(head + s1 + s3 =~= Seq::<u8>::empty());
        }
    }
}

/// A file is its EBML header, and the Segment.
proof fn lemma_file_split(eb: Seq<u8>, segment: Seq<u8>, p: Parts, clusters: Seq<u8>)
    ensures
        p.file(eb + segment, clusters) == eb + (segment + p.file(Seq::empty(), clusters)),
{
    reveal(Parts::file);
    let x = elems_bytes(p.first) + (p.seekhead_bytes() + (elems_bytes(p.second) + (
    p.tracks_bytes() + (elems_bytes(p.third) + clusters))));
    assert(Seq::<u8>::empty() + x =~= x);
    lemma_join(eb, segment, x);
}

proof fn lemma_tracks_some(payload: Seq<u8>)
    ensures
        mkv_elem(seq![0x16u8, 0x54u8, 0xAEu8, 0x6Bu8], payload).len() > 0,
{
    lemma_mkv_elem_len(seq![0x16u8, 0x54u8, 0xAEu8, 0x6Bu8], payload);
}

proof fn lemma_segment(head: Seq<u8>, p: Parts, clusters: Seq<u8>, end: Option<int>)
    requires
        p.wf(),
        head_at(clusters) matches HeadRead::Head { id, size, len } && id == 0x1F43B675,
        reaches(end, p.file(head, clusters).len() as int),
    ensures
        ({
            let c = p.file(head, clusters);
            let x1 = head.len() + elems_bytes(p.first).len();
            let x2 = x1 + p.seekhead_bytes().len();
            let x3 = x2 + elems_bytes(p.second).len();
            let x4 = x3 + p.tracks_bytes().len();
            let x5 = x4 + elems_bytes(p.third).len();
            scanned_from(
                c,
                head.len() as int,
                end,
                Bounds { seekhead: None, tracks: None, cluster: None },
            ) == Ok::<Bounds, Seq<char>>(
                Bounds {
                    seekhead: if p.seekhead is Some {
                        Some((x1 as int, x2 as int))
                    } else {
                        None
                    },
                    tracks: Some((x3 as int, x4 as int)),
                    cluster: Some(x5 as int),
                },
            )
        }),
{
    reveal(Parts::file);
    let c = p.file(head, clusters);
    let s1 = elems_bytes(p.first);
    let s2 = p.seekhead_bytes();
    let s3 = elems_bytes(p.second);
    let s4 = p.tracks_bytes();
    let s5 = elems_bytes(p.third);
    let r4 = s5 + clusters;
    let r3 = s4 + r4;
    let r2 = s3 + r3;
    let r1 = s2 + r2;
    let h1 = head + s1;
    let h2 = h1 + s2;
    let h3 = h2 + s3;
    let h4 = h3 + s4;
    let h5 = h4 + s5;
    let b0 = Bounds { seekhead: None, tracks: None, cluster: None };
    let b1 = Bounds {
        seekhead: if p.seekhead is Some {
            Some((h1.len() as int, h2.len() as int))
        } else {
            None
        },
        ..b0
    };
    let b2 = Bounds { tracks: Some((h3.len() as int, h4.len() as int)), ..b1 };
    let z = head.len() as int;
    lemma_join(head, s1, r1);
    lemma_join(h1, s2, r2);
    lemma_join(h2, s3, r3);
    lemma_join(h3, s4, r4);
    lemma_join(h4, s5, clusters);
    assert(c == head + (s1 + r1));
    lemma_plain(head, p.first, r1, end, b0);
    assert(scanned_from(c, z, end, b0) == scanned_from(c, h1.len() as int, end, b0));
    if let Some(payload) = p.seekhead {
        let e = Elem { id: seq![0x11u8, 0x4Du8, 0x9Bu8, 0x74u8], payload };
        lemma_noted(h1, e, r2, end, b0);
    } else {
        assert(h2 =~= h1);
    }
    assert(scanned_from(c, z, end, b0) == scanned_from(c, h2.len() as int, end, b1));
    lemma_plain(h2, p.second, r3, end, b1);
    assert(scanned_from(c, z, end, b0) == scanned_from(c, h3.len() as int, end, b1));
    let t = Elem { id: seq![0x16u8, 0x54u8, 0xAEu8, 0x6Bu8], payload: p.tracks };
    lemma_noted(h3, t, r4, end, b1);
    assert(scanned_from(c, z, end, b0) == scanned_from(c, h4.len() as int, end, b2));
    lemma_plain(h4, p.third, clusters, end, b2);
    assert(scanned_from(c, z, end, b0) == scanned_from(c, h5.len() as int, end, b2));
    assert(c == h5 + clusters);
    lemma_at_cluster(h5, clusters, end, b2);
}

/// A scan ends at a Cluster.
proof fn lemma_at_cluster(before: Seq<u8>, clusters: Seq<u8>, end: Option<int>, b: Bounds)
    requires
        head_at(clusters) matches HeadRead::Head { id, size, len } && id == 0x1F43B675,
        reaches(end, (before + clusters).len() as int),
    ensures
        scanned_from(before + clusters, before.len() as int, end, b) == Ok::<Bounds, Seq<char>>(
            Bounds { cluster: Some(before.len() as int), ..b },
        ),
{
    let c = before + clusters;
    reveal(scanned_from);
    assert(tail(c, before.len() as int) =~= clusters);
    assert(clusters.len() > 0);
}

proof fn lemma_join(a: Seq<u8>, b: Seq<u8>, c: Seq<u8>)
    ensures
        a + (b + c) == (a + b) + c,
{
    assert(a + (b + c) =~= (a + b) + c);
}

/// What is collected of a scanned file are its parts: what stands before the Tracks, the
/// entries, what stands behind them, and the times of its clusters.
pub proof fn collected_files_have_their_parts(c: Seq<u8>, scan: ScanModel)
    ensures
        collected(c, scan) matches Ok(m) ==> {
            &&& pre_of(c, scan) == Ok::<Seq<u8>, Seq<char>>(m.pre_tracks_blob)
            &&& range_of(c, scan.tracks.1, scan.cluster) == Ok::<Seq<u8>, Seq<char>>(
                m.post_tracks_blob,
            )
            &&& range_of(c, scan.tracks.0, scan.tracks.1) matches Ok(body) && tracks_of(body)
                == Ok::<Seq<ParsedModel>, Seq<char>>(m.track_entries)
            &&& cluster_times(c, scan.cluster) == (m.cluster_timestamps, None::<Seq<char>>)
        },
{
}

} // verus!
