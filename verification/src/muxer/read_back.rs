//! What a reader of Matroska finds in the sections of the virtual file.
use crate::binstruct::CodecType;
use crate::bytes::{
    be_bytes, be_round_trip, be_value, concat_map, lemma_be_bytes_len, lemma_pow256_values,
};
use crate::muxer::ebml::{
    child_from, id_at_pos, lemma_child_bounds, lemma_mkv_elem_len, mkv_elem, mkv_uint,
    shortest_vint_round_trip, vint_at_pos, UNKNOWN_SIZE_8B,
};
use crate::muxer::layout::{
    block_bytes, cluster_header, i16_be, tracks_len, LayoutSection, SectionEntry, TrackModel,
};
use crate::muxer::plan::{
    chapters_id, cue_coder, cue_elem, cue_of, cues_id, entries_of, has_cue, info_id,
    lemma_sum_len_prefix, seek_elem, seekhead_elem, sum_len, total, tracks_id, Plan,
};
use crate::muxer::types::MuxerFault;
use crate::vfr::length_bytes;
use crate::vint::{
    lemma_pow128_values, lemma_vint_bytes_len, uint_bytes, uint_round_trip, uint_size, uint_value,
    vint_at, vint_bytes, vint_number, vint_size, vint_width, VintRead,
};
use vstd::prelude::*;

verus! {

/// The header of a cluster tells its time: the Cluster id, the unknown size, the Timestamp
/// id and the size 8 are followed by eight bytes that spell the time, and by nothing else.
pub proof fn cluster_header_tells_its_time(ts: u64)
    ensures
        cluster_header(ts).len() == 22,
        cluster_header(ts).take(14) == seq![
            0x1Fu8,
            0x43u8,
            0xB6u8,
            0x75u8,
            0x01u8,
            0xFFu8,
            0xFFu8,
            0xFFu8,
            0xFFu8,
            0xFFu8,
            0xFFu8,
            0xFFu8,
            0xE7u8,
            0x88u8,
        ],
        be_value(cluster_header(ts).subrange(14, 22)) == ts,
{
    let h = cluster_header(ts);
    lemma_pow128_values();
    lemma_pow256_values();
    lemma_vint_bytes_len(UNKNOWN_SIZE_8B, 8);
    lemma_vint_bytes_len(8, 1);
    lemma_be_bytes_len(ts as nat, 8);
    be_round_trip(ts as nat, 8);
    assert(h.subrange(14, 22) =~= be_bytes(ts as nat, 8));
    assert(vint_number(UNKNOWN_SIZE_8B, 8) == 0x01FF_FFFF_FFFF_FFFF);
    assert(vint_number(8, 1) == 0x88);
    assert(vint_bytes(UNKNOWN_SIZE_8B, 8) =~= seq![
        0x01u8,
        0xFFu8,
        0xFFu8,
        0xFFu8,
        0xFFu8,
        0xFFu8,
        0xFFu8,
        0xFFu8,
    ]) by {
        reveal_with_fuel(be_bytes, 9);
    }
    assert(length_bytes(8) =~= seq![0x88u8]) by {
        reveal_with_fuel(be_bytes, 2);
    }
    assert(h.take(14) =~= seq![
        0x1Fu8,
        0x43u8,
        0xB6u8,
        0x75u8,
        0x01u8,
        0xFFu8,
        0xFFu8,
        0xFFu8,
        0xFFu8,
        0xFFu8,
        0xFFu8,
        0xFFu8,
        0xE7u8,
        0x88u8,
    ]);
}

/// An element reads back, whatever follows it: its id, the length of its payload, and the
/// payload.
pub proof fn element_reads_back(id: Seq<u8>, payload: Seq<u8>, rest: Seq<u8>)
    requires
        payload.len() < 0x100_0000_0000_0000,
    ensures
        ({
            let e = mkv_elem(id, payload);
            let start = e.len() - payload.len();
            &&& e.take(id.len() as int) == id
            &&& vint_at((e + rest).skip(id.len() as int)) == VintRead::Value(
                payload.len() as u64,
                (start - id.len()) as usize,
            )
            &&& id.len() + 1 <= start <= id.len() + 8
            &&& e.subrange(start, e.len() as int) == payload
        }),
{
    reveal(mkv_elem);
    let e = mkv_elem(id, payload);
    let n = payload.len() as u64;
    shortest_vint_round_trip(n, payload + rest);
    let s = (e + rest).skip(id.len() as int);
    assert(s =~= length_bytes(n) + (payload + rest));
    assert(s.skip(0) =~= s);
    assert(e.take(id.len() as int) =~= id);
    assert(e.subrange(e.len() - payload.len(), e.len() as int) =~= payload);
}

/// A block tells what it was made from: after the SimpleBlock id and its length come the
/// track number as a VINT, the relative time in two bytes, a byte with the keyframe bit
/// alone or no bit, and the payload up to its end.
pub proof fn block_tells_its_frame(
    track_number: u64,
    relative_ts: int,
    keyframe: bool,
    payload: Seq<u8>,
    rest: Seq<u8>,
)
    requires
        track_number < 0x100_0000_0000_0000,
        -0x8000 <= relative_ts < 0x8000,
        payload.len() < 0x80_0000_0000_0000,
    ensures
        ({
            let b = block_bytes(track_number, relative_ts, keyframe, payload);
            let end = b.len() as int;
            &&& b[0] == 0xA3
            &&& vint_at((b + rest).skip(1)) matches VintRead::Value(len, a) && 1 + a + len == end
                && (vint_at((b + rest).skip(1 + a)) matches VintRead::Value(number, w) && {
                let at = 1 + a + w;
                &&& number == track_number
                &&& at + 3 + payload.len() == end
                &&& be_value(b.subrange(at, at + 2)) == if relative_ts < 0 {
                    relative_ts + 0x1_0000
                } else {
                    relative_ts
                }
                &&& b[at + 2] == if keyframe {
                    0x80u8
                } else {
                    0x00u8
                }
                &&& b.subrange(at + 3, end) == payload
            })
        }),
{
    let b = block_bytes(track_number, relative_ts, keyframe, payload);
    let content = block_content(track_number, relative_ts, keyframe, payload);
    lemma_block_content(track_number, relative_ts, keyframe, payload, rest);
    let id = seq![0xA3u8];
    element_reads_back(id, content, rest);
    let start = b.len() - content.len();
    let c = b.subrange(start, b.len() as int);
    assert(b[0] == b.take(1)[0]);
    assert((b + rest).skip(start) =~= c + rest);
    let w = vint_size(track_number) as int;
    assert(b.subrange(start + w, start + w + 2) =~= c.subrange(w, w + 2));
    assert(b.subrange(start + w + 3, b.len() as int) =~= c.skip(w + 3));
    assert(b[start + w + 2] == c[w + 2]);
}

/// What a block element holds.
spec fn block_content(
    track_number: u64,
    relative_ts: int,
    keyframe: bool,
    payload: Seq<u8>,
) -> Seq<u8> {
    length_bytes(track_number) + i16_be(relative_ts) + seq![
        if keyframe {
            0x80u8
        } else {
            0x00u8
        },
    ] + payload
}

proof fn lemma_block_content(
    track_number: u64,
    relative_ts: int,
    keyframe: bool,
    payload: Seq<u8>,
    rest: Seq<u8>,
)
    requires
        track_number < 0x100_0000_0000_0000,
        -0x8000 <= relative_ts < 0x8000,
    ensures
        ({
            let c = block_content(track_number, relative_ts, keyframe, payload);
            let w = vint_size(track_number) as int;
            &&& c.len() == w + 3 + payload.len()
            &&& vint_at(c + rest) == VintRead::Value(track_number, w as usize)
            &&& be_value(c.subrange(w, w + 2)) == if relative_ts < 0 {
                relative_ts + 0x1_0000
            } else {
                relative_ts
            }
            &&& c[w + 2] == if keyframe {
                0x80u8
            } else {
                0x00u8
            }
            &&& c.skip(w + 3) == payload
        }),
{
    let p = if relative_ts < 0 {
        (relative_ts + 0x1_0000) as nat
    } else {
        relative_ts as nat
    };
    let flag = if keyframe {
        0x80u8
    } else {
        0x00u8
    };
    let number = length_bytes(track_number);
    let c = block_content(track_number, relative_ts, keyframe, payload);
    let w = vint_size(track_number) as int;
    lemma_be_bytes_len(p, 2);
    lemma_pow256_values();
    be_round_trip(p, 2);
    let after = i16_be(relative_ts) + seq![flag] + payload + rest;
    shortest_vint_round_trip(track_number, after);
    assert(c + rest =~= number + after);
    assert((c + rest).skip(0) =~= c + rest);
    assert(c.subrange(w, w + 2) =~= i16_be(relative_ts));
    assert(c.skip(w + 3) =~= payload);
}

/// A found place, `by` bytes further on.
spec fn shifted(r: Result<Option<(int, int)>, MuxerFault>, by: int) -> Result<
    Option<(int, int)>,
    MuxerFault,
> {
    match r {
        Ok(Some(p)) => Ok(Some((p.0 + by, p.1))),
        other => other,
    }
}

/// What is found behind `a` is what is found in `b` alone.
proof fn lemma_child_shift(a: Seq<u8>, b: Seq<u8>, id: Seq<u8>, pos: int)
    requires
        0 <= pos,
    ensures
        child_from(a + b, id, a.len() + pos) == shifted(child_from(b, id, pos), a.len() as int),
    decreases b.len() - pos,
{
    let w = a + b;
    let p = a.len() + pos;
    if pos < b.len() {
        assert(w[p] == b[pos]);
        assert(id_at_pos(w, p) == id_at_pos(b, pos));
        if let Ok(idn) = id_at_pos(b, pos) {
            assert(w.skip(p + idn) =~= b.skip(pos + idn));
            assert(w.subrange(p, p + idn) =~= b.subrange(pos, pos + idn));
            if let Ok((size, sn)) = vint_at_pos(b, pos + idn) {
                let end = pos + idn + sn + size;
                if end <= b.len() && end > pos {
                    lemma_child_shift(a, b, id, end);
                }
            }
        }
    }
}

/// The payload of the first child with this id, if there is one.
pub open spec fn child_payload(data: Seq<u8>, id: Seq<u8>) -> Option<Seq<u8>> {
    match child_from(data, id, 0) {
        Ok(Some((start, len))) => Some(data.subrange(start, start + len)),
        _ => None,
    }
}

/// The number that the first child with this id holds, if there is one.
pub open spec fn child_number(data: Seq<u8>, id: Seq<u8>) -> Option<u64> {
    match child_payload(data, id) {
        Some(p) => Some(uint_value(p)),
        None => None,
    }
}

/// Whether a byte string has the length that its first byte announces for an element id.
pub open spec fn is_id(id: Seq<u8>) -> bool {
    1 <= id.len() <= 4 && vint_width(id[0]) == id.len()
}

/// An element is found by its id, and stands before what follows it.
pub proof fn lemma_child_of_elem(id: Seq<u8>, payload: Seq<u8>, rest: Seq<u8>, wanted: Seq<u8>)
    requires
        is_id(id),
        payload.len() < 0x100_0000_0000_0000,
    ensures
        child_payload(mkv_elem(id, payload) + rest, wanted) == if wanted == id {
            Some(payload)
        } else {
            child_payload(rest, wanted)
        },
{
    let e = mkv_elem(id, payload);
    let w = e + rest;
    element_reads_back(id, payload, rest);
    let start = e.len() - payload.len();
    assert(w[0] == e.take(id.len() as int)[0]);
    assert(w.subrange(0, id.len() as int) =~= e.take(id.len() as int));
    if wanted == id {
        assert(w.subrange(start, e.len() as int) =~= e.subrange(start, e.len() as int));
    } else {
        lemma_child_shift(e, rest, wanted, 0);
        if let Ok(Some((a, n))) = child_from(rest, wanted, 0) {
            lemma_child_bounds(rest, wanted, 0);
            assert(w.subrange(e.len() + a, e.len() + a + n) =~= rest.subrange(a, a + n));
        }
    }
}

/// A CuePoint tells the time of its frame, the number of its track, and where its cluster
/// starts, each under the id that Matroska gives it.
pub proof fn cue_point_reads_back(time: u64, track_number: u64, cluster_offset: u64)
    ensures
        child_payload(cue_elem(time, track_number, cluster_offset), seq![0xBBu8]) matches Some(
            point,
        ) && child_number(point, seq![0xB3u8]) == Some(time) && (child_payload(
            point,
            seq![0xB7u8],
        ) matches Some(positions) && child_number(positions, seq![0xF7u8]) == Some(track_number)
            && child_number(positions, seq![0xF1u8]) == Some(cluster_offset)),
{
    lemma_cue_point(time, track_number, cluster_offset, Seq::empty());
    let c = cue_elem(time, track_number, cluster_offset);
    assert(c + Seq::<u8>::empty() =~= c);
}

/// The same with other points behind it.
proof fn lemma_cue_point(time: u64, track_number: u64, cluster_offset: u64, rest: Seq<u8>)
    ensures
        child_payload(cue_elem(time, track_number, cluster_offset) + rest, seq![0xBBu8]) matches Some(
            point,
        ) && child_number(point, seq![0xB3u8]) == Some(time) && (child_payload(
            point,
            seq![0xB7u8],
        ) matches Some(positions) && child_number(positions, seq![0xF7u8]) == Some(track_number)
            && child_number(positions, seq![0xF1u8]) == Some(cluster_offset)),
{
    let nil = Seq::<u8>::empty();
    let bb = seq![0xBBu8];
    let b3 = seq![0xB3u8];
    let b7 = seq![0xB7u8];
    let f7 = seq![0xF7u8];
    let f1 = seq![0xF1u8];
    lemma_be_bytes_len(time as nat, uint_size(time));
    lemma_be_bytes_len(track_number as nat, uint_size(track_number));
    lemma_be_bytes_len(cluster_offset as nat, uint_size(cluster_offset));
    uint_round_trip(time);
    uint_round_trip(track_number);
    uint_round_trip(cluster_offset);
    let positions = mkv_uint(f7, track_number) + mkv_uint(f1, cluster_offset);
    lemma_mkv_elem_len(f7, uint_bytes(track_number));
    lemma_mkv_elem_len(f1, uint_bytes(cluster_offset));
    lemma_mkv_elem_len(b3, uint_bytes(time));
    lemma_mkv_elem_len(b7, positions);
    lemma_child_of_elem(f7, uint_bytes(track_number), mkv_uint(f1, cluster_offset), f7);
    lemma_child_of_elem(f7, uint_bytes(track_number), mkv_uint(f1, cluster_offset), f1);
    assert(f7[0] != f1[0]);
    lemma_child_of_elem(f1, uint_bytes(cluster_offset), nil, f1);
    assert(mkv_uint(f1, cluster_offset) + nil =~= mkv_uint(f1, cluster_offset));
    let point = mkv_uint(b3, time) + mkv_elem(b7, positions);
    lemma_child_of_elem(b3, uint_bytes(time), mkv_elem(b7, positions), b3);
    lemma_child_of_elem(b3, uint_bytes(time), mkv_elem(b7, positions), b7);
    assert(b3[0] != b7[0]);
    lemma_child_of_elem(b7, positions, nil, b7);
    assert(mkv_elem(b7, positions) + nil =~= mkv_elem(b7, positions));
    lemma_child_of_elem(bb, point, rest, bb);
}

/// A Seek element tells which element stands where.
pub proof fn seek_reads_back(id: Seq<u8>, pos: u64, rest: Seq<u8>)
    requires
        id.len() == 4,
    ensures
        child_payload(seek_elem(id, pos) + rest, seq![0x4Du8, 0xBBu8]) matches Some(seek)
            && child_payload(seek, seq![0x53u8, 0xABu8]) == Some(id) && child_number(
            seek,
            seq![0x53u8, 0xACu8],
        ) == Some(pos),
{
    let nil = Seq::<u8>::empty();
    let head = seq![0x4Du8, 0xBBu8];
    let ab = seq![0x53u8, 0xABu8];
    let ac = seq![0x53u8, 0xACu8];
    lemma_be_bytes_len(pos as nat, uint_size(pos));
    uint_round_trip(pos);
    let what = mkv_elem(ab, id);
    let place = mkv_uint(ac, pos);
    lemma_mkv_elem_len(ab, id);
    lemma_mkv_elem_len(ac, uint_bytes(pos));
    assert(ab[1] != ac[1]);
    lemma_child_of_elem(ab, id, place, ab);
    lemma_child_of_elem(ab, id, place, ac);
    lemma_child_of_elem(ac, uint_bytes(pos), nil, ac);
    assert(place + nil =~= place);
    lemma_child_of_elem(head, what + place, rest, head);
}

/// The payloads of all children with this id, in order.
pub open spec fn all_children(data: Seq<u8>, id: Seq<u8>) -> Seq<Seq<u8>>
    decreases data.len(),
{
    match child_from(data, id, 0) {
        Ok(Some((start, len))) => if 0 < start + len <= data.len() {
            seq![data.subrange(start, start + len)] + all_children(data.skip(start + len), id)
        } else {
            Seq::empty()
        },
        _ => Seq::empty(),
    }
}

/// An element with the id comes before those behind it.
proof fn lemma_all_children(id: Seq<u8>, payload: Seq<u8>, rest: Seq<u8>)
    requires
        is_id(id),
        payload.len() < 0x100_0000_0000_0000,
    ensures
        all_children(mkv_elem(id, payload) + rest, id) == seq![payload] + all_children(rest, id),
{
    let e = mkv_elem(id, payload);
    let w = e + rest;
    element_reads_back(id, payload, rest);
    let start = e.len() - payload.len();
    assert(w[0] == e.take(id.len() as int)[0]);
    assert(w.subrange(0, id.len() as int) =~= e.take(id.len() as int));
    assert(w.subrange(start, e.len() as int) =~= e.subrange(start, e.len() as int));
    assert(w.skip(e.len() as int) =~= rest);
    assert(child_from(w, id, 0) == Ok::<Option<(int, int)>, MuxerFault>(
        Some((start, payload.len() as int)),
    ));
}

/// What a Seek element tells: the id of an element, and where it stands.
pub open spec fn seek_told(seek: Seq<u8>) -> (Option<Seq<u8>>, Option<u64>) {
    (child_payload(seek, seq![0x53u8, 0xABu8]), child_number(seek, seq![0x53u8, 0xACu8]))
}

/// What a SeekHead element tells, entry by entry.
pub open spec fn seekhead_told(data: Seq<u8>) -> Seq<(Option<Seq<u8>>, Option<u64>)> {
    match child_payload(data, seq![0x11u8, 0x4Du8, 0x9Bu8, 0x74u8]) {
        None => Seq::empty(),
        Some(content) => {
            let seeks = all_children(content, seq![0x4Du8, 0xBBu8]);
            Seq::new(seeks.len(), |i: int| seek_told(seeks[i]))
        },
    }
}

/// The SeekHead tells where Info, Tracks and Cues stand and, where something follows the
/// Tracks, where that does.
pub proof fn seekhead_reads_back(
    info_offset: u64,
    pre_size: u64,
    post_offset: u64,
    has_post: bool,
    cues_offset: u64,
)
    ensures
        ({
            let told = seekhead_told(
                seekhead_elem(info_offset, pre_size, post_offset, has_post, cues_offset),
            );
            &&& told.len() == if has_post {
                4nat
            } else {
                3nat
            }
            &&& told[0] == (Some(seq![0x15u8, 0x49u8, 0xA9u8, 0x66u8]), Some(info_offset))
            &&& told[1] == (Some(seq![0x16u8, 0x54u8, 0xAEu8, 0x6Bu8]), Some(pre_size))
            &&& told[2] == (Some(seq![0x1Cu8, 0x53u8, 0xBBu8, 0x6Bu8]), Some(cues_offset))
            &&& has_post ==> told[3] == (
                Some(seq![0x10u8, 0x43u8, 0xA7u8, 0x70u8]),
                Some(post_offset),
            )
        }),
{
    let nil = Seq::<u8>::empty();
    let id = seq![0x4Du8, 0xBBu8];
    let outer = seq![0x11u8, 0x4Du8, 0x9Bu8, 0x74u8];
    let a = seek_elem(info_id(), info_offset);
    let b = seek_elem(tracks_id(), pre_size);
    let c = seek_elem(cues_id(), cues_offset);
    let d = if has_post {
        seek_elem(chapters_id(), post_offset)
    } else {
        nil
    };
    let content = a + b + c + d;
    assert(content =~= a + (b + (c + d)));
    lemma_seek_row(b, c, d, info_offset, pre_size, cues_offset);
    let seeks = all_children(content, id);
    let last = all_children(d, id);
    assert(last.len() == (if has_post {
        1nat
    } else {
        0nat
    }) && (has_post ==> seek_told(last[0]) == (Some(chapters_id()), Some(post_offset)))
        && d.len() <= 64) by {
        assert(all_children(nil, id) =~= Seq::<Seq<u8>>::empty());
        if has_post {
            lemma_seek_listed(chapters_id(), post_offset, nil);
            assert(d + nil =~= d);
        }
    }
    assert(seeks.skip(3)[0] == last[0] || !has_post);
    assert(has_post ==> seeks[3] == seeks.skip(3)[0]);
    lemma_child_of_elem(outer, content, nil, outer);
    assert(mkv_elem(outer, content) + nil =~= mkv_elem(outer, content));
}

/// The first three entries of a SeekHead, before those in `d`.
proof fn lemma_seek_row(
    b: Seq<u8>,
    c: Seq<u8>,
    d: Seq<u8>,
    info_offset: u64,
    pre_size: u64,
    cues_offset: u64,
)
    requires
        b == seek_elem(tracks_id(), pre_size),
        c == seek_elem(cues_id(), cues_offset),
    ensures
        ({
            let a = seek_elem(info_id(), info_offset);
            let id = seq![0x4Du8, 0xBBu8];
            let seeks = all_children(a + (b + (c + d)), id);
            &&& a.len() + b.len() + c.len() <= 192
            &&& seeks.len() == 3 + all_children(d, id).len()
            &&& seeks.skip(3) == all_children(d, id)
            &&& seek_told(seeks[0]) == (Some(info_id()), Some(info_offset))
            &&& seek_told(seeks[1]) == (Some(tracks_id()), Some(pre_size))
            &&& seek_told(seeks[2]) == (Some(cues_id()), Some(cues_offset))
        }),
{
    let a = seek_elem(info_id(), info_offset);
    let id = seq![0x4Du8, 0xBBu8];
    lemma_seek_listed(info_id(), info_offset, b + (c + d));
    lemma_seek_listed(tracks_id(), pre_size, c + d);
    lemma_seek_listed(cues_id(), cues_offset, d);
    let s0 = all_children(a + (b + (c + d)), id);
    let s1 = all_children(b + (c + d), id);
    let s2 = all_children(c + d, id);
    let s3 = all_children(d, id);
    assert(s0[1] == s0.skip(1)[0]);
    assert(s0[2] == s0.skip(1)[1]);
    assert(s1[1] == s1.skip(1)[0]);
    assert(s0.skip(3) =~= s0.skip(1).skip(1).skip(1));
}

/// A Seek element is listed with what it tells, before those behind it.
proof fn lemma_seek_listed(id: Seq<u8>, pos: u64, rest: Seq<u8>)
    requires
        id.len() == 4,
    ensures
        ({
            let seeks = all_children(seek_elem(id, pos) + rest, seq![0x4Du8, 0xBBu8]);
            &&& seek_elem(id, pos).len() <= 64
            &&& seeks.len() == 1 + all_children(rest, seq![0x4Du8, 0xBBu8]).len()
            &&& seeks.skip(1) == all_children(rest, seq![0x4Du8, 0xBBu8])
            &&& seek_told(seeks[0]) == (Some(id), Some(pos))
        }),
{
    let ab = seq![0x53u8, 0xABu8];
    let ac = seq![0x53u8, 0xACu8];
    let head = seq![0x4Du8, 0xBBu8];
    let content = mkv_elem(ab, id) + mkv_uint(ac, pos);
    lemma_be_bytes_len(pos as nat, uint_size(pos));
    lemma_mkv_elem_len(ab, id);
    lemma_mkv_elem_len(ac, uint_bytes(pos));
    lemma_mkv_elem_len(head, content);
    seek_reads_back(id, pos, rest);
    lemma_all_children(head, content, rest);
    lemma_child_of_elem(head, content, rest, head);
    let seeks = all_children(seek_elem(id, pos) + rest, head);
    assert(seeks.skip(1) =~= all_children(rest, head));
    assert(seeks[0] == content);
}

/// What a CuePoint tells: a time, a track, and where a cluster starts.
pub open spec fn cue_told(point: Seq<u8>) -> (Option<u64>, Option<u64>, Option<u64>) {
    match child_payload(point, seq![0xB7u8]) {
        None => (child_number(point, seq![0xB3u8]), None, None),
        Some(positions) => (
            child_number(point, seq![0xB3u8]),
            child_number(positions, seq![0xF7u8]),
            child_number(positions, seq![0xF1u8]),
        ),
    }
}

/// What a list of CuePoints tells.
pub open spec fn points_told(content: Seq<u8>) -> Seq<(Option<u64>, Option<u64>, Option<u64>)> {
    let points = all_children(content, seq![0xBBu8]);
    Seq::new(points.len(), |i: int| cue_told(points[i]))
}

/// What a Cues element tells, point by point.
pub open spec fn cues_told(data: Seq<u8>) -> Seq<(Option<u64>, Option<u64>, Option<u64>)> {
    match child_payload(data, seq![0x1Cu8, 0x53u8, 0xBBu8, 0x6Bu8]) {
        None => Seq::empty(),
        Some(content) => points_told(content),
    }
}

/// The video keyframes among sections, in order: when each starts, the number of its track,
/// and where its cluster starts.
pub open spec fn keyframes_of(
    sections: Seq<SectionEntry>,
    models: Map<u32, TrackModel>,
    offsets: Seq<u64>,
) -> Seq<(Option<u64>, Option<u64>, Option<u64>)>
    decreases sections.len(),
{
    if sections.len() == 0 {
        Seq::empty()
    } else {
        let rest = keyframes_of(sections.skip(1), models, offsets);
        match sections[0].section {
            LayoutSection::SimpleBlock { cluster_index, track_id, frame_index, payload_size } => {
                let m = models[track_id];
                if models.contains_key(track_id) && m.codec_type == CodecType::Video && (
                m.index matches Some(x) && x.frames[frame_index as int].flags % 2 == 1) {
                    seq![
                        (
                            Some(m.time_of(frame_index)),
                            Some(m.track_number),
                            Some(offsets[cluster_index as int]),
                        ),
                    ] + rest
                } else {
                    rest
                }
            },
            _ => rest,
        }
    }
}

/// The Cues tell of each video keyframe, and of nothing else, in the order of the file: its
/// time, its track, and where its cluster starts.
pub proof fn cues_tell_the_keyframes(plan: Plan)
    requires
        plan.cues().len() < 0x100_0000_0000_0000,
    ensures
        cues_told(plan.cues()) == keyframes_of(
            entries_of(plan.body(), 0),
            plan.models,
            plan.cluster_offsets(),
        ),
{
    let sections = entries_of(plan.body(), 0);
    let f = cue_coder(plan.models, plan.cluster_offsets());
    let content = concat_map(sections, f);
    let id = seq![0x1Cu8, 0x53u8, 0xBBu8, 0x6Bu8];
    let nil = Seq::<u8>::empty();
    lemma_mkv_elem_len(id, content);
    lemma_child_of_elem(id, content, nil, id);
    assert(mkv_elem(id, content) + nil =~= mkv_elem(id, content));
    lemma_points(sections, plan.models, plan.cluster_offsets());
}

proof fn lemma_points(
    sections: Seq<SectionEntry>,
    models: Map<u32, TrackModel>,
    offsets: Seq<u64>,
)
    ensures
        points_told(concat_map(sections, cue_coder(models, offsets))) == keyframes_of(
            sections,
            models,
            offsets,
        ),
    decreases sections.len(),
{
    let f = cue_coder(models, offsets);
    let all = concat_map(sections, f);
    if sections.len() == 0 {
        assert(points_told(all) =~= keyframes_of(sections, models, offsets));
    } else {
        let rest = concat_map(sections.skip(1), f);
        let s = sections[0].section;
        lemma_points(sections.skip(1), models, offsets);
        assert(all == f(sections[0]) + rest);
        assert(f(sections[0]) == cue_of(models, offsets, s));
        if has_cue(models, s) {
            if let LayoutSection::SimpleBlock {
                cluster_index,
                track_id,
                frame_index,
                payload_size,
            } = s {
                let m = models[track_id];
                let flags = m.index->0.frames[frame_index as int].flags;
                assert((flags & 0x01 != 0) == (flags % 2 == 1)) by (bit_vector);
                lemma_point_listed(
                    m.time_of(frame_index),
                    m.track_number,
                    offsets[cluster_index as int],
                    rest,
                );
                assert(points_told(all) =~= keyframes_of(sections, models, offsets));
            }
        } else {
            assert(all =~= rest);
            if let LayoutSection::SimpleBlock {
                cluster_index,
                track_id,
                frame_index,
                payload_size,
            } = s {
                let flags = models[track_id].index->0.frames[frame_index as int].flags;
                assert((flags & 0x01 != 0) == (flags % 2 == 1)) by (bit_vector);
            }
        }
    }
}

/// A CuePoint is listed with what it tells, before those behind it.
proof fn lemma_point_listed(time: u64, track_number: u64, cluster_offset: u64, rest: Seq<u8>)
    ensures
        ({
            let points = points_told(cue_elem(time, track_number, cluster_offset) + rest);
            points == seq![(Some(time), Some(track_number), Some(cluster_offset))] + points_told(
                rest,
            )
        }),
{
    let bb = seq![0xBBu8];
    let b3 = seq![0xB3u8];
    let b7 = seq![0xB7u8];
    let f7 = seq![0xF7u8];
    let f1 = seq![0xF1u8];
    lemma_be_bytes_len(time as nat, uint_size(time));
    lemma_be_bytes_len(track_number as nat, uint_size(track_number));
    lemma_be_bytes_len(cluster_offset as nat, uint_size(cluster_offset));
    let positions = mkv_uint(f7, track_number) + mkv_uint(f1, cluster_offset);
    lemma_mkv_elem_len(f7, uint_bytes(track_number));
    lemma_mkv_elem_len(f1, uint_bytes(cluster_offset));
    lemma_mkv_elem_len(b3, uint_bytes(time));
    lemma_mkv_elem_len(b7, positions);
    let point = mkv_uint(b3, time) + mkv_elem(b7, positions);
    lemma_cue_point(time, track_number, cluster_offset, rest);
    lemma_child_of_elem(bb, point, rest, bb);
    lemma_all_children(bb, point, rest);
    let points = points_told(cue_elem(time, track_number, cluster_offset) + rest);
    assert(points =~= seq![(Some(time), Some(track_number), Some(cluster_offset))] + points_told(
        rest,
    ));
}

/// The entries of the SeekHead of a virtual file lead to the sections of the file: the
/// Tracks element, the Cues and, where there is one, what follows the Tracks.
pub proof fn seekhead_leads_to_the_sections(plan: Plan)
    requires
        total(plan.pieces()) <= u64::MAX,
    ensures
        ({
            let told = seekhead_told(plan.seekhead());
            let p = plan.pieces();
            let n = p.len();
            &&& told.len() >= 3
            &&& told[1] == (
                Some(seq![0x16u8, 0x54u8, 0xAEu8, 0x6Bu8]),
                Some(sum_len(p, 1) as u64),
            )
            &&& p[1].section is TracksElement
            &&& told[2] == (
                Some(seq![0x1Cu8, 0x53u8, 0xBBu8, 0x6Bu8]),
                Some(sum_len(p, (n - 2) as nat) as u64),
            )
            &&& p[n - 2].section is Cues
            &&& p[2].section is PostTracksBlob
            &&& (told.len() == 4) == (p[2].len > 0)
            &&& p[2].len > 0 ==> told[3] == (
                Some(seq![0x10u8, 0x43u8, 0xA7u8, 0x70u8]),
                Some(sum_len(p, 2) as u64),
            )
        }),
{
    reveal(Plan::pieces);
    let p = plan.pieces();
    let body = plan.body();
    let skeleton = plan.source.mkv_skeleton;
    let pre = skeleton.pre_tracks_blob.len();
    let tracks = tracks_len(skeleton.track_entries, plan.filter);
    reveal_with_fuel(sum_len, 3);
    lemma_sum_len_prefix(p, body, body.len());
    assert(p[0] == plan.head()[0] && p[1] == plan.head()[1] && p[2] == plan.head()[2]);
    seekhead_reads_back(
        0,
        pre as u64,
        (pre + tracks) as u64,
        skeleton.post_tracks_blob.len() > 0,
        total(body) as u64,
    );
}

} // verus!
