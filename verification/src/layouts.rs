//! Where numbers stand in frame indexes, and how variable-length numbers are spelled.
use crate::bytes::{
    be_round_trip, be_value, concat_map, i16_pattern, le_bytes, le_round_trip, le_value,
    lemma_be_bytes_len, lemma_le_bytes_len, lemma_pow256_values, pow256,
};
use crate::muxer::vfr_index::{nals_before, IndexModel};
use crate::parsers::common::{
    lengths_of, record_of, records_of, vfr_of, written_offset, written_vfr, FrameModel,
};
use crate::vfr::{
    end_of_data, frame_at, frame_bytes, frame_coder, frames_from, has_table, length_bytes,
    length_coder, table_offset, vfr_bytes, vfr_header, vfr_layout, vfr_parse, FrameRecord,
    VfrFault, VfrModel,
};
use crate::vint::{
    lemma_be_first, lemma_pow128_values, pow128, uint_bytes, uint_size, vint_bytes, vint_size,
};
use vstd::prelude::*;

verus! {

/// A VINT of `n` bytes spells its value with the marker bit above it.
pub proof fn vint_spells_value_and_marker(value: u64, n: nat)
    requires
        1 <= n <= 8,
        value < pow128(n),
    ensures
        vint_bytes(value, n).len() == n,
        be_value(vint_bytes(value, n)) == value + pow128(n),
        pow128(1) == 0x80,
        n < 8 ==> pow128(n + 1) == 128 * pow128(n),
{
    lemma_pow128_values();
    lemma_pow256_values();
    let v = (value + pow128(n)) as nat;
    lemma_be_bytes_len(v, n);
    be_round_trip(v, n);
}

/// The shortest VINT has room for its value and for the pattern of all ones, which stands for
/// an unknown size, and no shorter one has.
pub proof fn shortest_vint_is_the_shortest(value: u64)
    requires
        value < 0xFF_FFFF_FFFF_FFFF,
    ensures
        ({
            let n = length_bytes(value).len();
            &&& 1 <= n <= 8
            &&& value < pow128(n) - 1
            &&& n > 1 ==> value >= pow128((n - 1) as nat) - 1
            &&& be_value(length_bytes(value)) == value + pow128(n)
        }),
{
    lemma_pow128_values();
    vint_spells_value_and_marker(value, vint_size(value));
}

/// A number in minimal form spells the number, without a zero in front but for zero itself.
pub proof fn minimal_number_has_no_leading_zero(value: u64)
    ensures
        be_value(uint_bytes(value)) == value,
        1 <= uint_bytes(value).len() <= 8,
        value > 0 ==> uint_bytes(value)[0] != 0,
        value == 0 ==> uint_bytes(value) == seq![0u8],
{
    let n = uint_size(value);
    lemma_pow256_values();
    lemma_be_bytes_len(value as nat, n);
    be_round_trip(value as nat, n);
    lemma_be_first(value as nat, n);
    if value == 0 {
        assert(uint_bytes(value) =~= seq![0u8]);
    } else {
        let p = pow256((n - 1) as nat);
        assert(value as nat / p > 0) by (nonlinear_arith)
            requires
                value >= p,
                p > 0,
        ;
    }
}

/// The places of the values of a frame record.
pub open spec fn record_stands_at(d: Seq<u8>, at: int, f: FrameRecord) -> bool {
    &&& at + 8 <= d.len()
    &&& le_value(d.subrange(at, at + 4)) == f.frame_size
    &&& d[at + 4] == f.flags
    &&& d[at + 5] == f.nal_count
    &&& le_value(d.subrange(at + 6, at + 8)) == if f.duration_delta < 0 {
        f.duration_delta + 0x1_0000
    } else {
        f.duration_delta as int
    }
}

proof fn lemma_record(f: FrameRecord)
    ensures
        frame_bytes(f).len() == 8,
        record_stands_at(frame_bytes(f), 0, f),
{
    let d = frame_bytes(f);
    lemma_pow256_values();
    lemma_le_bytes_len(f.frame_size as nat, 4);
    lemma_le_bytes_len(i16_pattern(f.duration_delta), 2);
    le_round_trip(f.frame_size as nat, 4);
    le_round_trip(i16_pattern(f.duration_delta), 2);
    assert(d.subrange(0, 4) =~= le_bytes(f.frame_size as nat, 4));
    assert(d.subrange(6, 8) =~= le_bytes(i16_pattern(f.duration_delta), 2));
}

proof fn lemma_records(frames: Seq<FrameRecord>, i: int)
    requires
        0 <= i < frames.len(),
    ensures
        concat_map(frames, frame_coder()).len() == 8 * frames.len(),
        concat_map(frames, frame_coder()).subrange(8 * i, 8 * i + 8) == frame_bytes(frames[i]),
    decreases frames.len(),
{
    let f = frame_coder();
    let all = concat_map(frames, f);
    let rest = concat_map(frames.skip(1), f);
    lemma_record(frames[0]);
    assert(all == frame_bytes(frames[0]) + rest);
    if frames.len() > 1 {
        let k: int = if i == 0 {
            0
        } else {
            i - 1
        };
        lemma_records(frames.skip(1), k);
        if i > 0 {
            assert(frames.skip(1)[i - 1] == frames[i]);
            assert(all.subrange(8 * i, 8 * i + 8) =~= rest.subrange(8 * k, 8 * k + 8));
        }
    } else {
        assert(rest =~= Seq::<u8>::empty());
    }
    if i == 0 {
        assert(all.subrange(0, 8) =~= frame_bytes(frames[0]));
    }
}

/// Whether the values of a frame index stand in their places: `VFRF`, version and flags, two
/// zeros, the number of frames and the place of the NAL lengths; then the records of eight
/// bytes each, and the lengths.
pub open spec fn index_stands(d: Seq<u8>, m: VfrModel, offset: nat) -> bool {
    let n = m.frames.len();
    &&& d.len() >= 24 + 8 * n
    &&& d.take(4) == seq![0x56u8, 0x46u8, 0x52u8, 0x46u8]
    &&& d[4] == m.version
    &&& d[5] == m.flags
    &&& d[6] == 0 && d[7] == 0
    &&& le_value(d.subrange(8, 16)) == n
    &&& le_value(d.subrange(16, 24)) == offset
    &&& forall|i: int| 0 <= i < n ==> record_stands_at(d, 24 + 8 * i, #[trigger] m.frames[i])
    &&& d.skip((24 + 8 * n) as int) == if m.flags % 2 == 1 {
        concat_map(m.nal_lengths, length_coder())
    } else {
        Seq::empty()
    }
}

/// The values of a frame index stand in their places. The place of the NAL lengths is right
/// behind the records, or zero where there are none.
pub proof fn index_values_stand_in_their_places(m: VfrModel)
    requires
        24 + 8 * m.frames.len() <= u64::MAX,
    ensures
        index_stands(
            vfr_bytes(m),
            m,
            if m.flags % 2 == 1 && m.nal_lengths.len() > 0 {
                24 + 8 * m.frames.len()
            } else {
                0
            },
        ),
{
    let flags = m.flags;
    assert((flags & 0x01 != 0) == (flags % 2 == 1)) by (bit_vector);
    lemma_index(m, table_offset(m));
}

/// So do those that an indexer writes; with NAL lengths, their place is right behind the
/// records.
pub proof fn written_index_values_stand_in_their_places(
    frames: Seq<FrameModel>,
    has_nal_lengths: bool,
)
    requires
        24 + 8 * frames.len() <= u64::MAX,
    ensures
        index_stands(
            written_vfr(frames, has_nal_lengths),
            vfr_of(frames, has_nal_lengths),
            if has_nal_lengths {
                24 + 8 * frames.len()
            } else {
                0
            },
        ),
{
    lemma_index(vfr_of(frames, has_nal_lengths), written_offset(frames, has_nal_lengths));
}

proof fn lemma_index(m: VfrModel, off: nat)
    requires
        24 + 8 * m.frames.len() <= u64::MAX,
        off <= u64::MAX,
    ensures
        index_stands(vfr_layout(m, off), m, off),
{
    let d = vfr_layout(m, off);
    let n = m.frames.len();
    let flags = m.flags;
    assert((flags & 0x01 != 0) == (flags % 2 == 1)) by (bit_vector);
    lemma_pow256_values();
    lemma_le_bytes_len(0, 2);
    lemma_le_bytes_len(n, 8);
    lemma_le_bytes_len(off, 8);
    le_round_trip(n, 8);
    le_round_trip(off, 8);
    let head = vfr_header(m.version, m.flags, n, off);
    let records = concat_map(m.frames, frame_coder());
    assert(head.len() == 24);
    assert(d.take(4) =~= seq![0x56u8, 0x46u8, 0x52u8, 0x46u8]);
    assert(le_bytes(0, 2) =~= seq![0u8, 0u8]) by {
        reveal_with_fuel(le_bytes, 3);
    }
    assert(d.subrange(8, 16) =~= le_bytes(n, 8));
    assert(d.subrange(16, 24) =~= le_bytes(off, 8));
    if n > 0 {
        lemma_records(m.frames, 0);
    }
    assert(records.len() == 8 * n);
    assert forall|k: int| 0 <= k < n implies record_stands_at(
        d,
        24 + 8 * k,
        #[trigger] m.frames[k],
    ) by {
        lemma_records(m.frames, k);
        lemma_record(m.frames[k]);
        let at = 24 + 8 * k;
        assert(d.subrange(at, at + 8) =~= records.subrange(8 * k, 8 * k + 8));
        assert(d.subrange(at, at + 4) =~= d.subrange(at, at + 8).subrange(0, 4));
        assert(d.subrange(at + 6, at + 8) =~= d.subrange(at, at + 8).subrange(6, 8));
        assert(d[at + 4] == d.subrange(at, at + 8)[4]);
        assert(d[at + 5] == d.subrange(at, at + 8)[5]);
    }
    let table = if has_table(m.flags) {
        concat_map(m.nal_lengths, length_coder())
    } else {
        Seq::empty()
    };
    assert(d.skip((24 + 8 * n) as int) =~= table);
}

/// A frame index that ends inside its header or its records is refused.
pub proof fn cut_indexes_are_refused(m: VfrModel, k: int)
    requires
        m.version == 1,
        24 + 8 * m.frames.len() <= u64::MAX,
        0 <= k < 24 + 8 * m.frames.len(),
    ensures
        vfr_parse(vfr_bytes(m).take(k)) == Err::<VfrModel, VfrFault>(VfrFault::Io(end_of_data())),
{
    let d = vfr_bytes(m);
    index_values_stand_in_their_places(m);
    let t = d.take(k);
    if k >= 4 {
        assert(t.take(4) =~= d.take(4));
    }
    if k >= 24 {
        assert(t.subrange(8, 16) =~= d.subrange(8, 16));
        lemma_too_few(Seq::empty(), t.skip(24), m.frames.len());
    }
}

proof fn lemma_too_few(acc: Seq<FrameRecord>, data: Seq<u8>, n: nat)
    requires
        data.len() < 8 * n,
    ensures
        frames_from(acc, data, n) is None,
    decreases n,
{
    if n > 0 && data.len() >= 8 {
        lemma_too_few(acc.push(frame_at(data)), data.skip(8), (n - 1) as nat);
    }
}

/// What an indexer writes holds its frames, in order; and the muxer finds for each frame the
/// NAL lengths that the indexer gave for it.
pub proof fn written_index_tells_each_frame(
    frames: Seq<FrameModel>,
    has_nal_lengths: bool,
    base: u64,
    i: int,
)
    requires
        0 <= i < frames.len(),
        forall|k: int|
            0 <= k < frames.len() ==> (#[trigger] frames[k]).nal_count
                == frames[k].nal_lengths.len(),
    ensures
        ({
            let m = vfr_of(frames, has_nal_lengths);
            let x = IndexModel { frames: m.frames, nal_lengths: m.nal_lengths, base };
            &&& m.version == 1
            &&& m.flags == if has_nal_lengths {
                1u8
            } else {
                0u8
            }
            &&& m.frames.len() == frames.len()
            &&& m.frames[i].frame_size == frames[i].frame_size
            &&& m.frames[i].flags == frames[i].flags
            &&& m.frames[i].nal_count == frames[i].nal_count
            &&& m.frames[i].duration_delta == frames[i].duration_delta
            &&& has_nal_lengths ==> x.has_nals(i) && x.nals_of(i) == frames[i].nal_lengths
            &&& !has_nal_lengths ==> m.nal_lengths.len() == 0
        }),
{
    if has_nal_lengths {
        lemma_lengths_at(frames, frames.len(), i);
        let m = vfr_of(frames, true);
        let x = IndexModel { frames: m.frames, nal_lengths: m.nal_lengths, base };
        assert(x.nals_of(i) =~= frames[i].nal_lengths);
    }
}

proof fn lemma_lengths_at(frames: Seq<FrameModel>, n: nat, i: int)
    requires
        0 <= i < n <= frames.len(),
        forall|k: int|
            0 <= k < frames.len() ==> (#[trigger] frames[k]).nal_count
                == frames[k].nal_lengths.len(),
    ensures
        ({
            let start = nals_before(records_of(frames), i as nat);
            let all = lengths_of(frames, n);
            &&& all.len() == nals_before(records_of(frames), n)
            &&& start + frames[i].nal_lengths.len() <= all.len()
            &&& all.subrange(start as int, start as int + frames[i].nal_lengths.len())
                == frames[i].nal_lengths
        }),
    decreases n,
{
    let m = (n - 1) as nat;
    let before = lengths_of(frames, m);
    let all = lengths_of(frames, n);
    let start = nals_before(records_of(frames), i as nat) as int;
    let len = frames[i].nal_lengths.len();
    assert(records_of(frames)[n - 1] == record_of(frames[n - 1]));
    lemma_lengths_len(frames, m);
    if i < m {
        lemma_lengths_at(frames, m, i);
        assert(all.subrange(start, start + len) =~= before.subrange(start, start + len));
    } else {
        assert(all.subrange(start, start + len) =~= frames[i].nal_lengths);
    }
}

proof fn lemma_lengths_len(frames: Seq<FrameModel>, n: nat)
    requires
        n <= frames.len(),
        forall|k: int|
            0 <= k < frames.len() ==> (#[trigger] frames[k]).nal_count
                == frames[k].nal_lengths.len(),
    ensures
        lengths_of(frames, n).len() == nals_before(records_of(frames), n),
    decreases n,
{
    if n > 0 {
        lemma_lengths_len(frames, (n - 1) as nat);
        assert(records_of(frames)[n - 1] == record_of(frames[n - 1]));
    }
}

/// Numbers of two and of four bytes are spelled with the least significant byte first.
pub proof fn little_endian_numbers_begin_low(s: Seq<u8>)
    ensures
        s.len() == 2 ==> le_value(s) == s[0] + 0x100 * s[1],
        s.len() == 4 ==> le_value(s) == s[0] + 0x100 * s[1] + 0x1_0000 * s[2] + 0x100_0000 * s[3],
{
    reveal_with_fuel(le_value, 5);
}

} // verus!
