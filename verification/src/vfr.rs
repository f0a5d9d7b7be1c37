//! VFR files: the frame index of a raw track.
use crate::bytes::{
    append_bytes, bytes_equal, concat_map, i16_of_pattern, i16_pattern, le_bytes, le_round_trip,
    le_value, lemma_concat_map_push, lemma_le_bytes_len, lemma_pow256_values, read_i16_le,
    read_u32_le, read_u64_le, to_array4, write_i16_le, write_u16_le, write_u32_le, write_u64_le,
};
use crate::vint::{
    decode_vint, lemma_pow128_values, lemma_vint_at_value, lemma_vint_bytes_len, push_vint,
    vint_at, vint_bytes, vint_round_trip, vint_size, VintRead,
};
use vstd::prelude::*;

verus! {

/// Why a VFR file could not be read.
#[derive(Debug, Clone, PartialEq, Eq)]
pub enum VfrError {
    /// The file does not begin with `VFRF`.
    InvalidMagic([u8; 4]),
    UnsupportedVersion(u8),
    /// The bytes ended early or hold a broken VINT.
    Io(&'static str),
}

/// [`VfrError`] with sequences for arrays and strings.
pub ghost enum VfrFault {
    InvalidMagic(Seq<u8>),
    UnsupportedVersion(u8),
    Io(Seq<char>),
}

impl View for VfrError {
    type V = VfrFault;

    open spec fn view(&self) -> VfrFault {
        match self {
            VfrError::InvalidMagic(m) => VfrFault::InvalidMagic(m@),
            VfrError::UnsupportedVersion(v) => VfrFault::UnsupportedVersion(*v),
            VfrError::Io(s) => VfrFault::Io(s@),
        }
    }
}

/// One frame of a raw track.
#[derive(Debug, Clone, Copy, PartialEq, Eq)]
pub struct FrameRecord {
    /// Byte size of this frame in the raw track file.
    pub frame_size: u32,
    /// bit 0: keyframe; bit 1: has_nal_lengths.
    pub flags: u8,
    /// Number of NAL units (video) or 0 (audio).
    pub nal_count: u8,
    /// Delta of this frame's duration relative to the track's frame duration.
    pub duration_delta: i16,
}

impl FrameRecord {
    pub fn is_keyframe(&self) -> (r: bool)
        ensures
            r == (self.flags & 0x01 != 0),
    {
        self.flags & 0x01 != 0
    }

    pub fn has_nal_lengths(&self) -> (r: bool)
        ensures
            r == (self.flags & 0x02 != 0),
    {
        self.flags & 0x02 != 0
    }
}

/// A frame index.
#[derive(Debug, Clone, PartialEq, Eq)]
pub struct VfrFile {
    pub version: u8,
    /// bit 0: file has a NalLengths table.
    pub flags: u8,
    pub frames: Vec<FrameRecord>,
    /// Lengths of the NAL units of all frames, in frame order.
    /// Empty for audio-only files.
    pub nal_lengths: Vec<u64>,
}

/// [`VfrFile`] with sequences for vectors.
pub ghost struct VfrModel {
    pub version: u8,
    pub flags: u8,
    pub frames: Seq<FrameRecord>,
    pub nal_lengths: Seq<u64>,
}

impl View for VfrFile {
    type V = VfrModel;

    open spec fn view(&self) -> VfrModel {
        VfrModel {
            version: self.version,
            flags: self.flags,
            frames: self.frames@,
            nal_lengths: self.nal_lengths@,
        }
    }
}

/// The text of the error for bytes that end early.
pub open spec fn end_of_data() -> Seq<char> {
    "failed to fill whole buffer"@
}

/// The four bytes every VFR file begins with.
pub open spec fn vfr_magic() -> Seq<u8> {
    seq![0x56u8, 0x46u8, 0x52u8, 0x46u8]
}

/// Whether a file with these flags carries a table of NAL lengths.
pub open spec fn has_table(flags: u8) -> bool {
    flags & 0x01 != 0
}

/// The eight bytes of a frame record.
pub open spec fn frame_bytes(f: FrameRecord) -> Seq<u8> {
    le_bytes(f.frame_size as nat, 4) + seq![f.flags, f.nal_count] + le_bytes(
        i16_pattern(f.duration_delta),
        2,
    )
}

pub open spec fn frame_coder() -> spec_fn(FrameRecord) -> Seq<u8> {
    |f: FrameRecord| frame_bytes(f)
}

/// The shortest VINT for `len` that is not all ones.
pub open spec fn length_bytes(len: u64) -> Seq<u8> {
    vint_bytes(len, vint_size(len))
}

pub open spec fn length_coder() -> spec_fn(u64) -> Seq<u8> {
    |len: u64| length_bytes(len)
}

/// The 24 bytes before the first frame record.
pub open spec fn vfr_header(version: u8, flags: u8, frame_count: nat, offset: nat) -> Seq<u8> {
    vfr_magic() + seq![version, flags] + le_bytes(0, 2) + le_bytes(frame_count, 8) + le_bytes(
        offset,
        8,
    )
}

/// A whole file: header, frame records and, where the flags say so, NAL lengths.
pub open spec fn vfr_layout(m: VfrModel, offset: nat) -> Seq<u8> {
    vfr_header(m.version, m.flags, m.frames.len(), offset) + concat_map(m.frames, frame_coder())
        + (if has_table(m.flags) {
        concat_map(m.nal_lengths, length_coder())
    } else {
        Seq::empty()
    })
}

/// Where the table of NAL lengths starts; zero where there is none.
pub open spec fn table_offset(m: VfrModel) -> nat {
    if has_table(m.flags) && m.nal_lengths.len() > 0 {
        24 + m.frames.len() * 8
    } else {
        0
    }
}

/// The bytes of a VFR file.
pub open spec fn vfr_bytes(m: VfrModel) -> Seq<u8> {
    vfr_layout(m, table_offset(m))
}

/// The frame record in the first eight bytes of `data`.
pub open spec fn frame_at(data: Seq<u8>) -> FrameRecord {
    FrameRecord {
        frame_size: le_value(data.subrange(0, 4)) as u32,
        flags: data[4],
        nal_count: data[5],
        duration_delta: i16_of_pattern(le_value(data.subrange(6, 8))),
    }
}

/// Reads `count` frame records after those in `acc`; gives them and what follows.
pub open spec fn frames_from(acc: Seq<FrameRecord>, data: Seq<u8>, count: nat) -> Option<
    (Seq<FrameRecord>, Seq<u8>),
>
    decreases count,
{
    if count == 0 {
        Some((acc, data))
    } else if data.len() < 8 {
        None
    } else {
        frames_from(acc.push(frame_at(data)), data.skip(8), (count - 1) as nat)
    }
}

/// The text of the error for a NAL length that cannot be read.
pub open spec fn vint_fault(r: VintRead) -> Seq<char> {
    match r {
        VintRead::Empty => "unexpected end of VINT data"@,
        _ => "invalid VINT encoding"@,
    }
}

/// Reads `count` VINTs after those in `acc`.
pub open spec fn lengths_from(acc: Seq<u64>, data: Seq<u8>, count: nat) -> Result<
    Seq<u64>,
    Seq<char>,
>
    decreases count,
{
    if count == 0 {
        Ok(acc)
    } else {
        match vint_at(data) {
            VintRead::Value(v, n) => lengths_from(
                acc.push(v),
                data.skip(n as int),
                (count - 1) as nat,
            ),
            bad => Err(vint_fault(bad)),
        }
    }
}

/// The number of NAL units that `frames` announce.
pub open spec fn nal_total(frames: Seq<FrameRecord>) -> nat
    decreases frames.len(),
{
    if frames.len() == 0 {
        0
    } else {
        nal_total(frames.drop_last()) + frames.last().nal_count as nat
    }
}

/// What a byte string means as a VFR file.
pub open spec fn vfr_parse(data: Seq<u8>) -> Result<VfrModel, VfrFault> {
    if data.len() < 4 {
        Err(VfrFault::Io(end_of_data()))
    } else if data.take(4) != vfr_magic() {
        Err(VfrFault::InvalidMagic(data.take(4)))
    } else if data.len() < 5 {
        Err(VfrFault::Io(end_of_data()))
    } else if data[4] != 1 {
        Err(VfrFault::UnsupportedVersion(data[4]))
    } else if data.len() < 24 {
        Err(VfrFault::Io(end_of_data()))
    } else {
        let flags = data[5];
        match frames_from(Seq::empty(), data.skip(24), le_value(data.subrange(8, 16))) {
            None => Err(VfrFault::Io(end_of_data())),
            Some((frames, rest)) => if has_table(flags) {
                match lengths_from(Seq::empty(), rest, nal_total(frames)) {
                    Err(e) => Err(VfrFault::Io(e)),
                    Ok(nal_lengths) => Ok(VfrModel { version: 1, flags, frames, nal_lengths }),
                }
            } else {
                Ok(VfrModel { version: 1, flags, frames, nal_lengths: Seq::empty() })
            },
        }
    }
}

proof fn lemma_frame_round_trip(f: FrameRecord, rest: Seq<u8>)
    ensures
        frame_bytes(f).len() == 8,
        frame_at(frame_bytes(f) + rest) == f,
        (frame_bytes(f) + rest).skip(8) == rest,
{
    let s = frame_bytes(f) + rest;
    lemma_pow256_values();
    lemma_le_bytes_len(f.frame_size as nat, 4);
    lemma_le_bytes_len(i16_pattern(f.duration_delta), 2);
    le_round_trip(f.frame_size as nat, 4);
    le_round_trip(i16_pattern(f.duration_delta), 2);
    assert(s.subrange(0, 4) =~= le_bytes(f.frame_size as nat, 4));
    assert(s.subrange(6, 8) =~= le_bytes(i16_pattern(f.duration_delta), 2));
    assert(s.skip(8) =~= rest);
}

proof fn lemma_frames_round_trip(acc: Seq<FrameRecord>, frames: Seq<FrameRecord>, rest: Seq<u8>)
    ensures
        frames_from(acc, concat_map(frames, frame_coder()) + rest, frames.len()) == Some(
            (acc + frames, rest),
        ),
    decreases frames.len(),
{
    let data = concat_map(frames, frame_coder()) + rest;
    if frames.len() == 0 {
        assert(data =~= rest);
        assert(acc + frames =~= acc);
    } else {
        let tail = concat_map(frames.skip(1), frame_coder()) + rest;
        assert(data =~= frame_bytes(frames[0]) + tail);
        lemma_frame_round_trip(frames[0], tail);
        lemma_frames_round_trip(acc.push(frames[0]), frames.skip(1), rest);
        assert(acc.push(frames[0]) + frames.skip(1) =~= acc + frames);
    }
}

proof fn lemma_lengths_round_trip(acc: Seq<u64>, lens: Seq<u64>, rest: Seq<u8>)
    requires
        forall|i: int| 0 <= i < lens.len() ==> lens[i] < 0x100_0000_0000_0000,
    ensures
        lengths_from(acc, concat_map(lens, length_coder()) + rest, lens.len()) == Ok::<
            Seq<u64>,
            Seq<char>,
        >(acc + lens),
    decreases lens.len(),
{
    let data = concat_map(lens, length_coder()) + rest;
    if lens.len() == 0 {
        assert(acc + lens =~= acc);
    } else {
        let tail = concat_map(lens.skip(1), length_coder()) + rest;
        let n = vint_size(lens[0]);
        assert(data =~= length_bytes(lens[0]) + tail);
        lemma_pow128_values();
        lemma_vint_bytes_len(lens[0], n);
        vint_round_trip(lens[0], n, tail);
        assert(data.skip(n as int) =~= tail);
        lemma_lengths_round_trip(acc.push(lens[0]), lens.skip(1), rest);
        assert(acc.push(lens[0]) + lens.skip(1) =~= acc + lens);
    }
}

/// A file reads back as it was written, wherever its table starts: version 1, and
/// as many NAL lengths, of at most 56 bits, as the frames announce (none where the
/// flags announce no table).
pub proof fn vfr_layout_round_trip(m: VfrModel, offset: nat)
    requires
        m.version == 1,
        m.frames.len() <= u64::MAX,
        has_table(m.flags) ==> m.nal_lengths.len() == nal_total(m.frames),
        !has_table(m.flags) ==> m.nal_lengths.len() == 0,
        forall|i: int| 0 <= i < m.nal_lengths.len() ==> m.nal_lengths[i] < 0x100_0000_0000_0000,
    ensures
        vfr_parse(vfr_layout(m, offset)) == Ok::<VfrModel, VfrFault>(m),
{
    let data = vfr_layout(m, offset);
    let count = m.frames.len();
    lemma_pow256_values();
    lemma_le_bytes_len(0, 2);
    lemma_le_bytes_len(count, 8);
    lemma_le_bytes_len(offset, 8);
    le_round_trip(count, 8);
    let head = vfr_header(m.version, m.flags, count, offset);
    assert(head.len() == 24);
    assert(data.take(4) =~= vfr_magic());
    assert(data[4] == m.version);
    assert(data[5] == m.flags);
    assert(data.subrange(8, 16) =~= le_bytes(count, 8));
    let table = if has_table(m.flags) {
        concat_map(m.nal_lengths, length_coder())
    } else {
        Seq::empty()
    };
    assert(data.skip(24) =~= concat_map(m.frames, frame_coder()) + table);
    lemma_frames_round_trip(Seq::empty(), m.frames, table);
    assert(Seq::<FrameRecord>::empty() + m.frames =~= m.frames);
    if has_table(m.flags) {
        lemma_lengths_round_trip(Seq::empty(), m.nal_lengths, Seq::empty());
        assert(concat_map(m.nal_lengths, length_coder()) + Seq::<u8>::empty() =~= table);
        assert(Seq::<u64>::empty() + m.nal_lengths =~= m.nal_lengths);
    } else {
        assert(m.nal_lengths =~= Seq::<u64>::empty());
    }
}

/// What `write_to` writes, `read_from` reads back.
pub proof fn vfr_round_trip(m: VfrModel)
    requires
        m.version == 1,
        m.frames.len() <= u64::MAX,
        has_table(m.flags) ==> m.nal_lengths.len() == nal_total(m.frames),
        !has_table(m.flags) ==> m.nal_lengths.len() == 0,
        forall|i: int| 0 <= i < m.nal_lengths.len() ==> m.nal_lengths[i] < 0x100_0000_0000_0000,
    ensures
        vfr_parse(vfr_bytes(m)) == Ok::<VfrModel, VfrFault>(m),
{
    vfr_layout_round_trip(m, table_offset(m));
}

/// A file whose first four bytes are changed is refused with the bytes that stand there.
pub proof fn changed_magic_is_refused(m: VfrModel, data: Seq<u8>)
    requires
        data.len() == vfr_bytes(m).len(),
        data.take(4) != vfr_bytes(m).take(4),
    ensures
        vfr_parse(data) == Err::<VfrModel, VfrFault>(VfrFault::InvalidMagic(data.take(4))),
{
    assert(vfr_bytes(m).take(4) =~= vfr_magic());
}

/// A file in which only the version is changed is refused with the version that stands there.
pub proof fn changed_version_is_refused(m: VfrModel, version: u8)
    requires
        version != 1,
    ensures
        vfr_parse(vfr_bytes(m).update(4, version)) == Err::<VfrModel, VfrFault>(
            VfrFault::UnsupportedVersion(version),
        ),
{
    assert(vfr_bytes(m).update(4, version).take(4) =~= vfr_magic());
}

/// Appends the 24 bytes before the first frame record.
pub(crate) fn write_header(w: &mut Vec<u8>, version: u8, flags: u8, frame_count: u64, offset: u64)
    ensures
        final(w)@ == old(w)@ + vfr_header(version, flags, frame_count as nat, offset as nat),
{
    append_bytes(w, &[0x56u8, 0x46u8, 0x52u8, 0x46u8]);
    w.push(version);
    w.push(flags);
    write_u16_le(w, 0);
    write_u64_le(w, frame_count);
    write_u64_le(w, offset);
    assert(w@ =~= old(w)@ + vfr_header(version, flags, frame_count as nat, offset as nat));
}

/// Appends a frame record.
pub(crate) fn write_frame(w: &mut Vec<u8>, f: FrameRecord)
    ensures
        final(w)@ == old(w)@ + frame_bytes(f),
{
    write_u32_le(w, f.frame_size);
    w.push(f.flags);
    w.push(f.nal_count);
    write_i16_le(w, f.duration_delta);
    assert(w@ =~= old(w)@ + frame_bytes(f));
}

impl VfrFile {
    pub fn has_nal_lengths_table(&self) -> (r: bool)
        ensures
            r == has_table(self.flags),
    {
        self.flags & 0x01 != 0
    }

    /// Appends the file to `w`.
    pub fn write_to(&self, w: &mut Vec<u8>) -> (r: Result<(), VfrError>)
        requires
            24 + self.frames@.len() * 8 <= u64::MAX,
        ensures
            r is Ok,
            final(w)@ == old(w)@ + vfr_bytes(self@),
    {
        let frame_count: u64 = self.frames.len() as u64;
        let nal_lengths_offset: u64 = if self.has_nal_lengths_table()
            && !self.nal_lengths.is_empty() {
            24 + frame_count * 8
        } else {
            0
        };
        let ghost start = w@;
        write_header(w, self.version, self.flags, frame_count, nal_lengths_offset);
        let ghost head = vfr_header(
            self.version,
            self.flags,
            frame_count as nat,
            nal_lengths_offset as nat,
        );
        let mut i: usize = 0;
        proof {
            assert(w@ =~= start + head + concat_map(self.frames@.take(0), frame_coder()));
        }
        while i < self.frames.len()
            invariant
                i <= self.frames@.len(),
                w@ == start + head + concat_map(self.frames@.take(i as int), frame_coder()),
            decreases self.frames@.len() - i,
        {
            write_frame(w, self.frames[i]);
            proof {
                let t = self.frames@.take(i as int);
                lemma_concat_map_push(t, self.frames@[i as int], frame_coder());
                assert(self.frames@.take(i + 1) =~= t.push(self.frames@[i as int]));
                assert(w@ =~= start + head + concat_map(
                    self.frames@.take(i + 1),
                    frame_coder(),
                ));
            }
            i = i + 1;
        }
        let ghost middle = start + head + concat_map(self.frames@, frame_coder());
        proof {
            assert(self.frames@.take(i as int) =~= self.frames@);
        }
        if self.has_nal_lengths_table() {
            write_lengths(w, &self.nal_lengths);
        }
        assert(w@ =~= old(w)@ + vfr_bytes(self@));
        Ok(())
    }

    /// Reads a file; bytes after it are ignored.
    pub fn read_from(data: &[u8]) -> (r: Result<Self, VfrError>)
        ensures
            match r {
                Ok(f) => vfr_parse(data@) == Ok::<VfrModel, VfrFault>(f@),
                Err(e) => vfr_parse(data@) == Err::<VfrModel, VfrFault>(e@),
            },
    {
        if data.len() < 4 {
            return Err(VfrError::Io("failed to fill whole buffer"));
        }
        let magic: [u8; 4] = to_array4(&data[0..4]);
        proof {
            assert(data@.subrange(0, 4) =~= data@.take(4));
        }
        let expected: [u8; 4] = [0x56u8, 0x46u8, 0x52u8, 0x46u8];
        assert(expected@ =~= vfr_magic());
        if !bytes_equal(&magic, &expected) {
            return Err(VfrError::InvalidMagic(magic));
        }
        if data.len() < 5 {
            return Err(VfrError::Io("failed to fill whole buffer"));
        }
        let version: u8 = data[4];
        if version != 1 {
            return Err(VfrError::UnsupportedVersion(version));
        }
        if data.len() < 24 {
            return Err(VfrError::Io("failed to fill whole buffer"));
        }
        let flags: u8 = data[5];
        let frame_count: u64 = read_u64_le(&data[8..16]);
        let mut rest: &[u8] = &data[24..data.len()];
        assert(rest@ =~= data@.skip(24));
        let mut frames: Vec<FrameRecord> = Vec::new();
        let mut left: u64 = frame_count;
        let ghost parsed = frames_from(Seq::empty(), rest@, frame_count as nat);
        while left > 0
            invariant
                parsed == frames_from(frames@, rest@, left as nat),
                parsed is None ==> vfr_parse(data@) == Err::<VfrModel, VfrFault>(
                    VfrFault::Io(end_of_data()),
                ),
            decreases left,
        {
            if rest.len() < 8 {
                return Err(VfrError::Io("failed to fill whole buffer"));
            }
            let f = FrameRecord {
                frame_size: read_u32_le(&rest[0..4]),
                flags: rest[4],
                nal_count: rest[5],
                duration_delta: read_i16_le(&rest[6..8]),
            };
            proof {
                assert(f == frame_at(rest@));
                assert(rest@.subrange(8, rest@.len() as int) =~= rest@.skip(8));
            }
            frames.push(f);
            rest = &rest[8..rest.len()];
            left = left - 1;
        }
        if flags & 0x01 == 0 {
            return Ok(VfrFile { version, flags, frames, nal_lengths: Vec::new() });
        }
        let mut nal_lengths: Vec<u64> = Vec::new();
        let mut i: usize = 0;
        let ghost lengths = lengths_from(Seq::empty(), rest@, nal_total(frames@));
        proof {
            assert(frames@.take(frames@.len() as int) =~= frames@);
            assert(nal_total(frames@.take(0)) == 0);
        }
        while i < frames.len()
            invariant
                i <= frames@.len(),
                nal_total(frames@.take(i as int)) <= nal_total(frames@),
                lengths == lengths_from(
                    nal_lengths@,
                    rest@,
                    (nal_total(frames@) - nal_total(frames@.take(i as int))) as nat,
                ),
                lengths is Err ==> vfr_parse(data@) == Err::<VfrModel, VfrFault>(
                    VfrFault::Io(lengths->Err_0),
                ),
            decreases frames@.len() - i,
        {
            let ghost before = nal_total(frames@.take(i as int));
            proof {
                assert(frames@.take(i + 1).drop_last() =~= frames@.take(i as int));
                lemma_nal_total_prefix(frames@, i + 1);
            }
            let mut k: u8 = frames[i].nal_count;
            while k > 0
                invariant
                    i < frames@.len(),
                    k <= frames@[i as int].nal_count,
                    nal_total(frames@.take(i + 1)) <= nal_total(frames@),
                    nal_total(frames@.take(i + 1)) == before + frames@[i as int].nal_count,
                    lengths == lengths_from(
                        nal_lengths@,
                        rest@,
                        (nal_total(frames@) - nal_total(frames@.take(i + 1)) + k) as nat,
                    ),
                    lengths is Err ==> vfr_parse(data@) == Err::<VfrModel, VfrFault>(
                        VfrFault::Io(lengths->Err_0),
                    ),
                decreases k,
            {
                match read_vint_from_slice(rest) {
                    Ok((v, after)) => {
                        nal_lengths.push(v);
                        rest = after;
                    },
                    Err(e) => {
                        return Err(VfrError::Io(e));
                    },
                }
                k = k - 1;
            }
            i = i + 1;
        }
        Ok(VfrFile { version, flags, frames, nal_lengths })
    }
}

/// A prefix announces no more NAL units than the whole.
proof fn lemma_nal_total_prefix(frames: Seq<FrameRecord>, i: int)
    requires
        0 <= i <= frames.len(),
    ensures
        nal_total(frames.take(i)) <= nal_total(frames),
    decreases frames.len(),
{
    if i == frames.len() {
        assert(frames.take(i) =~= frames);
    } else {
        lemma_nal_total_prefix(frames.drop_last(), i);
        assert(frames.drop_last().take(i) =~= frames.take(i));
    }
}

/// Appends the VINTs of `lens`.
pub(crate) fn write_lengths(w: &mut Vec<u8>, lens: &[u64])
    ensures
        final(w)@ == old(w)@ + concat_map(lens@, length_coder()),
{
    let mut i: usize = 0;
    let ghost start = w@;
    proof {
        assert(w@ =~= start + concat_map(lens@.take(0), length_coder()));
    }
    while i < lens.len()
        invariant
            i <= lens@.len(),
            w@ == start + concat_map(lens@.take(i as int), length_coder()),
        decreases lens@.len() - i,
    {
        write_vint(w, lens[i]);
        proof {
            let t = lens@.take(i as int);
            lemma_concat_map_push(t, lens@[i as int], length_coder());
            assert(lens@.take(i + 1) =~= t.push(lens@[i as int]));
            assert(w@ =~= start + concat_map(lens@.take(i + 1), length_coder()));
        }
        i = i + 1;
    }
    assert(lens@.take(i as int) =~= lens@);
}

/// The width of the shortest VINT for `value` that is not all ones, at most eight.
pub fn vint_byte_len(value: u64) -> (r: usize)
    ensures
        r == vint_size(value),
        1 <= r <= 8,
{
    if value <= 0x7E {
        1
    } else if value <= 0x3FFE {
        2
    } else if value <= 0x1F_FFFE {
        3
    } else if value <= 0x0FFF_FFFE {
        4
    } else if value <= 0x07_FFFF_FFFE {
        5
    } else if value <= 0x03FF_FFFF_FFFE {
        6
    } else if value <= 0x01_FFFF_FFFF_FFFE {
        7
    } else {
        8
    }
}

/// Appends the shortest VINT for `value` that is not all ones.
pub fn write_vint(w: &mut Vec<u8>, value: u64)
    ensures
        final(w)@ == old(w)@ + length_bytes(value),
{
    proof {
        lemma_pow128_values();
    }
    push_vint(w, value, vint_byte_len(value));
}

/// Reads the VINT at the start of `buf`; gives its value and the bytes after it.
pub fn read_vint_from_slice(buf: &[u8]) -> (r: Result<(u64, &[u8]), &'static str>)
    ensures
        match vint_at(buf@) {
            VintRead::Value(v, n) => r matches Ok(p) && p.0 == v && p.1@ == buf@.skip(n as int),
            bad => r matches Err(e) && e@ == vint_fault(bad),
        },
{
    proof {
        lemma_vint_at_value(buf@);
    }
    match decode_vint(buf) {
        VintRead::Value(v, n) => {
            let rest: &[u8] = &buf[n..buf.len()];
            assert(rest@ =~= buf@.skip(n as int));
            Ok((v, rest))
        },
        VintRead::Empty => Err("unexpected end of VINT data"),
        _ => Err("invalid VINT encoding"),
    }
}

/// Reads the VINT at the start of `r` and moves `r` behind what was read.
pub fn read_vint<'a>(r: &mut &'a [u8]) -> (v: Result<u64, &'static str>)
    ensures
        match vint_at(old(r)@) {
            VintRead::Value(x, n) => v == Ok::<u64, &'static str>(x) && final(r)@ == old(
                r,
            )@.skip(n as int),
            VintRead::Invalid => v matches Err(e) && e@ == "invalid VINT"@ && final(r)@ == old(
                r,
            )@.skip(1),
            _ => v matches Err(e) && e@ == end_of_data() && final(r)@.len() == 0,
        },
{
    proof {
        lemma_vint_at_value(r@);
    }
    let data: &'a [u8] = *r;
    match decode_vint(data) {
        VintRead::Value(x, n) => {
            let rest: &'a [u8] = &data[n..data.len()];
            assert(rest@ =~= data@.skip(n as int));
            *r = rest;
            Ok(x)
        },
        VintRead::Invalid => {
            let rest: &'a [u8] = &data[1..data.len()];
            assert(rest@ =~= data@.skip(1));
            *r = rest;
            Err("invalid VINT")
        },
        _ => {
            *r = &data[data.len()..data.len()];
            Err("failed to fill whole buffer")
        },
    }
}

} // verus!
