//! Offsets, times and NAL tables of the frames of a track.
use crate::vfr::{FrameRecord, VfrFile};
use std::sync::Arc;
use vstd::arithmetic::div_mod::{lemma_fundamental_div_mod, lemma_fundamental_div_mod_converse_mod};
use vstd::prelude::*;

verus! {

/// Checkpoint stride for the lazy VFR index.
pub const CHECKPOINT_STRIDE: u32 = 1024;

/// The total size of the first `i` frames.
pub open spec fn size_before(frames: Seq<FrameRecord>, i: nat) -> nat
    decreases i,
{
    if i == 0 {
        0
    } else {
        size_before(frames, (i - 1) as nat) + frames[i - 1].frame_size as nat
    }
}

/// The number of NAL units of the first `i` frames.
pub open spec fn nals_before(frames: Seq<FrameRecord>, i: nat) -> nat
    decreases i,
{
    if i == 0 {
        0
    } else {
        nals_before(frames, (i - 1) as nat) + frames[i - 1].nal_count as nat
    }
}

/// The total duration of the first `i` frames.
pub open spec fn duration_before(frames: Seq<FrameRecord>, base: u64, i: nat) -> int
    decreases i,
{
    if i == 0 {
        0
    } else {
        duration_before(frames, base, (i - 1) as nat) + base + frames[i - 1].duration_delta
    }
}

/// The start of frame `i`: the duration before it, in 64 bits.
pub open spec fn time_at(frames: Seq<FrameRecord>, base: u64, i: nat) -> u64 {
    (duration_before(frames, base, i) % 0x1_0000_0000_0000_0000) as u64
}

/// Whether no frame starts before an earlier one.
pub open spec fn times_ascend(frames: Seq<FrameRecord>, base: u64) -> bool {
    forall|i: nat, j: nat|
        i <= j <= frames.len() ==> #[trigger] time_at(frames, base, i) <= #[trigger] time_at(
            frames,
            base,
            j,
        )
}

/// The first frame from `from` on that starts at `ts` or later; the number of
/// frames where there is none.
pub open spec fn first_from(frames: Seq<FrameRecord>, base: u64, ts: u64, from: nat) -> nat
    decreases frames.len() - from,
{
    if from >= frames.len() {
        frames.len()
    } else if time_at(frames, base, from) >= ts {
        from
    } else {
        first_from(frames, base, ts, from + 1)
    }
}

/// The frame that checkpoint `k` stands before.
pub open spec fn checkpoint_frame(frames: Seq<FrameRecord>, k: int) -> nat {
    if k * 1024 < frames.len() {
        (k * 1024) as nat
    } else {
        frames.len()
    }
}

/// The number of checkpoints: one per started stride, and one at the end.
pub open spec fn checkpoint_count(n: nat) -> nat {
    (n + 1023) / 1024 + 1
}

/// Accumulated frame offsets and timestamps every [`CHECKPOINT_STRIDE`] frames.
///
/// `offsets_checkpoint[K]` = sum of `frame_size` for frames `[0, K*STRIDE)`.
/// `time_checkpoint[K]`    = sum of `(frame_duration + duration_delta)` for
/// frames `[0, K*STRIDE)`, in track timebase units.
/// `nal_offsets_checkpoint[K]` = sum of `nal_count` for frames `[0, K*STRIDE)`.
pub struct LazyVfrIndex {
    pub vfr: Arc<VfrFile>,
    /// Base `frame_duration` from the TrackPolicy, used as the implicit
    /// duration for VBR frames before adding the per-frame delta.
    pub base_duration: u64,
    pub offsets_checkpoint: Vec<u64>,
    pub time_checkpoint: Vec<u64>,
    pub nal_offsets_checkpoint: Vec<u64>,
    /// Whether the start times never go down, so that they can be searched.
    pub ascending: bool,
}

/// What an index tells about: frames, NAL lengths, base duration.
pub ghost struct IndexModel {
    pub frames: Seq<FrameRecord>,
    pub nal_lengths: Seq<u64>,
    pub base: u64,
}

impl View for LazyVfrIndex {
    type V = IndexModel;

    open spec fn view(&self) -> IndexModel {
        IndexModel {
            frames: self.vfr.frames@,
            nal_lengths: self.vfr.nal_lengths@,
            base: self.base_duration,
        }
    }
}

impl IndexModel {
    /// The lengths of the NAL units of frame `i`.
    pub open spec fn nals_of(self, i: int) -> Seq<u64> {
        let start = nals_before(self.frames, i as nat);
        self.nal_lengths.subrange(start as int, start + self.frames[i].nal_count)
    }

    /// Whether the file holds the lengths of the NAL units of frame `i`.
    pub open spec fn has_nals(self, i: int) -> bool {
        &&& 0 <= i < self.frames.len()
        &&& nals_before(self.frames, i as nat) + self.frames[i].nal_count
            <= self.nal_lengths.len()
    }
}

/// Whether the sums over the frames of a file fit in 64 bits.
pub open spec fn indexable(frames: Seq<FrameRecord>) -> bool {
    &&& size_before(frames, frames.len()) <= u64::MAX
    &&& nals_before(frames, frames.len()) <= u64::MAX
}

/// The frames whose place the index tells: those of the file, its end, and the
/// end of its last stride.
pub open spec fn indexed(frames: Seq<FrameRecord>, i: u32) -> bool {
    i <= frames.len() || (i % 1024 == 0 && i < frames.len() + 1024)
}

/// `i`, or the number of frames where `i` is greater.
pub open spec fn clip(frames: Seq<FrameRecord>, i: u32) -> nat {
    if i <= frames.len() {
        i as nat
    } else {
        frames.len()
    }
}

/// One step in time: base duration and delta on top of `t`, in 64 bits.
fn step_time(t: u64, base: u64, delta: i16) -> (r: u64)
    ensures
        r == (t + base + delta) % 0x1_0000_0000_0000_0000,
{
    let a: u64 = t.wrapping_add(base);
    let r: u64 = a.wrapping_add_signed(delta as i64);
    proof {
        let m = 0x1_0000_0000_0000_0000int;
        let x = t + base + delta;
        let k = if x - r == 0 {
            0
        } else if x - r == m {
            1
        } else if x - r == -m {
            -1
        } else {
            2int
        };
        lemma_fundamental_div_mod_converse_mod(x as int, m, k, r as int);
    }
    r
}

pub proof fn lemma_time_step(frames: Seq<FrameRecord>, base: u64, i: nat)
    requires
        i < frames.len(),
    ensures
        time_at(frames, base, i + 1) == (time_at(frames, base, i) + base
            + frames[i as int].duration_delta) % 0x1_0000_0000_0000_0000,
{
    let m = 0x1_0000_0000_0000_0000int;
    let s = duration_before(frames, base, i);
    let x = base + frames[i as int].duration_delta;
    let u = s % m;
    lemma_fundamental_div_mod(s, m);
    lemma_fundamental_div_mod(u + x, m);
    let q = s / m;
    let p = (u + x) / m;
    let r = (u + x) % m;
    assert(s + x == (q + p) * m + r) by (nonlinear_arith)
        requires
            s == m * q + u,
            u + x == m * p + r,
    ;
    lemma_fundamental_div_mod_converse_mod(s + x, m, q + p, r);
}

/// A sum over more frames is no smaller.
proof fn lemma_sums_grow(frames: Seq<FrameRecord>, i: nat, j: nat)
    requires
        i <= j,
    ensures
        size_before(frames, i) <= size_before(frames, j),
        nals_before(frames, i) <= nals_before(frames, j),
    decreases j,
{
    if i < j {
        lemma_sums_grow(frames, i, (j - 1) as nat);
    }
}

/// Frames before `to` that all start before `ts` can be skipped.
proof fn lemma_first_skip(frames: Seq<FrameRecord>, base: u64, ts: u64, from: nat, to: nat)
    requires
        from <= to <= frames.len(),
        forall|i: nat| from <= i < to ==> #[trigger] time_at(frames, base, i) < ts,
    ensures
        first_from(frames, base, ts, from) == first_from(frames, base, ts, to),
    decreases to - from,
{
    if from < to {
        lemma_first_skip(frames, base, ts, from + 1, to);
    }
}

/// `first_from` finds the least frame that starts at `ts` or later, if there is one.
pub proof fn first_from_is_least(frames: Seq<FrameRecord>, base: u64, ts: u64, from: nat)
    requires
        from <= frames.len(),
    ensures
        from <= first_from(frames, base, ts, from) <= frames.len(),
        first_from(frames, base, ts, from) < frames.len() ==> time_at(
            frames,
            base,
            first_from(frames, base, ts, from),
        ) >= ts,
        forall|i: nat|
            from <= i < first_from(frames, base, ts, from) ==> #[trigger] time_at(frames, base, i)
                < ts,
    decreases frames.len() - from,
{
    if from < frames.len() && time_at(frames, base, from) < ts {
        first_from_is_least(frames, base, ts, from + 1);
    }
}

/// A later bound is met by no earlier frame.
pub proof fn first_from_grows(frames: Seq<FrameRecord>, base: u64, ts1: u64, ts2: u64)
    requires
        ts1 <= ts2,
    ensures
        first_from(frames, base, ts1, 0) <= first_from(frames, base, ts2, 0),
{
    first_from_is_least(frames, base, ts1, 0);
    first_from_is_least(frames, base, ts2, 0);
    if first_from(frames, base, ts2, 0) < first_from(frames, base, ts1, 0) {
        assert(time_at(frames, base, first_from(frames, base, ts2, 0)) < ts1);
    }
}

/// Whether the sums over `frames` fit in 64 bits.
pub fn is_indexable(frames: &Vec<FrameRecord>) -> (r: bool)
    ensures
        r == indexable(frames@),
{
    let mut sizes: u64 = 0;
    let mut nals: u64 = 0;
    let mut i: usize = 0;
    while i < frames.len()
        invariant
            i <= frames@.len(),
            sizes == size_before(frames@, i as nat),
            nals == nals_before(frames@, i as nat),
        decreases frames@.len() - i,
    {
        proof {
            lemma_sums_grow(frames@, (i + 1) as nat, frames@.len());
        }
        let f: FrameRecord = frames[i];
        if f.frame_size as u64 > u64::MAX - sizes || f.nal_count as u64 > u64::MAX - nals {
            return false;
        }
        sizes = sizes + f.frame_size as u64;
        nals = nals + f.nal_count as u64;
        i = i + 1;
    }
    true
}

impl LazyVfrIndex {
    /// Whether the checkpoints are those of the frames.
    pub open spec fn wf(&self) -> bool {
        let frames = self.vfr.frames@;
        let count = checkpoint_count(frames.len());
        &&& indexable(frames)
        &&& self.offsets_checkpoint@.len() == count
        &&& self.time_checkpoint@.len() == count
        &&& self.nal_offsets_checkpoint@.len() == count
        &&& forall|k: int|
            0 <= k < count ==> {
                &&& #[trigger] self.offsets_checkpoint@[k] == size_before(
                    frames,
                    checkpoint_frame(frames, k),
                )
            }
        &&& forall|k: int|
            0 <= k < count ==> {
                &&& #[trigger] self.time_checkpoint@[k] == time_at(
                    frames,
                    self.base_duration,
                    checkpoint_frame(frames, k),
                )
            }
        &&& forall|k: int|
            0 <= k < count ==> {
                &&& #[trigger] self.nal_offsets_checkpoint@[k] == nals_before(
                    frames,
                    checkpoint_frame(frames, k),
                )
            }
        &&& self.ascending ==> times_ascend(frames, self.base_duration)
    }

    pub fn new(vfr: Arc<VfrFile>, base_duration: u64) -> (r: Self)
        requires
            indexable(vfr.frames@),
        ensures
            r.wf(),
            r.vfr == vfr,
            r.base_duration == base_duration,
    {
        let mut offsets: Vec<u64> = Vec::new();
        let mut times: Vec<u64> = Vec::new();
        let mut nals: Vec<u64> = Vec::new();
        let mut acc_off: u64 = 0;
        let mut acc_time: u64 = 0;
        let mut acc_nal: u64 = 0;
        let mut ascending: bool = true;
        let ghost frames = vfr.frames@;
        let mut i: usize = 0;
        assert(time_at(frames, base_duration, 0) == 0);
        while i < vfr.frames.len()
            invariant
                frames == vfr.frames@,
                indexable(frames),
                i <= frames.len(),
                acc_off == size_before(frames, i as nat),
                acc_nal == nals_before(frames, i as nat),
                acc_time == time_at(frames, base_duration, i as nat),
                offsets@.len() == (i + 1023) / 1024,
                times@.len() == (i + 1023) / 1024,
                nals@.len() == (i + 1023) / 1024,
                forall|k: int|
                    0 <= k < offsets@.len() ==> #[trigger] offsets@[k] == size_before(
                        frames,
                        checkpoint_frame(frames, k),
                    ),
                forall|k: int|
                    0 <= k < offsets@.len() ==> #[trigger] times@[k] == time_at(
                        frames,
                        base_duration,
                        checkpoint_frame(frames, k),
                    ),
                forall|k: int|
                    0 <= k < offsets@.len() ==> #[trigger] nals@[k] == nals_before(
                        frames,
                        checkpoint_frame(frames, k),
                    ),
                ascending ==> forall|a: nat, b: nat|
                    a <= b <= i ==> #[trigger] time_at(frames, base_duration, a)
                        <= #[trigger] time_at(frames, base_duration, b),
            decreases frames.len() - i,
        {
            if i % 1024 == 0 {
                assert(checkpoint_frame(frames, offsets@.len() as int) == i);
                offsets.push(acc_off);
                times.push(acc_time);
                nals.push(acc_nal);
            }
            let fr: FrameRecord = vfr.frames[i];
            proof {
                lemma_sums_grow(frames, (i + 1) as nat, frames.len());
                lemma_time_step(frames, base_duration, i as nat);
            }
            acc_off = acc_off + fr.frame_size as u64;
            let next: u64 = step_time(acc_time, base_duration, fr.duration_delta);
            ascending = ascending && acc_time <= next;
            acc_time = next;
            acc_nal = acc_nal + fr.nal_count as u64;
            i = i + 1;
            proof {
                if ascending {
                    assert forall|a: nat, b: nat| a <= b <= i implies #[trigger] time_at(
                        frames,
                        base_duration,
                        a,
                    ) <= #[trigger] time_at(frames, base_duration, b) by {
                        if b == i && a < i {
                            assert(time_at(frames, base_duration, a) <= time_at(
                                frames,
                                base_duration,
                                (i - 1) as nat,
                            ));
                        }
                    }
                }
            }
        }
        // One more checkpoint after the last frame, so that a search has an end.
        assert(checkpoint_frame(frames, offsets@.len() as int) == frames.len());
        offsets.push(acc_off);
        times.push(acc_time);
        nals.push(acc_nal);
        Self {
            vfr,
            base_duration,
            offsets_checkpoint: offsets,
            time_checkpoint: times,
            nal_offsets_checkpoint: nals,
            ascending,
        }
    }

    /// The number of frames, in 32 bits.
    pub fn frame_count(&self) -> (r: u32)
        ensures
            r == self.vfr.frames@.len() as u32,
    {
        self.vfr.frames.len() as u32
    }

    /// Byte offset of the start of `frame_index` inside the raw track file.
    pub fn frame_offset(&self, frame_index: u32) -> (r: u64)
        requires
            self.wf(),
            indexed(self.vfr.frames@, frame_index),
        ensures
            r == size_before(self.vfr.frames@, clip(self.vfr.frames@, frame_index)),
    {
        let ghost frames = self.vfr.frames@;
        let k: usize = (frame_index / 1024) as usize;
        let mut off: u64 = self.offsets_checkpoint[k];
        let mut i: u32 = (frame_index / 1024) * 1024;
        assert(checkpoint_frame(frames, k as int) == clip(frames, i));
        while i < frame_index
            invariant
                self.wf(),
                frames == self.vfr.frames@,
                i < frame_index ==> frame_index <= frames.len(),
                i <= frame_index,
                off == size_before(frames, clip(frames, i)),
            decreases frame_index - i,
        {
            proof {
                lemma_sums_grow(frames, (i + 1) as nat, frames.len());
            }
            off = off + self.vfr.frames[i as usize].frame_size as u64;
            i = i + 1;
        }
        off
    }

    /// Length in bytes of `frame_index` in the raw track file.
    pub fn frame_size(&self, frame_index: u32) -> (r: u32)
        requires
            frame_index < self.vfr.frames@.len(),
        ensures
            r == self.vfr.frames@[frame_index as int].frame_size,
    {
        self.vfr.frames[frame_index as usize].frame_size
    }

    /// Timestamp (start) of `frame_index` in track timebase units, computed as
    /// `sum_{i<frame_index} (base_duration + duration_delta_i)`.
    pub fn frame_time(&self, frame_index: u32) -> (r: u64)
        requires
            self.wf(),
            indexed(self.vfr.frames@, frame_index),
        ensures
            r == time_at(
                self.vfr.frames@,
                self.base_duration,
                clip(self.vfr.frames@, frame_index),
            ),
    {
        let ghost frames = self.vfr.frames@;
        let k: usize = (frame_index / 1024) as usize;
        let mut t: u64 = self.time_checkpoint[k];
        let mut i: u32 = (frame_index / 1024) * 1024;
        assert(checkpoint_frame(frames, k as int) == clip(frames, i));
        while i < frame_index
            invariant
                self.wf(),
                frames == self.vfr.frames@,
                i < frame_index ==> frame_index <= frames.len(),
                i <= frame_index,
                t == time_at(frames, self.base_duration, clip(frames, i)),
            decreases frame_index - i,
        {
            proof {
                lemma_time_step(frames, self.base_duration, i as nat);
            }
            t = step_time(t, self.base_duration, self.vfr.frames[i as usize].duration_delta);
            i = i + 1;
        }
        t
    }

    /// Starting index into `VfrFile::nal_lengths` for `frame_index`.
    pub fn nal_offset(&self, frame_index: u32) -> (r: u64)
        requires
            self.wf(),
            indexed(self.vfr.frames@, frame_index),
        ensures
            r == nals_before(self.vfr.frames@, clip(self.vfr.frames@, frame_index)),
    {
        let ghost frames = self.vfr.frames@;
        let k: usize = (frame_index / 1024) as usize;
        let mut n: u64 = self.nal_offsets_checkpoint[k];
        let mut i: u32 = (frame_index / 1024) * 1024;
        assert(checkpoint_frame(frames, k as int) == clip(frames, i));
        while i < frame_index
            invariant
                self.wf(),
                frames == self.vfr.frames@,
                i < frame_index ==> frame_index <= frames.len(),
                i <= frame_index,
                n == nals_before(frames, clip(frames, i)),
            decreases frame_index - i,
        {
            proof {
                lemma_sums_grow(frames, (i + 1) as nat, frames.len());
            }
            n = n + self.vfr.frames[i as usize].nal_count as u64;
            i = i + 1;
        }
        n
    }

    /// Number of NAL units in `frame_index`.
    pub fn nal_count(&self, frame_index: u32) -> (r: u32)
        requires
            frame_index < self.vfr.frames@.len(),
        ensures
            r == self.vfr.frames@[frame_index as int].nal_count,
    {
        self.vfr.frames[frame_index as usize].nal_count as u32
    }

    /// Returns the slice of NAL lengths corresponding to `frame_index`.
    pub fn nal_lengths_of_frame(&self, frame_index: u32) -> (r: &[u64])
        requires
            self.wf(),
            self@.has_nals(frame_index as int),
        ensures
            r@ == self@.nals_of(frame_index as int),
    {
        let limit: usize = self.vfr.nal_lengths.len();
        let start: usize = self.nal_offset(frame_index) as usize;
        let count: usize = self.nal_count(frame_index) as usize;
        assert(start + count <= limit);
        &self.vfr.nal_lengths.as_slice()[start..start + count]
    }

    /// Whether the file holds the NAL lengths of `frame_index`.
    pub fn has_nal_lengths_of(&self, frame_index: u32) -> (r: bool)
        requires
            self.wf(),
        ensures
            r == self@.has_nals(frame_index as int),
    {
        if frame_index as u64 >= self.vfr.frames.len() as u64 {
            return false;
        }
        let start: u64 = self.nal_offset(frame_index);
        let count: u64 = self.nal_count(frame_index) as u64;
        let total: u64 = self.vfr.nal_lengths.len() as u64;
        start <= total && count <= total - start
    }

    /// Returns the smallest `frame_index` whose start timestamp is `>= ts`, or the
    /// number of frames. Used to bucket frames into clusters.
    pub fn frame_at_time(&self, ts: u64) -> (r: u32)
        requires
            self.wf(),
        ensures
            r == first_from(self.vfr.frames@, self.base_duration, ts, 0) as u32,
    {
        let ghost frames = self.vfr.frames@;
        let frame_count: usize = self.vfr.frames.len();
        let mut i: usize = 0;
        let mut t: u64 = 0;
        assert(time_at(frames, self.base_duration, 0) == 0);
        if self.ascending {
            // The last checkpoint before `ts` starts the block to walk through.
            let cps: &Vec<u64> = &self.time_checkpoint;
            let mut lo: usize = 0;
            let mut hi: usize = cps.len();
            while lo < hi
                invariant
                    self.wf(),
                    self.ascending,
                    frames == self.vfr.frames@,
                    cps@ == self.time_checkpoint@,
                    lo <= hi <= cps@.len(),
                    forall|k: int| 0 <= k < lo ==> #[trigger] cps@[k] < ts,
                decreases hi - lo,
            {
                let mid: usize = lo + (hi - lo) / 2;
                if cps[mid] < ts {
                    proof {
                        assert forall|k: int| 0 <= k < mid + 1 implies #[trigger] cps@[k] < ts by {
                            assert(checkpoint_frame(frames, k) <= checkpoint_frame(
                                frames,
                                mid as int,
                            ));
                            assert(cps@[k] == time_at(
                                frames,
                                self.base_duration,
                                checkpoint_frame(frames, k),
                            ));
                            assert(cps@[mid as int] == time_at(
                                frames,
                                self.base_duration,
                                checkpoint_frame(frames, mid as int),
                            ));
                        }
                    }
                    lo = mid + 1;
                } else {
                    hi = mid;
                }
            }
            if lo > 0 {
                t = cps[lo - 1];
                let block: usize = lo - 1;
                i = if block < frame_count / 1024 + 1 && block * 1024 < frame_count {
                    block * 1024
                } else {
                    frame_count
                };
                assert(i == checkpoint_frame(frames, block as int));
                assert forall|j: nat| 0 <= j < i implies #[trigger] time_at(
                    frames,
                    self.base_duration,
                    j,
                ) < ts by {
                    assert(time_at(frames, self.base_duration, j) <= time_at(
                        frames,
                        self.base_duration,
                        i as nat,
                    ));
                }
                proof {
                    lemma_first_skip(frames, self.base_duration, ts, 0, i as nat);
                }
            }
        }
        while i < frame_count
            invariant
                frames == self.vfr.frames@,
                frame_count == frames.len(),
                i <= frame_count,
                t == time_at(frames, self.base_duration, i as nat),
                first_from(frames, self.base_duration, ts, 0) == first_from(
                    frames,
                    self.base_duration,
                    ts,
                    i as nat,
                ),
            decreases frame_count - i,
        {
            if t >= ts {
                return i as u32;
            }
            proof {
                lemma_time_step(frames, self.base_duration, i as nat);
            }
            t = step_time(t, self.base_duration, self.vfr.frames[i].duration_delta);
            i = i + 1;
        }
        frame_count as u32
    }
}

} // verus!
