//! Reading raw frames, as far as they have been downloaded.
use crate::muxer::types::{DownloadState, MuxerError, MuxerFault, RawFile, ReadPolicy, TrackSource};
use crate::muxer::vfr_index::{size_before, IndexModel, LazyVfrIndex};
use crate::text::{decimal, push_decimal};
use vstd::prelude::*;
use vstd::string::*;

verus! {

/// The frames that an index tells about.
pub open spec fn index_model(idx: Option<&LazyVfrIndex>) -> Option<IndexModel> {
    match idx {
        Some(x) => Some(x@),
        None => None,
    }
}

/// Whether the place of frame `i` can be computed: the index holds the frame, or
/// there is no index and the product of frame number and size fits.
pub open spec fn placeable(cbr: Option<u64>, index: Option<IndexModel>, i: u32) -> bool {
    match index {
        Some(x) => i < x.frames.len(),
        None => cbr matches Some(c) ==> i * c <= u64::MAX,
    }
}

pub open spec fn no_frame_size(track_id: u32) -> MuxerFault {
    MuxerFault::InvalidBinstruct(
        "track "@ + decimal(track_id as nat) + " marked CBR but missing cbr_frame_size"@,
    )
}

/// Offset and length of frame `i` in a raw file: from the index, or from the one
/// size that all frames have.
pub open spec fn frame_place(
    cbr: Option<u64>,
    index: Option<IndexModel>,
    track_id: u32,
    i: u32,
) -> Result<(u64, u32), MuxerFault> {
    match index {
        Some(x) => Ok(
            (size_before(x.frames, i as nat) as u64, x.frames[i as int].frame_size),
        ),
        None => match cbr {
            Some(c) => Ok(((i * c) as u64, c as u32)),
            None => Err(no_frame_size(track_id)),
        },
    }
}

pub open spec fn short_read(len: u32, got: nat, track_id: u32, i: u32) -> MuxerFault {
    MuxerFault::Io(
        "short read: expected "@ + decimal(len as nat) + " got "@ + decimal(got) + " for track "@
            + decimal(track_id as nat) + " frame "@ + decimal(i as nat),
    )
}

/// The bytes of a frame in the content of a raw file, or the error for a file that
/// ends before the frame does.
pub open spec fn raw_frame(
    content: Seq<u8>,
    offset: u64,
    len: u32,
    track_id: u32,
    i: u32,
) -> Result<Seq<u8>, MuxerFault> {
    if len == 0 {
        Ok(Seq::empty())
    } else if offset + len <= content.len() {
        Ok(content.subrange(offset as int, offset + len))
    } else if offset <= content.len() {
        Err(short_read(len, (content.len() - offset) as nat, track_id, i))
    } else {
        Err(short_read(len, 0, track_id, i))
    }
}

/// Outcome of [`materialize_frame`].
pub enum MaterializedFrame {
    Bytes(Vec<u8>),
    /// The raw bytes are not yet on disk (timeout/non-block).
    Unavailable { frame_offset: u64, frame_len: u32 },
}

/// Computes `(frame_offset, frame_len)` in the raw track file.
pub fn compute_offset_and_len(
    source: &TrackSource,
    frame_index: u32,
    vfr_index: Option<&LazyVfrIndex>,
) -> (r: Result<(u64, u32), MuxerError>)
    requires
        vfr_index matches Some(x) ==> x.wf(),
        placeable(source.policy.cbr_frame_size, index_model(vfr_index), frame_index),
    ensures
        match frame_place(
            source.policy.cbr_frame_size,
            index_model(vfr_index),
            source.track_id,
            frame_index,
        ) {
            Ok(p) => r == Ok::<(u64, u32), MuxerError>(p),
            Err(fault) => r matches Err(e) && e@ == fault,
        },
{
    match vfr_index {
        Some(idx) => Ok((idx.frame_offset(frame_index), idx.frame_size(frame_index))),
        None => match source.policy.cbr_frame_size {
            Some(cbr) => Ok((frame_index as u64 * cbr, cbr as u32)),
            None => {
                let mut s: String = "track ".to_owned();
                push_decimal(&mut s, source.track_id as u128);
                s.append(" marked CBR but missing cbr_frame_size");
                Err(MuxerError::InvalidBinstruct(s))
            },
        },
    }
}

/// Reads `size` bytes of `file` from `offset` on, or up to its end; gives the buffer
/// and how much of it was filled.
pub(crate) fn fill<R: RawFile + ?Sized>(file: &R, offset: u64, size: usize) -> (r: Result<
    (Vec<u8>, usize),
    MuxerError,
>)
    ensures
        file.reliable() ==> r is Ok,
        r matches Ok((buf, filled)) ==> {
            &&& buf@.len() == size
            &&& filled <= size
            &&& filled > 0 ==> offset + filled <= file.content().len()
            &&& filled < size ==> offset + filled >= file.content().len()
            &&& forall|k: int| 0 <= k < filled ==> buf@[k] == file.content()[offset + k]
        },
{
    let mut buf: Vec<u8> = vec![0u8; size];
    let mut filled: usize = 0;
    while filled < size
        invariant
            buf@.len() == size,
            filled <= size,
            filled > 0 ==> offset + filled <= file.content().len() && offset + filled <= u64::MAX,
            forall|k: int| 0 <= k < filled ==> buf@[k] == file.content()[offset + k],
        ensures
            buf@.len() == size,
            filled <= size,
            filled > 0 ==> offset + filled <= file.content().len(),
            filled < size ==> offset + filled >= file.content().len(),
            forall|k: int| 0 <= k < filled ==> buf@[k] == file.content()[offset + k],
        decreases size - filled,
    {
        let ghost before = buf@;
        let at: u64 = offset + filled as u64;
        let (_, tail): (&mut [u8], &mut [u8]) = buf.as_mut_slice().split_at_mut(filled);
        let got: Result<usize, MuxerError> = file.read_at(at, tail);
        match got {
            Err(e) => return Err(e),
            Ok(n) => {
                proof {
                    assert forall|k: int| 0 <= k < filled + n implies buf@[k]
                        == file.content()[offset + k] by {
                        if k < filled {
                            assert(buf@[k] == before[k]);
                        } else {
                            assert(buf@[k] == file.content()[at + (k - filled)]);
                        }
                    }
                }
                if n == 0 {
                    break ;
                }
                filled = filled + n;
            },
        }
    }
    Ok((buf, filled))
}

/// What a frame gives once the wait for its bytes has ended: nothing yet where they are
/// missing, else its raw bytes.
pub fn frame_after_wait(
    source: &TrackSource,
    frame_index: u32,
    frame_offset: u64,
    frame_len: u32,
    waited: Result<bool, MuxerError>,
) -> (r: Result<MaterializedFrame, MuxerError>)
    ensures
        match waited {
            Err(e) => r == Err::<MaterializedFrame, MuxerError>(e),
            Ok(false) => r == Ok::<MaterializedFrame, MuxerError>(
                MaterializedFrame::Unavailable { frame_offset, frame_len },
            ),
            Ok(true) => {
                let raw = raw_frame(
                    source.raw_file.content(),
                    frame_offset,
                    frame_len,
                    source.track_id,
                    frame_index,
                );
                &&& r matches Ok(f) ==> (f matches MaterializedFrame::Bytes(b) && raw == Ok::<
                    Seq<u8>,
                    MuxerFault,
                >(b@))
                &&& source.raw_file.reliable() ==> (r matches Err(e) ==> raw == Err::<
                    Seq<u8>,
                    MuxerFault,
                >(e@))
            },
        },
{
    let available: bool = match waited {
        Ok(b) => b,
        Err(e) => return Err(e),
    };
    if !available {
        return Ok(MaterializedFrame::Unavailable { frame_offset, frame_len });
    }
    match fill(&*source.raw_file, frame_offset, frame_len as usize) {
        Err(e) => Err(e),
        Ok((buf, filled)) => {
            if filled != frame_len as usize {
                let mut s: String = "short read: expected ".to_owned();
                push_decimal(&mut s, frame_len as u128);
                s.append(" got ");
                push_decimal(&mut s, filled as u128);
                s.append(" for track ");
                push_decimal(&mut s, source.track_id as u128);
                s.append(" frame ");
                push_decimal(&mut s, frame_index as u128);
                return Err(MuxerError::Io(s));
            }
            proof {
                let content = source.raw_file.content();
                if frame_len > 0 {
                    assert(buf@ =~= content.subrange(
                        frame_offset as int,
                        frame_offset + frame_len,
                    ));
                } else {
                    assert(buf@ =~= Seq::<u8>::empty());
                }
            }
            Ok(MaterializedFrame::Bytes(buf))
        },
    }
}

/// Read the raw bytes of `frame_index` from `source.raw_file`, respecting the
/// download state policy.
///
/// `Unavailable` tells of a timeout or a non-block miss: callers must treat the
/// frame as not yet available and emit zero-padding of the correct length.
pub fn materialize_frame<D: DownloadState + ?Sized>(
    source: &TrackSource,
    frame_index: u32,
    vfr_index: Option<&LazyVfrIndex>,
    download: &D,
    policy: ReadPolicy,
) -> (r: Result<MaterializedFrame, MuxerError>)
    requires
        vfr_index matches Some(x) ==> x.wf(),
        placeable(source.policy.cbr_frame_size, index_model(vfr_index), frame_index),
    ensures
        match frame_place(
            source.policy.cbr_frame_size,
            index_model(vfr_index),
            source.track_id,
            frame_index,
        ) {
            Err(fault) => r matches Err(e) && e@ == fault,
            Ok((offset, len)) => {
                let raw = raw_frame(
                    source.raw_file.content(),
                    offset,
                    len,
                    source.track_id,
                    frame_index,
                );
                match r {
                    Ok(MaterializedFrame::Bytes(b)) => raw == Ok::<Seq<u8>, MuxerFault>(b@)
                        && download.held(source.track_id, offset, len),
                    Ok(MaterializedFrame::Unavailable { frame_offset, frame_len }) => {
                        &&& frame_offset == offset
                        &&& frame_len == len
                        &&& download.lacks(source.track_id, offset, len, policy)
                        &&& policy != ReadPolicy::Block
                    },
                    Err(e) => download.stopping() || (download.held(source.track_id, offset, len)
                        && (source.raw_file.reliable() ==> raw == Err::<Seq<u8>, MuxerFault>(e@))),
                }
            },
        },
{
    let (frame_offset, frame_len): (u64, u32) = match compute_offset_and_len(
        source,
        frame_index,
        vfr_index,
    ) {
        Ok(p) => p,
        Err(e) => return Err(e),
    };
    let waited: Result<bool, MuxerError> = download.wait_for(
        source.track_id,
        frame_offset,
        frame_len,
        policy,
    );
    frame_after_wait(source, frame_index, frame_offset, frame_len, waited)
}

} // verus!
