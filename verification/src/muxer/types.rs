//! Errors, byte sources and availability.
use crate::binstruct::TrackPolicy;
use crate::vfr::VfrFile;
use std::sync::Arc;
use std::time::Duration;
use vstd::prelude::*;

verus! {

/// Why a virtual file could not be planned or read.
#[derive(Debug, Clone, PartialEq, Eq)]
pub enum MuxerError {
    Io(String),
    OutOfBounds { offset: u64, len: u64, total: u64 },
    /// The download state is shutting down.
    Shutdown,
    MissingTrack(u32),
    InvalidBitstream(String),
    InvalidBinstruct(String),
}

/// [`MuxerError`] with sequences for strings.
pub ghost enum MuxerFault {
    Io(Seq<char>),
    OutOfBounds { offset: u64, len: u64, total: u64 },
    Shutdown,
    MissingTrack(u32),
    InvalidBitstream(Seq<char>),
    InvalidBinstruct(Seq<char>),
}

impl View for MuxerError {
    type V = MuxerFault;

    open spec fn view(&self) -> MuxerFault {
        match self {
            MuxerError::Io(s) => MuxerFault::Io(s@),
            MuxerError::OutOfBounds { offset, len, total } => MuxerFault::OutOfBounds {
                offset: *offset,
                len: *len,
                total: *total,
            },
            MuxerError::Shutdown => MuxerFault::Shutdown,
            MuxerError::MissingTrack(t) => MuxerFault::MissingTrack(*t),
            MuxerError::InvalidBitstream(s) => MuxerFault::InvalidBitstream(s@),
            MuxerError::InvalidBinstruct(s) => MuxerFault::InvalidBinstruct(s@),
        }
    }
}

/// Blocking policy used when consulting a [`DownloadState`].
#[derive(Clone, Copy, Debug, PartialEq, Eq)]
pub enum ReadPolicy {
    /// Block forever until the data is available.
    Block,
    /// Block until available or the timeout elapses.
    Timeout(Duration),
    /// Never block; return immediately.
    NonBlock,
}

/// Reports whether bytes of a raw track file are present on disk.
///
/// The three spec functions tell what a wait may come to. By default anything may happen;
/// an implementation that tells more narrows the answers of its methods.
pub trait DownloadState: Send + Sync {
    /// Whether a wait for the range `[offset, offset+len)` of the raw file of `track_id`
    /// may find it there.
    open spec fn held(&self, track_id: u32, offset: u64, len: u32) -> bool {
        true
    }

    /// Whether a wait for the range under `policy` may end without it.
    open spec fn lacks(&self, track_id: u32, offset: u64, len: u32, policy: ReadPolicy) -> bool {
        true
    }

    /// Whether a wait may be cut off.
    open spec fn stopping(&self) -> bool {
        true
    }

    /// Returns true if the range `[offset, offset+len)` of the raw file of
    /// `track_id` is fully available locally.
    fn is_available(&self, track_id: u32, offset: u64, len: u32) -> (r: bool)
        ensures
            r ==> self.held(track_id, offset, len),
            !r ==> self.lacks(track_id, offset, len, ReadPolicy::NonBlock),
    ;

    /// Blocks until the range is available or the policy elapses.
    /// `Ok(true)` = available, `Ok(false)` = timeout / non-block miss, `Err` = shutdown.
    fn wait_for(&self, track_id: u32, offset: u64, len: u32, policy: ReadPolicy) -> (r: Result<
        bool,
        MuxerError,
    >)
        ensures
            r == Ok::<bool, MuxerError>(true) ==> self.held(track_id, offset, len),
            r == Ok::<bool, MuxerError>(false) ==> self.lacks(track_id, offset, len, policy),
            policy == ReadPolicy::Block ==> r != Ok::<bool, MuxerError>(false),
            r is Err ==> self.stopping(),
    ;
}

/// Mock implementation: every byte is always available.
pub struct FullyAvailable;

impl DownloadState for FullyAvailable {
    open spec fn held(&self, _track_id: u32, _offset: u64, _len: u32) -> bool {
        true
    }

    open spec fn lacks(
        &self,
        _track_id: u32,
        _offset: u64,
        _len: u32,
        _policy: ReadPolicy,
    ) -> bool {
        false
    }

    open spec fn stopping(&self) -> bool {
        false
    }

    fn is_available(&self, _track_id: u32, _offset: u64, _len: u32) -> (r: bool) {
        true
    }

    fn wait_for(&self, _track_id: u32, _offset: u64, _len: u32, _policy: ReadPolicy) -> (r: Result<
        bool,
        MuxerError,
    >) {
        Ok(true)
    }
}

/// Byte source for the raw payload of a track.
pub trait RawFile: Send + Sync {
    /// The bytes of the file. Where an implementation does not tell, they are some
    /// function of the file of which nothing is known.
    open spec fn content(&self) -> Seq<u8> {
        arbitrary::<spec_fn(&Self) -> Seq<u8>>()(self)
    }

    /// Whether no read of the file fails.
    open spec fn reliable(&self) -> bool {
        false
    }

    /// Read up to `buf.len()` bytes starting at `offset`. Returns the number
    /// of bytes actually written into `buf` (zero only at the end of the file or
    /// for an empty `buf`).
    fn read_at(&self, offset: u64, buf: &mut [u8]) -> (r: Result<usize, MuxerError>)
        ensures
            final(buf)@.len() == old(buf)@.len(),
            self.reliable() ==> r is Ok,
            r matches Ok(n) ==> {
                &&& n <= old(buf)@.len()
                &&& n > 0 ==> offset + n <= self.content().len() && offset + n <= u64::MAX
                &&& n == 0 ==> old(buf)@.len() == 0 || offset >= self.content().len()
                &&& forall|k: int| 0 <= k < n ==> final(buf)@[k] == self.content()[offset + k]
                &&& forall|k: int| n <= k < old(buf)@.len() ==> final(buf)@[k] == old(buf)@[k]
            },
    ;

    /// Total size of the underlying raw track file.
    fn size(&self) -> (r: u64)
        ensures
            r == self.content().len(),
    ;
}

/// In-memory [`RawFile`] for tests / synthetic data.
pub struct MemRawFile {
    data: Vec<u8>,
}

impl MemRawFile {
    pub fn new(data: Vec<u8>) -> (r: Self)
        ensures
            r.content() == data@,
    {
        Self { data }
    }
}

impl RawFile for MemRawFile {
    closed spec fn content(&self) -> Seq<u8> {
        self.data@
    }

    open spec fn reliable(&self) -> bool {
        true
    }

    fn read_at(&self, offset: u64, buf: &mut [u8]) -> (r: Result<usize, MuxerError>) {
        if offset >= self.data.len() as u64 {
            return Ok(0);
        }
        let start: usize = offset as usize;
        let left: usize = self.data.len() - start;
        let n: usize = if buf.len() < left {
            buf.len()
        } else {
            left
        };
        let mut i: usize = 0;
        while i < n
            invariant
                i <= n <= buf@.len(),
                buf@.len() == old(buf)@.len(),
                start + n <= self.data@.len() <= usize::MAX,
                forall|k: int| 0 <= k < i ==> buf@[k] == self.data@[start + k],
                forall|k: int| i <= k < buf@.len() ==> buf@[k] == old(buf)@[k],
            decreases n - i,
        {
            buf[i] = self.data[start + i];
            i = i + 1;
        }
        Ok(n)
    }

    fn size(&self) -> (r: u64) {
        self.data.len() as u64
    }
}

/// Per-track byte source plus optional VFR index plus its policy.
pub struct TrackSource {
    pub track_id: u32,
    pub raw_file: Arc<dyn RawFile>,
    /// `None` for CBR audio; `Some` for VBR audio and all video tracks.
    pub vfr: Option<Arc<VfrFile>>,
    pub policy: TrackPolicy,
}

} // verus!
