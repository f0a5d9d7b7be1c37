//! SHA-256.
use crate::muxer::materializer::fill;
use crate::muxer::types::{MuxerError, RawFile};
use sha2::{Digest, Sha256};
use vstd::prelude::*;

verus! {

/// `sha2::Sha256`, a hasher that takes its input piece by piece.
#[verifier::external_type_specification]
#[verifier::external_body]
pub struct ExSha256(sha2::Sha256);

/// The bytes that a hasher holds: those that it was given, in order.
pub uninterp spec fn hasher_input(h: sha2::Sha256) -> Seq<u8>;

/// The SHA-256 digest of bytes.
pub uninterp spec fn sha256_of(data: Seq<u8>) -> Seq<u8>;

/// `Sha256::new`: a hasher that was given nothing.
#[verifier::external_body]
fn new_hasher() -> (r: Sha256)
    ensures
        hasher_input(r) == Seq::<u8>::empty(),
{
    Sha256::new()
}

/// `Sha256::update`: gives the hasher more bytes.
#[verifier::external_body]
fn update_hasher(h: &mut Sha256, data: &[u8])
    ensures
        hasher_input(*final(h)) == hasher_input(*old(h)) + data@,
{
    h.update(data)
}

/// `Sha256::finalize`: the digest of what the hasher was given, however it was cut.
#[verifier::external_body]
fn finish_hasher(h: Sha256) -> (r: [u8; 32])
    ensures
        r@ == sha256_of(hasher_input(h)),
{
    h.finalize().into()
}

/// The SHA-256 digest of a file with this content.
pub open spec fn file_digest(content: Seq<u8>) -> Seq<u8> {
    sha256_of(content)
}

/// A file has the digest of all its bytes.
pub proof fn file_digest_is_that_of_all_bytes(content: Seq<u8>)
    ensures
        file_digest(content) == sha256_of(content),
{
}

/// The SHA-256 digest of a file.
pub fn sha256_file<R: RawFile + ?Sized>(file: &R) -> (r: Result<[u8; 32], MuxerError>)
    ensures
        file.reliable() ==> r is Ok,
        r matches Ok(h) ==> h@ == file_digest(file.content()),
{
    let ghost c = file.content();
    let size: u64 = file.size();
    let mut hasher: Sha256 = new_hasher();
    let mut pos: u64 = 0;
    assert(c.take(0) =~= Seq::<u8>::empty());
    while pos < size
        invariant
            c == file.content(),
            size == c.len(),
            pos <= size,
            hasher_input(hasher) == c.take(pos as int),
        decreases size - pos,
    {
        let left: u64 = size - pos;
        let step: usize = if left < 65536 {
            left as usize
        } else {
            65536
        };
        match fill(file, pos, step) {
            Err(e) => return Err(e),
            Ok((buf, filled)) => {
                assert(filled == step);
                update_hasher(&mut hasher, &buf);
                proof {
                    assert(c.take(pos as int) + buf@ =~= c.take(pos + step));
                }
                pos = pos + step as u64;
            },
        }
    }
    assert(c.take(pos as int) =~= c);
    Ok(finish_hasher(hasher))
}

} // verus!
