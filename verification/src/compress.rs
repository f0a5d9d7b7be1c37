//! Zstandard compression.
use vstd::prelude::*;

verus! {

/// What `zstd::encode_all` makes of `data` at a level: a frame, or the text of its error.
pub uninterp spec fn zstd_encoded(data: Seq<u8>, level: i32) -> Result<Seq<u8>, Seq<char>>;

/// What `zstd::decode_all` makes of `data`: the content, or the text of its error.
pub uninterp spec fn zstd_decoded(data: Seq<u8>) -> Result<Seq<u8>, Seq<char>>;

/// The four bytes that a Zstandard frame begins with.
pub open spec fn zstd_magic() -> Seq<u8> {
    seq![0x28u8, 0xB5u8, 0x2Fu8, 0xFDu8]
}

/// Whether `data` begins like a Zstandard frame.
pub open spec fn is_zstd(data: Seq<u8>) -> bool {
    data.len() >= 4 && data.take(4) == zstd_magic()
}

/// `zstd::encode_all`: compresses `data` into one frame. The frame begins with the
/// magic number, and `zstd::decode_all` gives `data` back for it.
#[verifier::external_body]
pub(crate) fn encode_all(data: &[u8], level: i32) -> (r: Result<Vec<u8>, String>)
    ensures
        match r {
            Ok(v) => {
                &&& zstd_encoded(data@, level) == Ok::<Seq<u8>, Seq<char>>(v@)
                &&& is_zstd(v@)
                &&& zstd_decoded(v@) == Ok::<Seq<u8>, Seq<char>>(data@)
            },
            Err(e) => zstd_encoded(data@, level) == Err::<Seq<u8>, Seq<char>>(e@),
        },
{
    zstd::encode_all(data, level).map_err(|e| e.to_string())
}

/// `zstd::decode_all`: the content of the frames in `data`.
#[verifier::external_body]
pub(crate) fn decode_all(data: &[u8]) -> (r: Result<Vec<u8>, String>)
    ensures
        match r {
            Ok(v) => zstd_decoded(data@) == Ok::<Seq<u8>, Seq<char>>(v@),
            Err(e) => zstd_decoded(data@) == Err::<Seq<u8>, Seq<char>>(e@),
        },
{
    zstd::decode_all(data).map_err(|e| e.to_string())
}

} // verus!
