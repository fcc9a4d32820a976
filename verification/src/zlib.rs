//! Decompression of zlib streams.

use flate2::read::ZlibDecoder;
use vstd::prelude::*;

verus! {

/// What `compressed` inflates to, or `None` where it does not start with a whole, sound zlib
/// stream. Bytes behind that stream are ignored.
pub uninterp spec fn zlib_inflated(compressed: Seq<u8>) -> Option<Seq<u8>>;

/// Calls `flate2::read::ZlibDecoder` on the bytes and reads it to its end with
/// `std::io::Read::read_to_end`.
///
/// Trusted: whether this succeeds, and with which bytes, depends on the given bytes alone, so that
/// it can be named. Nothing is said of which error comes, and, as everywhere else, nothing of a
/// machine that runs out of memory.
#[verifier::external_body]
pub(crate) fn inflate_zlib(compressed: &[u8]) -> (inflated: Result<Vec<u8>, std::io::Error>)
    ensures
        inflated matches Ok(payload) ==> zlib_inflated(compressed@) == Some(payload@),
        inflated is Err ==> zlib_inflated(compressed@) is None,
{
    let mut decoder = ZlibDecoder::new(compressed);
    let mut payload = Vec::new();
    std::io::Read::read_to_end(&mut decoder, &mut payload)?;
    Ok(payload)
}

} // verus!
