//! Trusted boundary to the gzip decompressor.
use vstd::prelude::*;

use std::io::Read;

use flate2::read::GzDecoder;

verus! {

/// What gzip decompression yields for a stream that starts at the front of
/// `s`: the inflated bytes, or nothing when the data does not inflate.
pub uninterp spec fn gunzip_of(s: Seq<u8>) -> Option<Seq<u8>>;

/// Relies on flate2's `read::GzDecoder`, read to end of stream: whether the
/// bytes from `offset` on inflate, and to what, is a function of those
/// bytes alone.
#[verifier::external_body]
pub(crate) fn gunzip_from(data: &[u8], offset: usize) -> (r: Option<Vec<u8>>)
    requires
        offset <= data@.len(),
    ensures
        (match r {
            Some(v) => gunzip_of(data@.skip(offset as int)) == Some(v@),
            None => gunzip_of(data@.skip(offset as int)) is None,
        }),
{
    let mut decoder = GzDecoder::new(&data[offset..]);
    let mut inflated = Vec::new();
    match decoder.read_to_end(&mut inflated) {
        Ok(_) => Some(inflated),
        Err(_) => None,
    }
}

} // verus!
