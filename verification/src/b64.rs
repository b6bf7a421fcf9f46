//! Trusted boundary to the base64 encoder used for the transfer encoding.
use vstd::prelude::*;

use base64::Engine;

verus! {

/// The standard padded base64 text of the bytes `s`.
pub uninterp spec fn base64_of(s: Seq<u8>) -> Seq<char>;

/// Relies on base64's `Engine::encode` with the standard padded engine: the
/// text is a function of the bytes alone, four characters for every three
/// bytes, rounded up.  The length bound keeps the encoder's own output-size
/// computation from overflowing.
#[verifier::external_body]
pub(crate) fn base64_encode(data: &[u8]) -> (r: String)
    requires
        ((data@.len() + 2) / 3) * 4 <= usize::MAX,
    ensures
        r@ == base64_of(data@),
        r@.len() == ((data@.len() + 2) / 3) * 4,
{
    base64::engine::general_purpose::STANDARD.encode(data)
}

} // verus!
