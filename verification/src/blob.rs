//! Decoding pasted image blobs: a data-URL-style string whose payload
//! after the last comma is base64.

use vstd::prelude::*;

use crate::text::{after_last, last_index_of};
use base64::Engine;

verus! {

/// What base64 decoding with the standard alphabet and padding yields
/// for a string: a function of the characters alone, `None` where the
/// input is not valid base64.  Named here, not spelled out.
pub uninterp spec fn base64_decoded(s: Seq<char>) -> Option<Seq<u8>>;

/// Relies on base64's `Engine::decode` with the `STANDARD` engine
/// (standard alphabet, padding required): the result is a function of
/// the input characters alone, and invalid input is refused.
#[verifier::external_body]
fn base64_decode(data: &str) -> (r: Option<Vec<u8>>)
    ensures
        r is Some <==> base64_decoded(data@) is Some,
        r is Some ==> r->0@ == base64_decoded(data@)->0,
{
    match base64::engine::general_purpose::STANDARD.decode(data) {
        Ok(v) => Some(v),
        Err(_) => None,
    }
}

/// The payload of a blob string: what follows the last comma, or the
/// whole string where no comma occurs (as in a `data:` URL, whose
/// base64 payload follows the header's comma).
pub open spec fn blob_payload(s: Seq<char>) -> Seq<char> {
    s.subrange(last_index_of(s, ',') + 1, s.len() as int)
}

/// The bytes a pasted blob decodes to: the payload after the last
/// comma, base64-decoded; `None` where that payload is not valid
/// base64.
pub fn decode_blob_payload(blob: &str) -> (r: Option<Vec<u8>>)
    ensures
        r is Some <==> base64_decoded(blob_payload(blob@)) is Some,
        r is Some ==> r->0@ == base64_decoded(blob_payload(blob@))->0,
{
    let n = blob.unicode_len();
    let start = after_last(blob, ',');
    let payload = blob.substring_char(start, n);
    proof {
        assert(payload@ == blob_payload(blob@));
    }
    base64_decode(payload)
}

} // verus!
