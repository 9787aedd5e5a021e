//! Text of tags and metadata values, decoded leniently.
use vstd::prelude::*;

verus! {

/// The text that lossy UTF-8 decoding makes of the bytes `b`.
pub uninterp spec fn lossy_text(b: Seq<u8>) -> Seq<char>;

/// Relies on `String::from_utf8_lossy`: invalid sequences become U+FFFD and
/// decoding never fails; the text depends on the bytes alone.
#[verifier::external_body]
pub(crate) fn lossy_string(b: &[u8]) -> (r: String)
    ensures
        r@ == lossy_text(b@),
{
    String::from_utf8_lossy(b).into_owned()
}

} // verus!
