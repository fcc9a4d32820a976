//! Decoding of texts in GBK.

use vstd::prelude::*;

verus! {

/// Whether every byte is ASCII.
pub open spec fn is_ascii_bytes(bytes: Seq<u8>) -> bool {
    forall|i: int| 0 <= i < bytes.len() ==> #[trigger] bytes[i] < 0x80
}

/// The characters that ASCII bytes stand for.
pub open spec fn ascii_text(bytes: Seq<u8>) -> Seq<char> {
    Seq::new(bytes.len(), |i: int| bytes[i] as char)
}

/// The text that `bytes` decode to, and whether a part of them was malformed.
///
/// A byte order mark in front overrides the encoding and is left out of the text.
pub uninterp spec fn gbk_decoded(bytes: Seq<u8>) -> (Seq<char>, bool);

/// Calls `encoding_rs::Encoding::decode` on `encoding_rs::GBK`, and makes the text an owned one.
///
/// Trusted: the text and the flag for malformed bytes depend on the bytes alone, so that they can
/// be named; and bytes that are all ASCII decode to the same characters, without an error. The
/// call panics where the size of its buffer overflows, which so few bytes cannot cause.
#[verifier::external_body]
pub(crate) fn decode_gbk(bytes: &[u8]) -> (decoded: (String, bool))
    requires
        bytes@.len() <= u16::MAX,
    ensures
        (decoded.0@, decoded.1) == gbk_decoded(bytes@),
        is_ascii_bytes(bytes@) ==> decoded.0@ == ascii_text(bytes@) && !decoded.1,
{
    let (text, _, had_errors) = encoding_rs::GBK.decode(bytes);
    (text.into_owned(), had_errors)
}

} // verus!
