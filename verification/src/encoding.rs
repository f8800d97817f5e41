//! The content digest on the wire: URL-safe base64 without padding, as
//! the `base64` crate writes and reads it.

use base64::Engine;
use vstd::prelude::*;

verus! {

/// What `base64::engine::general_purpose::URL_SAFE_NO_PAD.encode` writes
/// for `bytes`.
pub uninterp spec fn base64url_text(bytes: Seq<u8>) -> Seq<char>;

/// What `base64::engine::general_purpose::URL_SAFE_NO_PAD.decode` makes
/// of `text`: the decoded bytes, or none when the crate reports a
/// `DecodeError`.
pub uninterp spec fn base64url_bytes(text: Seq<char>) -> Option<Seq<u8>>;

/// A character of the URL-safe base64 alphabet: `A`-`Z`, `a`-`z`,
/// `0`-`9`, `-` and `_`.
pub open spec fn url_safe_char(c: char) -> bool {
    ('A' <= c && c <= 'Z') || ('a' <= c && c <= 'z') || ('0' <= c && c <= '9') || c == '-' || c
        == '_'
}

/// Encodes a digest with `URL_SAFE_NO_PAD.encode`; named by
/// `base64url_text`. The engine writes only characters of its alphabet
/// (no padding), and its `decode` reads the text back as the same bytes.
#[verifier::external_body]
pub(crate) fn encode_digest(bytes: &[u8; 32]) -> (r: Vec<char>)
    ensures
        r@ == base64url_text(bytes@),
        forall|i: int| 0 <= i < r@.len() ==> url_safe_char(#[trigger] r@[i]),
        base64url_bytes(r@) == Some(bytes@),
{
    base64::engine::general_purpose::URL_SAFE_NO_PAD.encode(bytes).chars().collect()
}

/// Decodes text with `URL_SAFE_NO_PAD.decode`, its `DecodeError` made
/// `None`; named by `base64url_bytes`.
#[verifier::external_body]
pub(crate) fn decode_base64url(text: &Vec<char>) -> (r: Option<Vec<u8>>)
    ensures
        r matches Some(b) ==> base64url_bytes(text@) == Some(b@),
        r is None ==> base64url_bytes(text@) is None,
{
    let s: String = text.iter().collect();
    match base64::engine::general_purpose::URL_SAFE_NO_PAD.decode(s) {
        Ok(b) => Some(b),
        Err(_) => None,
    }
}

} // verus!
