//! The text form in which batches of operations and the users and groups of
//! a manager travel: their bytes as URL-safe base64 without padding.

use vstd::prelude::*;
use base64::prelude::BASE64_URL_SAFE_NO_PAD;
use base64::Engine;
use crate::errors::error_with_message;

verus! {

/// The bytes that `BASE64_URL_SAFE_NO_PAD.decode` gives for the text `text`,
/// or nothing where `text` is not URL-safe base64 without padding.
pub uninterp spec fn url_safe_decoded(text: Seq<char>) -> Option<Seq<u8>>;

/// The text that `BASE64_URL_SAFE_NO_PAD.encode` gives for `bytes`.
pub uninterp spec fn url_safe_encoded(bytes: Seq<u8>) -> Seq<char>;

/// The length of URL-safe base64 without padding for `n` bytes: four
/// characters for each whole group of three bytes, then two for one byte
/// left over or three for two.
pub open spec fn unpadded_len(n: nat) -> nat {
    (n / 3) * 4 + if n % 3 == 0 { 0nat } else if n % 3 == 1 { 2nat } else { 3nat }
}

/// `Engine::decode` of `BASE64_URL_SAFE_NO_PAD`: the decoded bytes, or
/// `None` where it returns an error. The result is named by
/// `url_safe_decoded`, a function of the text alone.
#[verifier::external_body]
fn decode_url_safe(text: &str) -> (r: Option<Vec<u8>>)
    ensures
        match r {
            Some(b) => url_safe_decoded(text@) == Some(b@),
            None => url_safe_decoded(text@) is None,
        },
{
    BASE64_URL_SAFE_NO_PAD.decode(text).ok()
}

/// `Engine::encode` of `BASE64_URL_SAFE_NO_PAD`: the text, named by
/// `url_safe_encoded`, whose length is `unpadded_len` of the input's (as
/// `encoded_len` computes it). It panics where that length overflows, so
/// the input is bounded.
#[verifier::external_body]
fn encode_url_safe(bytes: &[u8]) -> (r: String)
    requires
        bytes@.len() / 3 * 4 + 3 <= usize::MAX,
    ensures
        r@ == url_safe_encoded(bytes@),
        r@.len() == unpadded_len(bytes@.len()),
{
    BASE64_URL_SAFE_NO_PAD.encode(bytes)
}

/// The bytes that the text form `text` stands for; an error exactly where
/// `text` is not URL-safe base64 without padding.
pub fn bytes_from_text(text: &str) -> (r: Result<Vec<u8>, anyhow::Error>)
    ensures
        r is Ok <==> url_safe_decoded(text@) is Some,
        r is Ok ==> url_safe_decoded(text@) == Some(r->Ok_0@),
{
    match decode_url_safe(text) {
        Some(bytes) => Ok(bytes),
        None => Err(error_with_message("invalid base64 text")),
    }
}

/// The text form of `bytes`: URL-safe base64 without padding.
pub fn text_from_bytes(bytes: &[u8]) -> (r: String)
    requires
        bytes@.len() / 3 * 4 + 3 <= usize::MAX,
    ensures
        r@ == url_safe_encoded(bytes@),
        r@.len() == unpadded_len(bytes@.len()),
{
    encode_url_safe(bytes)
}

} // verus!
