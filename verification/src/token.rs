//! Minting of opaque bearer credentials.
//!
//! A credential is 32 bytes of thread-local randomness, printed as URL-safe
//! base64 without padding; a device identity is a fresh random UUID.  The
//! draws themselves are outside calls; everything downstream treats the
//! results as opaque strings of known length.

use vstd::prelude::*;

verus! {

/// What base64's URL-safe unpadded engine prints for a byte sequence; the
/// encoding depends on the input bytes alone.
pub uninterp spec fn b64url_of(bytes: Seq<u8>) -> Seq<char>;

/// Length in characters of every credential `generate_token` mints:
/// 32 bytes of entropy, four base64 characters for every three bytes.
pub const TOKEN_LEN: usize = 43;

/// Relies on rand: `rand::random::<[u8; 32]>()` draws 32 bytes from the
/// thread-local generator.  Nothing is promised of the values themselves.
#[verifier::external_body]
fn random_bytes_32() -> (r: Vec<u8>)
    ensures
        r@.len() == 32,
{
    rand::random::<[u8; 32]>().to_vec()
}

/// Relies on base64: `Engine::encode` with the `URL_SAFE_NO_PAD` engine
/// prints unpadded URL-safe base64, a pure function of the input bytes;
/// its `encoded_len` documents the output length as `4 * (n / 3)` plus
/// 0, 2 or 3 characters for a remainder of 0, 1 or 2 bytes, which is
/// `(4 * n + 2) / 3` throughout.
#[verifier::external_body]
fn b64url_no_pad(bytes: &Vec<u8>) -> (r: String)
    ensures
        r@ == b64url_of(bytes@),
        r@.len() == (bytes@.len() * 4 + 2) / 3,
{
    base64::Engine::encode(&base64::engine::general_purpose::URL_SAFE_NO_PAD, bytes)
}

/// Relies on uuid: `Uuid::new_v4()` draws a fresh random UUID and
/// `to_string` prints it in the lowercase hyphenated form, which is
/// documented as 36 characters.  Nothing is promised of the value.
#[verifier::external_body]
pub(crate) fn new_uuid_string() -> (r: String)
    ensures
        r@.len() == 36,
{
    uuid::Uuid::new_v4().to_string()
}

/// Mint a fresh opaque credential: 32 random bytes in URL-safe base64
/// without padding, always [`TOKEN_LEN`] characters.
pub fn generate_token() -> (r: String)
    ensures
        r@.len() == TOKEN_LEN,
{
    let bytes = random_bytes_32();
    b64url_no_pad(&bytes)
}

} // verus!
