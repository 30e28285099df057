//! Small cryptographic utilities: an MD5 hex digest from an outside crate,
//! and the symmetric string transform pair used as the encryption
//! collaborator's stand-in — a pass-through whose round trip is exact.

use crate::errors::CoreError;
use vstd::prelude::*;

verus! {

/// Hex digest that the outside crate computes with MD5 over a string's
/// bytes; a function of the input alone.
pub uninterp spec fn md5_hex_of(s: Seq<char>) -> Seq<char>;

/// Relies on `crypto_hash::hex_digest` with `Algorithm::MD5`: a 128-bit
/// digest rendered as 32 lowercase hex characters, a function of the input
/// bytes alone.
#[verifier::external_body]
pub fn encrypt_by_md5(s: &str) -> (r: String)
    ensures
        r@ == md5_hex_of(s@),
        r@.len() == 32,
        forall|i: int|
            0 <= i < r@.len() ==> ('0' <= #[trigger] r@[i] <= '9' || 'a' <= r@[i] <= 'f'),
{
    crypto_hash::hex_digest(crypto_hash::Algorithm::MD5, s.as_bytes())
}

/// Symmetric encryption of a string: the identity transform, standing in
/// for the external cipher collaborator.
pub fn encrypt_by_des(data: &str) -> (r: Result<String, CoreError>)
    ensures
        r matches Ok(s) && s@ == data@,
{
    Ok(data.to_owned())
}

/// Symmetric decryption of a string: the inverse of `encrypt_by_des`, so
/// decrypting an encrypted string yields it back exactly.
pub fn decrypt_by_des(data: &str) -> (r: Result<String, CoreError>)
    ensures
        r matches Ok(s) && s@ == data@,
{
    Ok(data.to_owned())
}

} // verus!
