//! Digest and signature helpers. The digests themselves come from outside
//! cryptographic crates through trusted wrappers; everything around them —
//! hexadecimal rendering, truncation, comparison, algorithm dispatch — is
//! verified.

use crate::hex::{hex_encode, hex_of, lemma_hex_of_chars, lemma_hex_of_take};
use crate::httputil::{is_hex_digit_char, valid_hash_format};
use crate::text::str_eq;
use hmac::{KeyInit, Mac};
use sha2::Digest;
use vstd::prelude::*;
use vstd::slice::slice_subrange;
use vstd::string::{StrSliceExecFns, StringExecFns, StringSliceAdditionalSpecFns};

verus! {

/// The number of hexadecimal characters kept by `generate_short_hash`.
pub const HASH_LEN: usize = 10;

/// The SHA-256 digest of a byte string; a function of the input alone.
pub uninterp spec fn sha256_of(data: Seq<u8>) -> Seq<u8>;

/// The HMAC-SHA1 tag over `data` under `key`.
pub uninterp spec fn hmac_sha1_of(key: Seq<u8>, data: Seq<u8>) -> Seq<u8>;

/// The HMAC-SHA256 tag over `data` under `key`.
pub uninterp spec fn hmac_sha256_of(key: Seq<u8>, data: Seq<u8>) -> Seq<u8>;

/// Relies on sha2::Sha256::digest: a 32-byte digest determined by the input
/// bytes alone.
#[verifier::external_body]
fn sha256_digest(data: &[u8]) -> (r: Vec<u8>)
    ensures
        r@ == sha256_of(data@),
        r@.len() == 32,
{
    sha2::Sha256::digest(data).to_vec()
}

/// Relies on hmac::Hmac with sha1::Sha1: a 20-byte tag determined by key and
/// input alone; `new_from_slice` accepts keys of any length.
#[verifier::external_body]
fn hmac_sha1(key: &[u8], data: &[u8]) -> (r: Vec<u8>)
    ensures
        r@ == hmac_sha1_of(key@, data@),
        r@.len() == 20,
{
    let mut mac = hmac::Hmac::<sha1::Sha1>::new_from_slice(key).expect(
        "HMAC accepts keys of any length",
    );
    mac.update(data);
    mac.finalize().into_bytes().to_vec()
}

/// Relies on hmac::Hmac with sha2::Sha256: a 32-byte tag determined by key
/// and input alone; `new_from_slice` accepts keys of any length.
#[verifier::external_body]
fn hmac_sha256(key: &[u8], data: &[u8]) -> (r: Vec<u8>)
    ensures
        r@ == hmac_sha256_of(key@, data@),
        r@.len() == 32,
{
    let mut mac = hmac::Hmac::<sha2::Sha256>::new_from_slice(key).expect(
        "HMAC accepts keys of any length",
    );
    mac.update(data);
    mac.finalize().into_bytes().to_vec()
}

/// The full SHA-256 digest of `data`, rendered as 64 lowercase hex digits.
pub fn sha256_hash(data: &[u8]) -> (r: String)
    ensures
        r@ == hex_of(sha256_of(data@)),
{
    let digest = sha256_digest(data);
    hex_encode(digest.as_slice())
}

/// The first 16 hex digits of the SHA-256 digest of `data`: the identifier
/// under which content is stored. It always passes the identifier check.
pub fn sha256_short_hash(data: &[u8]) -> (r: String)
    ensures
        r@ == hex_of(sha256_of(data@)).take(16),
        valid_hash_format(r@),
{
    let digest = sha256_digest(data);
    let prefix = slice_subrange(digest.as_slice(), 0, 8);
    let r = hex_encode(prefix);
    proof {
        lemma_hex_of_take(sha256_of(data@), 8);
        lemma_hex_of_chars(sha256_of(data@));
        assert forall|i: int| 0 <= i < r@.len() implies is_hex_digit_char(#[trigger] r@[i]) by {
            assert(r@[i] == hex_of(sha256_of(data@))[i]);
        }
    }
    r
}

/// An HMAC signature in hex, for the algorithm named by `signature_type`.
/// Only "sha1" and "sha256" are known; anything else is rejected.
pub fn generate_signature(body: &[u8], secret: &[u8], signature_type: &str) -> (r: Result<
    String,
    String,
>)
    ensures
        signature_type@ == "sha1"@ ==> (r matches Ok(s) && s@ == hex_of(
            hmac_sha1_of(secret@, body@),
        )),
        signature_type@ == "sha256"@ ==> (r matches Ok(s) && s@ == hex_of(
            hmac_sha256_of(secret@, body@),
        )),
        signature_type@ != "sha1"@ && signature_type@ != "sha256"@ ==> (r matches Err(m) && m@
            == "Invalid signature type"@),
{
    proof {
        reveal_strlit("sha1");
        reveal_strlit("sha256");
        assert("sha1"@.len() == 4);
        assert("sha256"@.len() == 6);
    }
    if str_eq(signature_type, "sha1") {
        let tag = hmac_sha1(secret, body);
        Ok(hex_encode(tag.as_slice()))
    } else if str_eq(signature_type, "sha256") {
        let tag = hmac_sha256(secret, body);
        Ok(hex_encode(tag.as_slice()))
    } else {
        Err(String::from_str("Invalid signature type"))
    }
}

/// Whether `signature` is the HMAC signature of `body` under `secret`, for
/// the algorithm named by `signature_type`.
pub fn verify_signature(body: &[u8], signature: &str, secret: &[u8], signature_type: &str) -> (r:
    Result<bool, String>)
    ensures
        signature_type@ == "sha1"@ ==> (r matches Ok(eq) && eq == (signature@ == hex_of(
            hmac_sha1_of(secret@, body@),
        ))),
        signature_type@ == "sha256"@ ==> (r matches Ok(eq) && eq == (signature@ == hex_of(
            hmac_sha256_of(secret@, body@),
        ))),
        signature_type@ != "sha1"@ && signature_type@ != "sha256"@ ==> (r matches Err(m) && m@
            == "Invalid signature type"@),
{
    match generate_signature(body, secret, signature_type) {
        Ok(expected) => Ok(str_eq(expected.as_str(), signature)),
        Err(e) => Err(e),
    }
}

/// The first `HASH_LEN` hex digits of the HMAC-SHA256 tag of `input` under
/// `secret_key`.
pub fn generate_short_hash(input: &str, secret_key: &str) -> (r: String)
    ensures
        r@ == hex_of(hmac_sha256_of(secret_key.spec_bytes(), input.spec_bytes())).take(
            HASH_LEN as int,
        ),
{
    let tag = hmac_sha256(secret_key.as_bytes(), input.as_bytes());
    let prefix = slice_subrange(tag.as_slice(), 0, HASH_LEN / 2);
    let r = hex_encode(prefix);
    proof {
        lemma_hex_of_take(hmac_sha256_of(secret_key.spec_bytes(), input.spec_bytes()), 5);
    }
    r
}

/// Whether `hash` is the short hash of `input` under `secret_key`.
pub fn verify_short_hash(input: &str, hash: &str, secret_key: &str) -> (r: bool)
    ensures
        r == (hash@ == hex_of(hmac_sha256_of(secret_key.spec_bytes(), input.spec_bytes())).take(
            HASH_LEN as int,
        )),
{
    let expected = generate_short_hash(input, secret_key);
    str_eq(expected.as_str(), hash)
}

} // verus!
