//! Deterministic hierarchical passphrase derivation.
//!
//! The cryptographic core is [`derive_bytes`], HKDF-SHA256 (RFC 5869) with an
//! explicit output-length ceiling. The modules built on top of it turn the
//! derived bytes into passphrases ([`encoding`]), describe what gets derived
//! ([`inventory`]), resolve Diceware wordlists ([`wordlist`]), select and
//! describe entries for the command-line tool ([`commands`]) and assemble the
//! content of paper-backup cards ([`report`]).
//!
//! Derived material is returned in plain buffers allocated once at their final
//! size, so no stray partial copies are left behind; the caller is expected to
//! keep them in a wiping container. The master seed passed in as `ikm` is not
//! wiped here: the caller owns that buffer.
pub mod commands;
pub mod encoding;
pub mod inventory;
pub mod report;
mod secret;
pub mod wordlist;
pub mod text;

use hkdf::Hkdf;
use sha2::Sha256;
use vstd::prelude::*;

verus! {

/// Errors returned by [`derive_bytes`].
#[derive(Debug, Clone, Copy, PartialEq, Eq, Structural)]
pub enum DeriveError {
    /// Requested output length exceeds HKDF-SHA256's maximum
    /// of 255 × 32 = 8160 bytes.
    OutputTooLong {
        /// The number of bytes requested.
        requested: usize,
        /// The HKDF-SHA256 maximum output length (`255 * 32 = 8160`).
        max: usize,
    },
}

impl DeriveError {
    /// The error message.
    pub fn message(&self) -> (m: String)
        ensures
            m@ == match self {
                DeriveError::OutputTooLong { requested, max } => "output length "@ + text::decimal_text(
                    *requested as nat,
                ) + " bytes exceeds HKDF-SHA256 maximum of "@ + text::decimal_text(*max as nat) + " bytes"@,
            },
    {
        match self {
            DeriveError::OutputTooLong { requested, max } => {
                let mut s = text::string_from("output length ");
                s.append(text::decimal(*requested).as_str());
                s.append(" bytes exceeds HKDF-SHA256 maximum of ");
                s.append(text::decimal(*max).as_str());
                s.append(" bytes");
                s
            },
        }
    }
}

/// Maximum output length of HKDF-SHA256 in bytes (`255 * hash_output_size`).
pub const MAX_OUTPUT_LEN: usize = 255 * 32;

/// The output of HKDF-SHA256 (RFC 5869): HKDF-Expand of the pseudorandom key
/// HKDF-Extract(`salt`, `ikm`) with context `info`, truncated to `len` bytes.
pub uninterp spec fn hkdf_sha256(ikm: Seq<u8>, salt: Seq<u8>, info: Seq<u8>, len: nat) -> Seq<u8>;

/// The salt that HKDF-SHA256 uses in place of an empty one: as many zero
/// bytes as a SHA-256 output (32).
pub open spec fn zero_salt() -> Seq<u8> {
    Seq::new(32, |i: int| 0u8)
}

/// HKDF-SHA256 through the `hkdf` crate: `Hkdf::<Sha256>::new(Some(salt), ikm)`
/// followed by `expand(info, okm)` into a zero-filled buffer of `len` bytes.
/// The contract claims that the result is the RFC 5869 output named
/// `hkdf_sha256` for these arguments and that `expand` fills the whole
/// buffer, so the result has exactly `len` bytes. It also claims that an
/// empty salt acts as 32 zero bytes: the salt is the HMAC key of the extract
/// step, and `hmac` pads every key shorter than the SHA-256 block with
/// zeros, so both give the same key block. `expand` refuses only lengths
/// above 255 hash blocks, which `requires` rules out, so the `expect` in the
/// body is never reached.
#[verifier::external_body]
fn hkdf_sha256_expand(ikm: &[u8], salt: &[u8], info: &[u8], len: usize) -> (okm: Vec<u8>)
    requires
        len <= MAX_OUTPUT_LEN,
    ensures
        okm@ == hkdf_sha256(ikm@, salt@, info@, len as nat),
        okm@.len() == len,
        salt@.len() == 0 ==> okm@ == hkdf_sha256(ikm@, zero_salt(), info@, len as nat),
{
    let hk = Hkdf::<Sha256>::new(Some(salt), ikm);
    let mut okm = vec![0u8; len];
    hk.expand(info, &mut okm).expect("length bounded by requires");
    okm
}

/// Derive `output_len` bytes of key material from the given inputs using
/// HKDF-SHA256 as defined in RFC 5869.
///
/// - `ikm`: input keying material (the master seed).
/// - `salt`: public domain-separation value; may be empty.
/// - `info`: application-specific context binding.
/// - `output_len`: number of bytes to derive, at most [`MAX_OUTPUT_LEN`].
///
/// For fixed `(ikm, salt, info, output_len)` the same bytes come out. An
/// empty salt gives what a salt of 32 zero bytes gives.
pub fn derive_bytes(ikm: &[u8], salt: &[u8], info: &[u8], output_len: usize) -> (res: Result<Vec<u8>, DeriveError>)
    ensures
        output_len > MAX_OUTPUT_LEN <==> res is Err,
        output_len > MAX_OUTPUT_LEN ==> res == Err::<Vec<u8>, DeriveError>(
            DeriveError::OutputTooLong { requested: output_len, max: MAX_OUTPUT_LEN },
        ),
        res matches Ok(okm) ==> okm@ == hkdf_sha256(ikm@, salt@, info@, output_len as nat)
            && okm@.len() == output_len,
        salt@.len() == 0 ==> (res matches Ok(okm) ==> okm@ == hkdf_sha256(ikm@, zero_salt(), info@, output_len as nat)),
{
    if output_len > MAX_OUTPUT_LEN {
        return Err(DeriveError::OutputTooLong { requested: output_len, max: MAX_OUTPUT_LEN });
    }
    Ok(hkdf_sha256_expand(ikm, salt, info, output_len))
}

} // verus!
