//! Wiping of secret buffers.
//!
//! Passphrases and derived key material are overwritten with zeros before
//! their memory is released on the paths where the library itself discards
//! them. Buffers handed to the caller are the caller's to wipe.
use vstd::prelude::*;
use zeroize::Zeroize;

verus! {

/// Overwrites the text of `s` with zeros and empties it
/// (`<String as zeroize::Zeroize>::zeroize`, which zeroizes the underlying
/// byte vector, its spare capacity included, and sets its length to 0).
#[verifier::external_body]
pub(crate) fn wipe_text(s: &mut String)
    ensures
        final(s)@ == Seq::<char>::empty(),
{
    s.zeroize();
}

/// Overwrites the bytes of `v` with zeros and empties it
/// (`<Vec<u8> as zeroize::Zeroize>::zeroize`: elements and spare capacity
/// are zeroed, then the length is set to 0).
#[verifier::external_body]
pub(crate) fn wipe_bytes(v: &mut Vec<u8>)
    ensures
        final(v)@ == Seq::<u8>::empty(),
{
    v.zeroize();
}

} // verus!
