//! The cryptographic hash behind every fingerprint.

use vstd::prelude::*;

verus! {

/// The 32-byte BLAKE3 hash of `input`, in the default (unkeyed) mode.
///
/// The hash is a fixed function of the input bytes; nothing else about it is
/// stated here. In particular, nothing says that it is free of collisions.
pub uninterp spec fn blake3_digest(input: Seq<u8>) -> Seq<u8>;

/// Hashes `input` with `blake3::hash` and returns the 32 output bytes.
///
/// Trusted: the result is claimed to be the BLAKE3 hash of exactly the bytes
/// of `input`, which `blake3_digest` names.
#[verifier::external_body]
pub(crate) fn blake3_hash(input: &Vec<u8>) -> (out: [u8; 32])
    ensures
        out@ == blake3_digest(input@),
{
    blake3::hash(input.as_slice()).into()
}

} // verus!
