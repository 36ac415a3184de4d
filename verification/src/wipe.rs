//! Erasure of secret material, done by the `zeroize` crate so that the
//! compiler cannot remove the writes.

use vstd::prelude::*;
use zeroize::Zeroize;

verus! {

/// Calls `Zeroize::zeroize` of the `zeroize` crate on an array of words.
/// Its impl for arrays walks the array and overwrites every element with
/// the default of its type by a volatile write; for `u32` that is zero.
/// The contract claims that every word is zero afterwards, and that the
/// call returns without unwinding.
#[verifier::external_body]
pub(crate) fn wipe_words<const N: usize>(words: &mut [u32; N])
    ensures
        forall|k: int| 0 <= k < N ==> final(words)@[k] == 0,
    opens_invariants none
    no_unwind
{
    words.zeroize();
}

/// Calls `Zeroize::zeroize` of the `zeroize` crate on an array of bytes.
/// Its impl for arrays walks the array and overwrites every element with
/// the default of its type by a volatile write; for `u8` that is zero.
/// The contract claims that every byte is zero afterwards, and that the
/// call returns without unwinding.
#[verifier::external_body]
pub(crate) fn wipe_bytes<const N: usize>(bytes: &mut [u8; N])
    ensures
        forall|k: int| 0 <= k < N ==> final(bytes)@[k] == 0,
    opens_invariants none
    no_unwind
{
    bytes.zeroize();
}

/// Calls `Zeroize::zeroize` of the `zeroize` crate on a counter. Its impl
/// for the integer types overwrites the value with the type's default by a
/// volatile write. The contract claims that the counter is zero afterwards,
/// and that the call returns without unwinding.
#[verifier::external_body]
pub(crate) fn wipe_count(n: &mut usize)
    ensures
        *final(n) == 0,
    opens_invariants none
    no_unwind
{
    n.zeroize();
}

} // verus!
