//! Key and IV material as a command line names it: 32 bytes, given as
//! base64 text or as the content of a file.

use base64::DecodeError;
use vstd::prelude::*;

verus! {

#[verifier::external_type_specification]
#[verifier::external_body]
pub struct ExDecodeError(base64::DecodeError);

/// The bytes that `base64::decode` makes of a text, or `None` where it
/// rejects the text.
pub uninterp spec fn base64_decoded(text: Seq<char>) -> Option<Seq<u8>>;

/// Calls `base64::decode`, which reads the text in the standard alphabet
/// with padding. The contract claims that the outcome is a function of
/// the text alone, and gives that function the name `base64_decoded`.
#[verifier::external_body]
fn decode(val: &str) -> (r: Result<Vec<u8>, DecodeError>)
    ensures
        r is Ok <==> base64_decoded(val@) is Some,
        r is Ok ==> r->Ok_0@ == base64_decoded(val@)->0,
{
    base64::decode(val)
}

/// The order in which the sources of a key or an IV are tried.
#[derive(Clone, Copy, Debug, PartialEq, Eq, Structural)]
pub enum Lookup {
    /// Decode the value as base64 text.
    Text,
    /// Read the file that the value names.
    File,
    /// Decode the value; if that fails, read the file that it names.
    TextThenFile,
    /// Read the file that the value names; if that fails, decode it.
    FileThenText,
    /// No value was given.
    Nothing,
}

/// Text comes before a file, and either before a value of unstated kind;
/// such a value is tried as text first unless the order was toggled.
pub open spec fn spec_lookup_order(text: bool, file: bool, smart: bool, toggles: u64) -> Lookup {
    if text {
        Lookup::Text
    } else if file {
        Lookup::File
    } else if smart {
        if toggles < 1 {
            Lookup::TextThenFile
        } else {
            Lookup::FileThenText
        }
    } else {
        Lookup::Nothing
    }
}

/// Decides from which arguments were given, and how often the order
/// was toggled, where a key or an IV is looked for.
pub fn lookup_order(text: bool, file: bool, smart: bool, toggles: u64) -> (order: Lookup)
    ensures
        order == spec_lookup_order(text, file, smart, toggles),
{
    if text {
        Lookup::Text
    } else if file {
        Lookup::File
    } else if smart {
        if toggles < 1 {
            Lookup::TextThenFile
        } else {
            Lookup::FileThenText
        }
    } else {
        Lookup::Nothing
    }
}

/// The bytes as a key or an IV, where there are exactly 32 of them.
pub fn key_from_bytes(bytes: &[u8]) -> (key: Option<[u8; 32]>)
    ensures
        key is Some <==> bytes@.len() == 32,
        key is Some ==> key->0@ == bytes@,
{
    if bytes.len() == 32 {
        let mut key: [u8; 32] = [0; 32];
        let mut n: usize = 0;
        while n < 32
            invariant
                n <= 32,
                bytes@.len() == 32,
                forall|m: int| 0 <= m < n ==> key@[m] == bytes@[m],
            decreases 32 - n,
        {
            key[n] = bytes[n];
            n += 1;
        }
        assert(key@ =~= bytes@);
        Some(key)
    } else {
        None
    }
}

/// A key or an IV from base64 text: the decoded bytes, where the text is
/// valid base64 and stands for exactly 32 bytes.
pub fn get_base64_val(val: &str) -> (key: Option<[u8; 32]>)
    ensures
        key is Some <==> (base64_decoded(val@) is Some && base64_decoded(val@)->0.len() == 32),
        key is Some ==> key->0@ == base64_decoded(val@)->0,
{
    match decode(val) {
        Ok(v) => key_from_bytes(v.as_slice()),
        Err(_) => None,
    }
}

} // verus!
