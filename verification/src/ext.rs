//! Declarations for the outside types and functions the library leans on:
//! the `bytes` crate's `Bytes` buffer, which carries key and value payloads,
//! and UTF-8 decoding from the standard library.

use vstd::prelude::*;
use vstd::utf8::valid_utf8;
use vstd::utf8::decode_utf8;
use bytes::Bytes;

verus! {

#[verifier::external_type_specification]
#[verifier::external_body]
pub struct ExBytes(Bytes);

/// The bytes held by a `bytes::Bytes` buffer.
pub uninterp spec fn bytes_content(b: Bytes) -> Seq<u8>;

/// Relies on `Bytes::copy_from_slice`: the new buffer holds a copy of the
/// given slice.
#[verifier::external_body]
pub fn bytes_copy_from_slice(s: &[u8]) -> (b: Bytes)
    ensures
        bytes_content(b) == s@,
{
    Bytes::copy_from_slice(s)
}

/// Relies on `<Bytes as AsRef<[u8]>>::as_ref`: the slice view of a buffer is
/// the bytes it holds.
#[verifier::external_body]
pub fn bytes_as_slice(b: &Bytes) -> (s: &[u8])
    ensures
        s@ == bytes_content(*b),
{
    b.as_ref()
}

/// Relies on `String::from_utf8`: it succeeds exactly on valid UTF-8 input,
/// and the returned string's characters are the decoding of those bytes.
#[verifier::external_body]
pub fn string_from_utf8(v: Vec<u8>) -> (r: Option<String>)
    ensures
        ({
            match r {
                Some(s) => valid_utf8(v@) && s@ == decode_utf8(v@),
                None => !valid_utf8(v@),
            }
        }),
{
    match String::from_utf8(v) {
        Ok(s) => Some(s),
        Err(_) => None,
    }
}


/// Relies on `core::str::from_utf8`: it succeeds exactly on valid UTF-8.
#[verifier::external_body]
pub fn utf8_valid(v: &[u8]) -> (r: bool)
    ensures
        r == valid_utf8(v@),
{
    core::str::from_utf8(v).is_ok()
}

} // verus!
