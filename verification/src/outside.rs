//! The calls into code that is not verified here. What each contract says is
//! taken from the code that is called, and believed.

use crate::wire::be_u32;
use byteorder::{BigEndian, ByteOrder};
use vstd::prelude::*;
use vstd::utf8::{decode_utf8, valid_utf8};

verus! {

/// What `String::from_utf8_lossy` makes of bytes that are not valid UTF-8:
/// the text that they encode, with the replacement character in place of each
/// sequence that encodes none. It is a function of the bytes alone, and is
/// named here, not spelled out.
pub uninterp spec fn utf8_repaired(bytes: Seq<u8>) -> Seq<char>;

/// Calls `byteorder::BigEndian::read_u32`. Believed of it: the result is the
/// number that the first four bytes of `buf` spell, most significant byte
/// first. It panics on a slice of fewer than four bytes, which the
/// precondition leaves out.
#[verifier::external_body]
pub(crate) fn read_u32_be(buf: &[u8]) -> (n: u32)
    requires
        buf@.len() >= 4,
    ensures
        n == be_u32(buf@),
{
    BigEndian::read_u32(buf)
}

/// Calls `String::from_utf8_lossy` and takes ownership of what it returns.
/// Believed of it: bytes that are valid UTF-8 come back as the text that they
/// encode, and other bytes as the text that is named `utf8_repaired`.
#[verifier::external_body]
pub(crate) fn decode_utf8_lossy(bytes: &[u8]) -> (text: String)
    ensures
        valid_utf8(bytes@) ==> text@ == decode_utf8(bytes@),
        !valid_utf8(bytes@) ==> text@ == utf8_repaired(bytes@),
{
    String::from_utf8_lossy(bytes).into_owned()
}

} // verus!
