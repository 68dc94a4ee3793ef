//! The IEEE CRC-32 checksum that seals every on-disk record frame.  The
//! checksum itself is computed by an outside crate; the library names its
//! result and reasons about frames through that name alone.

use vstd::prelude::*;

verus! {

/// The IEEE CRC-32 of a byte sequence, as computed by `crc32fast`.
pub uninterp spec fn crc32_of(data: Seq<u8>) -> u32;

/// Relies on crc32fast::hash: the IEEE CRC-32 of the bytes, a function of
/// the input bytes alone.
#[verifier::external_body]
pub(crate) fn crc32(data: &Vec<u8>) -> (r: u32)
    ensures
        r == crc32_of(data@),
{
    crc32fast::hash(data.as_slice())
}

} // verus!
