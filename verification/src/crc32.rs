//! The CRC-32/ISO-HDLC checksum used by the chunk format, provided by the
//! `crc` crate. The checksum itself is left abstract: contracts speak of it
//! through the name `crc32_of`.

use vstd::prelude::*;

verus! {

/// The CRC-32/ISO-HDLC checksum of a byte sequence. The checksum is a pure
/// function of the bytes alone; its definition is left to the `crc` crate.
pub uninterp spec fn crc32_of(bytes: Seq<u8>) -> u32;

/// Relies on crc::Crc::<u32>::checksum with the CRC_32_ISO_HDLC algorithm
/// from the crc crate: the checksum it computes depends on the input bytes
/// alone.
#[verifier::external_body]
pub(crate) fn crc32_checksum(bytes: &Vec<u8>) -> (r: u32)
    ensures
        r == crc32_of(bytes@),
{
    crc::Crc::<u32>::new(&crc::CRC_32_ISO_HDLC).checksum(bytes.as_slice())
}

} // verus!
