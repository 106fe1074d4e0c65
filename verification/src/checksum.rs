//! The CRC-32 integrity checksum used by every record.

use vstd::prelude::*;

verus! {

/// The CRC-32 (ISO-HDLC) checksum of a byte sequence. The algorithm is a pure
/// function of the bytes; its value is only ever computed by the `crc` crate.
pub uninterp spec fn crc32_of(data: Seq<u8>) -> u32;

/// Relies on crc::Crc::<u32>::checksum with the CRC_32_ISO_HDLC algorithm:
/// the checksum depends on the input bytes alone.
#[verifier::external_body]
pub(crate) fn crc32(data: &[u8]) -> (r: u32)
    ensures
        r == crc32_of(data@),
{
    crc::Crc::<u32>::new(&crc::CRC_32_ISO_HDLC).checksum(data)
}

} // verus!
