//! The checksum of a GPT header, as `gpt_disk_types` computes it.

use crate::header::HEADER_SIZE;
use gpt_disk_types::GptHeader;
use vstd::prelude::*;

verus! {

/// The checksum that `gpt_disk_types::GptHeader::calculate_header_crc32`
/// returns for the header that these bytes are.
///
/// That function feeds the header's fields in their order to a
/// CRC-32/ISO-HDLC digest, with four zero bytes in the place of the stored
/// checksum. Nothing is stated here of the value but that it depends on the
/// bytes alone.
pub uninterp spec fn gpt_header_crc32(header: Seq<u8>) -> u32;

/// Computes the checksum of the header in `header`.
///
/// Reads the bytes as a `GptHeader` with `bytemuck::checked::from_bytes`,
/// which accepts exactly `HEADER_SIZE` bytes at any address, and calls
/// `GptHeader::calculate_header_crc32` on it. Trusted: that the number that
/// comes back depends on the bytes alone.
#[verifier::external_body]
pub(crate) fn calculate_header_crc32(header: &[u8]) -> (crc: u32)
    requires
        header@.len() == HEADER_SIZE,
    ensures
        crc == gpt_header_crc32(header@),
{
    bytemuck::checked::from_bytes::<GptHeader>(header).calculate_header_crc32().0.to_u32()
}

} // verus!
