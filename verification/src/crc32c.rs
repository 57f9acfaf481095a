//! Masked CRC-32C (Castagnoli) checksums, the single integrity identity
//! the record format is tied to.
//!
//! The checksum is *masked*: the raw CRC is rotated right by 15 bits and
//! offset by a constant with wrapping 32-bit addition, to avoid collisions
//! with the common case where CRC and data are both zero.

use crate::error::Error;
use vstd::prelude::*;

verus! {

/// The additive constant of the mask.
pub const MASK_DELTA: u32 = 0xa282ead8;

/// The CRC-32C (Castagnoli polynomial) of a byte sequence, as computed by
/// the checksum routine the library is linked against.  The value is a
/// function of the bytes alone.
pub uninterp spec fn crc32c_of(bytes: Seq<u8>) -> u32;

/// Relies on `crc::Crc::<u32>::checksum` with the `CRC_32_ISCSI`
/// (Castagnoli) algorithm: the checksum depends on the bytes alone.
#[verifier::external_body]
fn crc32c(buf: &[u8]) -> (r: u32)
    ensures
        r == crc32c_of(buf@),
{
    crc::Crc::<u32>::new(&crc::CRC_32_ISCSI).checksum(buf)
}

/// The mask applied to a raw CRC value: rotate right 15, then add the
/// mask constant with wrapping addition.
pub open spec fn spec_mask_crc(c: u32) -> u32 {
    ((c >> 15) | (c << 17)).wrapping_add(MASK_DELTA)
}

/// The masked CRC-32C of a byte sequence.
pub open spec fn masked_crc_of(bytes: Seq<u8>) -> u32 {
    spec_mask_crc(crc32c_of(bytes))
}

/// Compute the masked CRC-32C of `buf`.
pub fn get_masked_crc(buf: &[u8]) -> (r: u32)
    ensures
        r == masked_crc_of(buf@),
{
    let c = crc32c(buf);
    ((c >> 15) | (c << 17)).wrapping_add(MASK_DELTA)
}

/// Recompute the masked CRC-32C of `buf` and compare it with `expect`.
///
/// Returns `Ok` exactly when the recomputed value equals `expect`;
/// otherwise the error names both 32-bit values.
pub fn verify_masked_crc(buf: &[u8], expect: u32) -> (r: Result<(), Error>)
    ensures
        r is Ok <==> masked_crc_of(buf@) == expect,
        r is Err ==> r->Err_0 == (Error::ChecksumMismatch { found: masked_crc_of(buf@), expect }),
{
    let found = get_masked_crc(buf);
    if found == expect {
        Ok(())
    } else {
        Err(Error::ChecksumMismatch { found, expect })
    }
}

} // verus!
