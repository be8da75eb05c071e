use vstd::prelude::*;

verus! {

/// The CRC-32 (CKSUM polynomial) of a byte sequence. The algorithm is
/// left unstated: every fact the library needs about it is that equal
/// inputs give equal results, which holds because the checksum is a
/// function of the bytes alone.
pub uninterp spec fn crc32_of(bytes: Seq<u8>) -> u32;

/// Relies on `crc::Crc::<u32, Table<16>>::checksum` with the
/// `CRC_32_CKSUM` algorithm: the result is a pure function of the
/// input bytes. The sixteen-entry-wide table only speeds the same
/// computation up.
#[verifier::external_body]
pub fn crc32_checksum(bytes: &Vec<u8>) -> (r: u32)
    ensures
        r == crc32_of(bytes@),
{
    let crc = crc::Crc::<u32, crc::Table<16>>::new(&crc::CRC_32_CKSUM);
    crc.checksum(bytes.as_slice())
}

} // verus!
