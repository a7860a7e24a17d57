//! The checksums that frame every region of an HDT container.

use vstd::prelude::*;

verus! {

/// The CRC-8/SMBus checksum of `bytes`.
pub uninterp spec fn crc8_smbus(bytes: Seq<u8>) -> u8;

/// The CRC-16/ARC checksum of `bytes`.
pub uninterp spec fn crc16_arc(bytes: Seq<u8>) -> u16;

/// The CRC-32C (iSCSI) checksum of `bytes`.
pub uninterp spec fn crc32_iscsi(bytes: Seq<u8>) -> u32;

/// The two bytes of `x`, least significant first.
pub open spec fn u16_le(x: u16) -> Seq<u8> {
    seq![(x % 256) as u8, (x / 256) as u8]
}

/// The four bytes of `x`, least significant first.
pub open spec fn u32_le(x: u32) -> Seq<u8> {
    seq![
        (x % 256) as u8,
        (x / 256 % 256) as u8,
        (x / 65536 % 256) as u8,
        (x / 16777216) as u8,
    ]
}

/// The number that four little-endian bytes stand for.
pub open spec fn u32_from_le(bytes: Seq<u8>) -> nat
    recommends
        bytes.len() == 4,
{
    (bytes[0] as nat + 256 * (bytes[1] as nat) + 65536 * (bytes[2] as nat) + 16777216 * (
    bytes[3] as nat)) as nat
}

/// Little-endian bytes read back give the number they were made from.
pub proof fn lemma_u32_le_round_trip(x: u32)
    ensures
        u32_le(x).len() == 4,
        u32_from_le(u32_le(x)) == x,
{
}

/// Computes CRC-8/SMBus with `crc::Crc::<u8>::checksum` over the catalogue
/// entry `crc::CRC_8_SMBUS`. The result depends on the bytes alone.
#[verifier::external_body]
pub(crate) fn crc8(bytes: &[u8]) -> (sum: u8)
    ensures
        sum == crc8_smbus(bytes@),
{
    crc::Crc::<u8>::new(&crc::CRC_8_SMBUS).checksum(bytes)
}

/// Computes CRC-16/ARC with `crc::Crc::<u16>::checksum` over the catalogue
/// entry `crc::CRC_16_ARC`. The result depends on the bytes alone.
#[verifier::external_body]
pub(crate) fn crc16(bytes: &[u8]) -> (sum: u16)
    ensures
        sum == crc16_arc(bytes@),
{
    crc::Crc::<u16>::new(&crc::CRC_16_ARC).checksum(bytes)
}

/// Computes CRC-32C with `crc::Crc::<u32>::checksum` over the catalogue entry
/// `crc::CRC_32_ISCSI`. The result depends on the bytes alone.
#[verifier::external_body]
pub(crate) fn crc32(bytes: &[u8]) -> (sum: u32)
    ensures
        sum == crc32_iscsi(bytes@),
{
    crc::Crc::<u32>::new(&crc::CRC_32_ISCSI).checksum(bytes)
}

/// Appends a copy of `src` to `dest`.
pub fn append_bytes(src: &[u8], dest: &mut Vec<u8>)
    ensures
        final(dest)@ == old(dest)@ + src@,
{
    dest.extend_from_slice(src);
    assert(dest@ =~= old(dest)@ + src@);
}

/// Appends the two bytes of `x`, least significant first.
pub fn write_u16_le(x: u16, dest: &mut Vec<u8>)
    ensures
        final(dest)@ == old(dest)@ + u16_le(x),
{
    dest.push((x % 256) as u8);
    dest.push((x / 256) as u8);
    assert(dest@ =~= old(dest)@ + u16_le(x));
}

/// Appends the four bytes of `x`, least significant first.
pub fn write_u32_le(x: u32, dest: &mut Vec<u8>)
    ensures
        final(dest)@ == old(dest)@ + u32_le(x),
{
    dest.push((x % 256) as u8);
    dest.push((x / 256 % 256) as u8);
    dest.push((x / 65536 % 256) as u8);
    dest.push((x / 16777216) as u8);
    assert(dest@ =~= old(dest)@ + u32_le(x));
}

/// A region of a section together with the checksum that follows it: the
/// header bytes and their CRC-8.
pub open spec fn with_crc8(region: Seq<u8>) -> Seq<u8> {
    region + seq![crc8_smbus(region)]
}

/// A data region followed by its CRC-32C, least significant byte first.
pub open spec fn with_crc32(region: Seq<u8>) -> Seq<u8> {
    region + u32_le(crc32_iscsi(region))
}

/// Appends `region` and its CRC-8 to `dest`.
pub fn write_with_crc8(region: &Vec<u8>, dest: &mut Vec<u8>)
    ensures
        final(dest)@ == old(dest)@ + with_crc8(region@),
{
    let sum = crc8(region.as_slice());
    append_bytes(region.as_slice(), dest);
    dest.push(sum);
    assert(dest@ =~= old(dest)@ + with_crc8(region@));
}

/// Appends `region` and its CRC-32C to `dest`.
pub fn write_with_crc32(region: &Vec<u8>, dest: &mut Vec<u8>)
    ensures
        final(dest)@ == old(dest)@ + with_crc32(region@),
{
    let sum = crc32(region.as_slice());
    append_bytes(region.as_slice(), dest);
    write_u32_le(sum, dest);
    assert(dest@ =~= old(dest)@ + with_crc32(region@));
}

} // verus!
