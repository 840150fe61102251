//! Block trailers: the masked CRC-32C that guards every block.
use vstd::prelude::*;

use crate::coding::{le32, u32_of_le, put_fixed32};

verus! {

/// Added to the rotated checksum when masking.
pub const MASK_DELTA: u32 = 0xa282ead8;

/// The CRC-32C (Castagnoli) of a byte string.
pub uninterp spec fn crc32c_of(s: Seq<u8>) -> u32;

/// Relies on `crc::crc32::checksum_castagnoli`: the CRC-32C of the bytes,
/// which depends on the bytes alone.
#[verifier::external_body]
fn crc32c(b: &[u8]) -> (r: u32)
    ensures
        r == crc32c_of(b@),
{
    crc::crc32::checksum_castagnoli(b)
}

pub open spec fn rotr15(c: u32) -> u32 {
    (c >> 15u32) | (c << 17u32)
}

pub open spec fn rotr17(c: u32) -> u32 {
    (c >> 17u32) | (c << 15u32)
}

/// The masked form of checksum `c`: rotated right by 15, plus `MASK_DELTA`
/// modulo 2^32.
pub open spec fn masked(c: u32) -> u32 {
    ((rotr15(c) as int + MASK_DELTA as int) % 0x1_0000_0000) as u32
}

/// Masks a checksum so that a checksum of bytes that hold checksums does
/// not overlap with them.
pub fn mask_crc(c: u32) -> (r: u32)
    ensures
        r == masked(c),
{
    ((c >> 15) | (c << 17)).wrapping_add(MASK_DELTA)
}

/// Undoes `mask_crc`.
pub fn unmask_crc(mc: u32) -> (r: u32)
    ensures
        r == rotr17(((mc as int - MASK_DELTA as int) % 0x1_0000_0000) as u32),
{
    let rot = mc.wrapping_sub(MASK_DELTA);
    (rot >> 17) | (rot << 15)
}

/// Unmasking a masked checksum gives the checksum back.
pub proof fn lemma_unmask_mask(c: u32)
    ensures
        rotr17(((masked(c) as int - MASK_DELTA as int) % 0x1_0000_0000) as u32) == c,
{
    let r = rotr15(c);
    assert(((masked(c) as int - MASK_DELTA as int) % 0x1_0000_0000) as u32 == r);
    assert(((c >> 15u32) | (c << 17u32)) >> 17u32 | ((c >> 15u32) | (c << 17u32)) << 15u32 == c) by (bit_vector);
}

/// Compression type byte of an uncompressed block.
pub const TYPE_NONE: u8 = 0;
/// Compression type byte of a Snappy-compressed block.
pub const TYPE_SNAPPY: u8 = 1;

/// The bytes that a block occupies in a file: its payload, its type byte,
/// and the masked checksum of both, given that checksum's unmasked value.
pub open spec fn framed(payload: Seq<u8>, ctype: u8, crc: u32) -> Seq<u8> {
    payload.push(ctype) + le32(masked(crc))
}

/// Appends `payload`, its type byte and the masked CRC-32C of both to `dst`.
pub fn write_framed(dst: &mut Vec<u8>, payload: &[u8], ctype: u8)
    ensures
        final(dst)@ == old(dst)@ + framed(payload@, ctype, crc32c_of(payload@.push(ctype))),
{
    let start = dst.len();
    let mut i: usize = 0;
    while i < payload.len()
        invariant
            i <= payload.len(),
            dst@ == old(dst)@ + payload@.take(i as int),
        decreases payload.len() - i,
    {
        dst.push(payload[i]);
        i = i + 1;
        assert(dst@ =~= old(dst)@ + payload@.take(i as int));
    }
    dst.push(ctype);
    assert(payload@.take(payload.len() as int) =~= payload@);
    assert(dst@ =~= old(dst)@ + payload@.push(ctype));
    let c = crc32c(&dst.as_slice()[start..dst.len()]);
    assert(dst@.subrange(start as int, dst@.len() as int) =~= payload@.push(ctype));
    put_fixed32(dst, mask_crc(c));
    assert(dst@ =~= old(dst)@ + framed(payload@, ctype, crc32c_of(payload@.push(ctype))));
}

/// The outcome of checking the trailer of a framed block.
pub enum TrailerCheck {
    /// The checksum matches and the payload is stored uncompressed.
    Plain,
    /// The stored checksum does not match.
    BadChecksum,
    /// The checksum matches, but the payload is compressed with a codec
    /// this library does not carry.
    Unsupported,
    /// The checksum matches, but the type byte is unknown.
    BadType,
}

/// Decides whether the framed block `stored` (payload, type byte, masked
/// checksum) is sound, given `crc`, the CRC-32C of all of `stored` but its
/// last four bytes.
pub fn check_trailer(stored: &[u8], crc: u32) -> (r: TrailerCheck)
    requires
        stored.len() >= 5,
    ensures
        ({
            let n = stored@.len();
            let t = stored@[n - 5];
            let kept = u32_of_le(stored@.skip(n - 4));
            &&& (r is BadChecksum <==> kept != masked(crc))
            &&& (r is Plain <==> kept == masked(crc) && t == TYPE_NONE)
            &&& (r is Unsupported <==> kept == masked(crc) && t == TYPE_SNAPPY)
            &&& (r is BadType <==> kept == masked(crc) && t != TYPE_NONE && t != TYPE_SNAPPY)
        }),
{
    let n = stored.len();
    let kept = crate::coding::get_fixed32(stored, n - 4);
    if kept != mask_crc(crc) {
        return TrailerCheck::BadChecksum;
    }
    let t = stored[n - 5];
    if t == TYPE_NONE {
        TrailerCheck::Plain
    } else if t == TYPE_SNAPPY {
        TrailerCheck::Unsupported
    } else {
        TrailerCheck::BadType
    }
}

/// Computes the CRC-32C of the payload and type byte of the framed block
/// `stored`, and checks its trailer against it.
pub fn verify_trailer(stored: &[u8]) -> (r: TrailerCheck)
    requires
        stored.len() >= 5,
    ensures
        ({
            let n = stored@.len();
            let t = stored@[n - 5];
            let crc = crc32c_of(stored@.take(n - 4));
            let kept = u32_of_le(stored@.skip(n - 4));
            &&& (r is BadChecksum <==> kept != masked(crc))
            &&& (r is Plain <==> kept == masked(crc) && t == TYPE_NONE)
            &&& (r is Unsupported <==> kept == masked(crc) && t == TYPE_SNAPPY)
            &&& (r is BadType <==> kept == masked(crc) && t != TYPE_NONE && t != TYPE_SNAPPY)
        }),
{
    let n = stored.len();
    let c = crc32c(&stored[0..n - 4]);
    check_trailer(stored, c)
}

} // verus!
