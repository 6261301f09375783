//! Working with images: the size of an EROFS file system, as its
//! superblock tells it.

use crate::error::Error;
use crate::nand::patched;
use crate::ubi::bytes::{le32_at, read_le32, zeros};
use vstd::arithmetic::power2::pow2;
use vstd::prelude::*;

verus! {

/// Where the superblock of an EROFS image begins.
pub const EROFS_SUPER_OFFSET: u64 = 1024;

/// The bytes of the superblock that the checksum covers.
pub const EROFS_SUPER_SIZE: usize = 3072;

pub const EROFS_SUPER_POS_MAGIC: usize = 0;

pub const EROFS_SUPER_POS_CKSUM: usize = 4;

pub const EROFS_SUPER_POS_BLKSZBITS: usize = 12;

pub const EROFS_SUPER_POS_BLOCKS: usize = 36;

/// The number that opens an EROFS superblock.
pub const EROFS_SUPER_MAGIC_V1: u32 = 0xE0F5E1E2;

/// What is xor-ed onto a CRC-32C at its end, and is not onto the checksum
/// of EROFS.
pub const CRC_32C_XOROUT: u32 = 0xFFFF_FFFF;

/// The CRC-32C (Castagnoli polynomial, initial value 0xFFFFFFFF,
/// reflected, final xor 0xFFFFFFFF) of `bytes`, as the `crc` crate computes
/// it.
pub uninterp spec fn crc32c_of(bytes: Seq<u8>) -> u32;

/// Calls `crc::Crc::<u32>::checksum` with the algorithm
/// `crc::CRC_32_ISCSI`. The result depends on the bytes alone; the contract
/// gives it its name.
#[verifier::external_body]
fn crc32c(bytes: &[u8]) -> (r: u32)
    ensures
        r == crc32c_of(bytes@),
{
    crc::Crc::<u32>::new(&crc::CRC_32_ISCSI).checksum(bytes)
}

/// The checksum of EROFS: CRC-32C without the final xor.
pub open spec fn erofs_crc_of(bytes: Seq<u8>) -> u32 {
    crc32c_of(bytes) ^ CRC_32C_XOROUT
}

/// The superblock as its checksum covers it: with the checksum field
/// zeroed.
pub open spec fn covered(superblock: Seq<u8>) -> Seq<u8> {
    patched(superblock, EROFS_SUPER_POS_CKSUM as int, zeros(4))
}

/// Whether `superblock` is a sound EROFS superblock: of the right size,
/// with the magic and the right checksum.
pub open spec fn erofs_sound(superblock: Seq<u8>) -> bool {
    &&& superblock.len() == EROFS_SUPER_SIZE
    &&& le32_at(superblock, EROFS_SUPER_POS_MAGIC as int) == EROFS_SUPER_MAGIC_V1
    &&& le32_at(superblock, EROFS_SUPER_POS_CKSUM as int) == erofs_crc_of(covered(superblock))
}

/// The size of the image in bytes: its number of blocks times the size of
/// a block, which is a power of two.
pub open spec fn erofs_bytes(superblock: Seq<u8>) -> nat {
    le32_at(superblock, EROFS_SUPER_POS_BLOCKS as int) as nat * pow2(
        superblock[EROFS_SUPER_POS_BLKSZBITS as int] as nat,
    )
}

/// Given the superblock of an EROFS image (or partition), which is its
/// bytes from `EROFS_SUPER_OFFSET` on, `EROFS_SUPER_SIZE` of them,
/// determine the total size of the image in bytes.
///
/// Fails where the superblock is not sound, where the size of a block is
/// a power of two beyond what 64 bits can shift by, or where the size of
/// the image does not fit 64 bits.
pub fn erofs_size(superblock: &[u8]) -> (r: Result<u64, Error>)
    ensures
        r is Ok <==> erofs_sound(superblock@) && superblock@[EROFS_SUPER_POS_BLKSZBITS as int]
            < 64 && erofs_bytes(superblock@) <= u64::MAX,
        r is Ok ==> r->Ok_0 == erofs_bytes(superblock@),
        r is Err ==> r == Err::<u64, Error>(Error::BadInput),
{
    if superblock.len() != EROFS_SUPER_SIZE {
        return Err(Error::BadInput);
    }
    let magic = read_le32(superblock, EROFS_SUPER_POS_MAGIC);
    if magic != EROFS_SUPER_MAGIC_V1 {
        return Err(Error::BadInput);
    }
    let cksum = read_le32(superblock, EROFS_SUPER_POS_CKSUM);
    let mut copy: Vec<u8> = Vec::new();
    let mut i: usize = 0;
    while i < superblock.len()
        invariant
            i <= superblock@.len(),
            superblock@.len() == EROFS_SUPER_SIZE,
            copy@.len() == i,
            forall|k: int| 0 <= k < i ==> copy@[k] == covered(superblock@)[k],
        decreases superblock@.len() - i,
    {
        if EROFS_SUPER_POS_CKSUM <= i && i < EROFS_SUPER_POS_CKSUM + 4 {
            copy.push(0);
        } else {
            copy.push(superblock[i]);
        }
        i += 1;
    }
    assert(copy@ =~= covered(superblock@));
    if cksum != crc32c(copy.as_slice()) ^ CRC_32C_XOROUT {
        return Err(Error::BadInput);
    }
    let blocks = read_le32(superblock, EROFS_SUPER_POS_BLOCKS);
    let blkszbits = superblock[EROFS_SUPER_POS_BLKSZBITS];
    if blkszbits >= 64 {
        return Err(Error::BadInput);
    }
    let wide = blocks as u64;
    let shift = blkszbits as u64;
    proof {
        vstd::bits::lemma_u64_mul_pow2_le_max_iff_max_shr(wide, shift, u64::MAX);
    }
    if wide > (u64::MAX >> shift) {
        return Err(Error::BadInput);
    }
    proof {
        vstd::bits::lemma_u64_shl_is_mul(wide, shift);
    }
    Ok(wide << shift)
}

} // verus!
