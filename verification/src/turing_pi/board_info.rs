//! The board information that the EEPROM of the board holds.

use crate::error::Error;
use crate::nand::append_bytes;
use crate::nand::window;
use crate::ubi::bytes::{
    be16, be16_at, be32, be32_at, lemma_be16_at, lemma_be32_at, push_be16, push_be32, read_be16,
    read_be32,
};
use vstd::prelude::*;

verus! {

/// Bytes that the board information takes in the EEPROM.
pub const BOARDINFO_SIZE: usize = 42;

/// The board information, as the EEPROM holds it.
#[derive(Debug, Clone, Copy, PartialEq, Eq)]
pub struct BoardInfo {
    pub reserved: u16,
    pub crc32: u32,
    pub hdr_version: u16,
    pub hw_version: u16,
    pub factory_date: u16,
    pub factory_serial: [u8; 8],
    pub product_name: [u8; 16],
    pub mac: [u8; 6],
}

impl BoardInfo {
    /// The board information in the EEPROM: its fields in their order, the
    /// numbers with their most significant byte first.
    pub open spec fn image(self) -> Seq<u8> {
        be16(self.reserved) + be32(self.crc32) + be16(self.hdr_version) + be16(self.hw_version)
            + be16(self.factory_date) + self.factory_serial@ + self.product_name@ + self.mac@
    }

    /// Whether `bytes` begins with the board information `info`.
    pub open spec fn parsed(bytes: Seq<u8>, info: BoardInfo) -> bool {
        &&& info.reserved == be16_at(bytes, 0)
        &&& info.crc32 == be32_at(bytes, 2)
        &&& info.hdr_version == be16_at(bytes, 6)
        &&& info.hw_version == be16_at(bytes, 8)
        &&& info.factory_date == be16_at(bytes, 10)
        &&& info.factory_serial@ == window(bytes, 12, 8)
        &&& info.product_name@ == window(bytes, 20, 16)
        &&& info.mac@ == window(bytes, 36, 6)
    }

    /// Read the board information from the first bytes of `bytes`; fails
    /// where these are too few.
    pub fn from_bytes(bytes: &[u8]) -> (r: Result<BoardInfo, Error>)
        ensures
            r is Ok <==> bytes@.len() >= BOARDINFO_SIZE,
            r is Ok ==> BoardInfo::parsed(bytes@, r->Ok_0),
            r is Err ==> r == Err::<BoardInfo, Error>(Error::BadInput),
    {
        if bytes.len() < BOARDINFO_SIZE {
            return Err(Error::BadInput);
        }
        let reserved = read_be16(bytes, 0);
        let crc32 = read_be32(bytes, 2);
        let hdr_version = read_be16(bytes, 6);
        let hw_version = read_be16(bytes, 8);
        let factory_date = read_be16(bytes, 10);
        let mut factory_serial = [0u8; 8];
        let mut i: usize = 0;
        while i < 8
            invariant
                i <= 8,
                bytes@.len() >= BOARDINFO_SIZE,
                forall|k: int| 0 <= k < i ==> factory_serial@[k] == bytes@[12 + k],
            decreases 8 - i,
        {
            factory_serial[i] = bytes[12 + i];
            i += 1;
        }
        let mut product_name = [0u8; 16];
        let mut i: usize = 0;
        while i < 16
            invariant
                i <= 16,
                bytes@.len() >= BOARDINFO_SIZE,
                forall|k: int| 0 <= k < i ==> product_name@[k] == bytes@[20 + k],
            decreases 16 - i,
        {
            product_name[i] = bytes[20 + i];
            i += 1;
        }
        let mut mac = [0u8; 6];
        let mut i: usize = 0;
        while i < 6
            invariant
                i <= 6,
                bytes@.len() >= BOARDINFO_SIZE,
                forall|k: int| 0 <= k < i ==> mac@[k] == bytes@[36 + k],
            decreases 6 - i,
        {
            mac[i] = bytes[36 + i];
            i += 1;
        }
        assert(factory_serial@ =~= window(bytes@, 12, 8));
        assert(product_name@ =~= window(bytes@, 20, 16));
        assert(mac@ =~= window(bytes@, 36, 6));
        Ok(
            BoardInfo {
                reserved,
                crc32,
                hdr_version,
                hw_version,
                factory_date,
                factory_serial,
                product_name,
                mac,
            },
        )
    }

    /// The bytes that are written back to the EEPROM.
    pub fn to_bytes(&self) -> (r: Vec<u8>)
        ensures
            r@ == self.image(),
            r@.len() == BOARDINFO_SIZE,
    {
        let mut bytes: Vec<u8> = Vec::new();
        assert(bytes@ =~= Seq::<u8>::empty());
        push_be16(&mut bytes, self.reserved);
        assert(bytes@ =~= be16(self.reserved));
        push_be32(&mut bytes, self.crc32);
        push_be16(&mut bytes, self.hdr_version);
        push_be16(&mut bytes, self.hw_version);
        push_be16(&mut bytes, self.factory_date);
        append_bytes(&mut bytes, self.factory_serial.as_slice());
        append_bytes(&mut bytes, self.product_name.as_slice());
        append_bytes(&mut bytes, self.mac.as_slice());
        bytes
    }
}

/// Reading back what was written gives the board information again.
pub proof fn lemma_board_info_roundtrip(info: BoardInfo)
    ensures
        info.image().len() == BOARDINFO_SIZE,
        BoardInfo::parsed(info.image(), info),
{
    let bytes = info.image();
    assert(bytes.subrange(0, 2) =~= be16(info.reserved));
    lemma_be16_at(bytes, 0, info.reserved);
    assert(bytes.subrange(2, 6) =~= be32(info.crc32));
    lemma_be32_at(bytes, 2, info.crc32);
    assert(bytes.subrange(6, 8) =~= be16(info.hdr_version));
    lemma_be16_at(bytes, 6, info.hdr_version);
    assert(bytes.subrange(8, 10) =~= be16(info.hw_version));
    lemma_be16_at(bytes, 8, info.hw_version);
    assert(bytes.subrange(10, 12) =~= be16(info.factory_date));
    lemma_be16_at(bytes, 10, info.factory_date);
    assert(info.factory_serial@ =~= window(bytes, 12, 8));
    assert(info.product_name@ =~= window(bytes, 20, 16));
    assert(info.mac@ =~= window(bytes, 36, 6));
}

} // verus!
