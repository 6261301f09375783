//! What the Linux MTD subsystem tells about a device, and the layout that
//! follows from it.

use crate::error::Error;
use crate::nand::NandLayout;
use vstd::prelude::*;

verus! {

/// The page size that stands in for a write size of 1, which the RAM
/// devices used for debugging report.
pub const MTDRAM_PAGE_SIZE: u32 = 64;

/// What the MTD subsystem reports about a device.
#[allow(non_camel_case_types)]
#[derive(Debug, Copy, Clone)]
pub struct mtd_info_user {
    pub kind: u8,
    pub flags: u32,
    pub size: u32,
    pub erasesize: u32,
    pub writesize: u32,
    pub oobsize: u32,
    pub padding: u64,
}

/// The region of a device that is to be erased.
#[allow(non_camel_case_types)]
#[derive(Debug, Copy, Clone)]
pub struct erase_info_user {
    pub start: u32,
    pub length: u32,
}

impl mtd_info_user {
    /// The size of a page: the write size, but for the write size 1.
    pub open spec fn page_size(self) -> u32 {
        if self.writesize == 1 {
            MTDRAM_PAGE_SIZE
        } else {
            self.writesize
        }
    }

    /// Whether the sizes divide as those of a NAND do: the device into
    /// blocks, and a block into pages.
    pub open spec fn divides(self) -> bool {
        &&& self.erasesize > 0
        &&& self.page_size() > 0
        &&& self.size % self.erasesize == 0
        &&& self.erasesize % self.page_size() == 0
    }

    /// The layout of the device; fails where the sizes do not divide.
    pub fn try_into_layout(self) -> (r: Result<NandLayout, Error>)
        ensures
            r is Ok <==> self.divides(),
            r is Ok ==> r->Ok_0 == (NandLayout {
                blocks: self.size / self.erasesize,
                pages_per_block: self.erasesize / self.page_size(),
                bytes_per_page: self.page_size() as usize,
            }),
            r is Ok && self.size > 0 ==> r->Ok_0.wf(),
            r is Err ==> r == Err::<NandLayout, Error>(Error::BadInput),
    {
        let writesize = if self.writesize == 1 {
            // Hack for debugging on mtdram devices.
            MTDRAM_PAGE_SIZE
        } else {
            self.writesize
        };
        if self.erasesize == 0 || writesize == 0 {
            return Err(Error::BadInput);
        }
        if self.size % self.erasesize != 0 {
            return Err(Error::BadInput);
        }
        if self.erasesize % writesize != 0 {
            return Err(Error::BadInput);
        }
        let blocks = self.size / self.erasesize;
        let pages_per_block = self.erasesize / writesize;
        let bytes_per_page = writesize as usize;
        proof {
            assert(pages_per_block * writesize == self.erasesize) by (nonlinear_arith)
                requires
                    pages_per_block == self.erasesize / writesize,
                    self.erasesize % writesize == 0,
                    writesize > 0,
            ;
            assert(self.size > 0 ==> blocks > 0) by (nonlinear_arith)
                requires
                    blocks == self.size / self.erasesize,
                    self.size % self.erasesize == 0,
                    self.erasesize > 0,
            ;
            assert(pages_per_block > 0) by (nonlinear_arith)
                requires
                    pages_per_block * writesize == self.erasesize,
                    self.erasesize > 0,
                    writesize > 0,
                    pages_per_block >= 0,
            ;
        }
        Ok(NandLayout { blocks, pages_per_block, bytes_per_page })
    }
}

} // verus!
