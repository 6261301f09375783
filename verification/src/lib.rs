//! Flash-level engine of a BMC firmware installer: a NAND model, the UBI
//! on-flash headers, block scanning, reformatting with migration away from
//! the superblock layout, volume imaging, and an idempotent raw image writer.

pub mod error;
pub mod format;
pub mod image;
pub mod nand;
pub mod turing_pi;
pub mod ubi;
pub mod util;
