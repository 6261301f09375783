//! UBI reformatting and imaging, with the migration away from the layout in
//! which a vendor driver fused each pair of physical blocks into one
//! superblock.
//!
//! UBI puts an erase-counter header into the first page of every block and,
//! where the block is in use, a volume-identifier header into the second.
//! Under the superblock layout that second header lands in page 0 of the odd
//! block of a pair, which is how the need for a migration is detected.

pub mod bytes;
pub mod format;
pub mod headers;
pub mod keys;
pub mod place;
pub mod scan;
pub mod ubinize;
pub mod write;


pub use headers::VolType;
pub use scan::{scan_blocks, Ebt};
pub use write::write_volumes;
