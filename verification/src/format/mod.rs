//! Bringing the boot partition into shape.
//!
//! Firmware of the first series kept a vendor boot loader in the first
//! megabyte of the flash. This module erases such a boot loader where it is
//! found, so that it does not get in the way of the U-Boot SPL, and writes
//! raw images to the NAND.
//!
//! Both are idempotent, and no-ops on flash that has been migrated, so that
//! an installation can always run them.

pub mod raw;

use crate::error::Error;
use crate::nand::{erased_bytes, nand_facts, pad_erased, valid_nand, window, Nand, NandBlock};
use vstd::prelude::*;

verus! {

/// `eGON.BT0`, which a vendor boot loader carries at offset 4.
pub open spec fn boot0_magic() -> Seq<u8> {
    seq![0x65u8, 0x47u8, 0x4Fu8, 0x4Eu8, 0x2Eu8, 0x42u8, 0x54u8, 0x30u8]
}

/// `SPL`, which a U-Boot SPL carries at offset 20.
pub open spec fn spl_magic() -> Seq<u8> {
    seq![0x53u8, 0x50u8, 0x4Cu8]
}

/// Whether `buffer` opens with the header of a vendor boot loader. A
/// U-Boot SPL, whose header is much the same, is none. `None` where the
/// buffer is too short to tell.
pub open spec fn boot0_spec(buffer: Seq<u8>) -> Option<bool> {
    if buffer.len() < 0x0c {
        None
    } else if window(buffer, 0x04, 8) != boot0_magic() {
        Some(false)
    } else if buffer.len() < 0x17 {
        None
    } else if window(buffer, 0x14, 3) == spl_magic() {
        Some(false)
    } else {
        Some(true)
    }
}

/// Whether the bytes of `buffer` from `at` on are those of `pattern`.
fn holds_at(buffer: &[u8], at: usize, pattern: &[u8]) -> (r: bool)
    requires
        at + pattern@.len() <= buffer@.len(),
    ensures
        r == (window(buffer@, at as int, pattern@.len()) == pattern@),
{
    let total = buffer.len();
    let mut i: usize = 0;
    while i < pattern.len()
        invariant
            i <= pattern@.len(),
            total == buffer@.len(),
            at + pattern@.len() <= buffer@.len(),
            forall|j: int| 0 <= j < i ==> buffer@[at + j] == pattern@[j],
        decreases pattern@.len() - i,
    {
        if buffer[at + i] != pattern[i] {
            assert(window(buffer@, at as int, pattern@.len())[i as int] != pattern@[i as int]);
            return false;
        }
        i += 1;
    }
    assert(window(buffer@, at as int, pattern@.len()) =~= pattern@);
    true
}

/// Scan a buffer and determine if this is the header of a vendor boot
/// loader.
///
/// This is careful not to detect U-Boot SPL headers, which are formatted
/// very similarly.
pub fn is_boot0(buffer: &[u8]) -> (r: Option<bool>)
    ensures
        r == boot0_spec(buffer@),
{
    // Check for the BT0 magic.
    if buffer.len() < 0x0c {
        return None;
    }
    let magic: [u8; 8] = [0x65, 0x47, 0x4F, 0x4E, 0x2E, 0x42, 0x54, 0x30];
    assert(magic@ =~= boot0_magic());
    if !holds_at(buffer, 0x04, magic.as_slice()) {
        return Some(false);
    }
    // Check if this is actually a U-Boot SPL.
    if buffer.len() < 0x17 {
        return None;
    }
    let spl: [u8; 3] = [0x53, 0x50, 0x4C];
    assert(spl@ =~= spl_magic());
    if holds_at(buffer, 0x14, spl.as_slice()) {
        return Some(false);
    }
    Some(true)
}

/// Whether a block opens with the header of a vendor boot loader.
pub open spec fn holds_boot0<B: NandBlock>(block: &B) -> bool {
    boot0_spec(window(block.contents(), 0, block.page_size_spec() as nat)) == Some(true)
}

/// Whether block `i` is as a purge leaves it: erased where it is not bad
/// and held a vendor boot loader, else untouched.
pub open spec fn purged<N: Nand>(before: &N, after: &N, i: int) -> bool {
    if !before.block_spec(i).marked_bad() && holds_boot0(&before.block_spec(i)) {
        &&& after.block_spec(i).contents() == erased_bytes(before.block_spec(i).contents().len())
        &&& !after.block_spec(i).marked_bad()
    } else {
        after.block_spec(i) == before.block_spec(i)
    }
}

/// Whether a purge was cut short at block `n`: the blocks before it are as
/// a purge leaves them, and those behind it are untouched.
pub open spec fn purge_failed_at<N: Nand>(before: &N, after: &N, n: int) -> bool {
    &&& 0 <= n < before.layout_spec().blocks
    &&& forall|i: int| 0 <= i < n ==> #[trigger] purged(before, after, i)
    &&& forall|i: int|
        n < i < before.layout_spec().blocks ==> #[trigger] after.block_spec(i) == before.block_spec(
            i,
        )
}

/// Scan each block looking for the header of a vendor boot loader, and
/// erase the blocks found.
///
/// Returns `true` if any blocks were erased. Fails at the first block
/// that the device refuses to hand out, to read or to erase; the blocks
/// before it have been dealt with by then.
pub fn purge_boot0<N: Nand>(nand: &mut N) -> (r: Result<bool, Error>)
    requires
        valid_nand(old(nand)),
    ensures
        valid_nand(final(nand)),
        final(nand).layout_spec() == old(nand).layout_spec(),
        final(nand).reliable() == old(nand).reliable(),
        r is Ok ==> forall|i: int|
            0 <= i < old(nand).layout_spec().blocks ==> #[trigger] purged(old(nand), final(nand), i),
        r is Ok ==> (r->Ok_0 <==> exists|i: int|
            0 <= i < old(nand).layout_spec().blocks && !(#[trigger] old(nand).block_spec(
                i,
            )).marked_bad() && holds_boot0(&old(nand).block_spec(i))),
        r is Err ==> exists|n: int| #[trigger] purge_failed_at(old(nand), final(nand), n),
        old(nand).reliable() ==> r is Ok,
{
    let mut any_erased = false;
    let layout = nand.get_layout();
    let mut page_buf: Vec<u8> = Vec::new();
    pad_erased(&mut page_buf, layout.bytes_per_page);
    let mut block_index: u32 = 0;
    while block_index < layout.blocks
        invariant
            valid_nand(&*nand),
            nand.layout_spec() == old(nand).layout_spec(),
            nand.reliable() == old(nand).reliable(),
            layout == nand.layout_spec(),
            page_buf@.len() == layout.bytes_per_page,
            block_index <= layout.blocks,
            forall|i: int| 0 <= i < block_index ==> #[trigger] purged(old(nand), &*nand, i),
            forall|i: int|
                block_index <= i < layout.blocks ==> #[trigger] nand.block_spec(i) == old(
                    nand,
                ).block_spec(i),
            any_erased <==> exists|i: int|
                0 <= i < block_index && !(#[trigger] old(nand).block_spec(i)).marked_bad()
                    && holds_boot0(&old(nand).block_spec(i)),
        decreases layout.blocks - block_index,
    {
        let ghost before = *nand;
        let ghost n = block_index as int;
        proof {
            nand_facts(&*nand, n);
            assert(before.block_spec(n) == old(nand).block_spec(n));
            lemma_first_page(layout.pages_per_block, layout.bytes_per_page);
        }
        let mut erased = false;
        let outcome = match nand.block(block_index) {
            Err(e) => Err(e),
            Ok(None) => Ok(()),
            Ok(Some(block)) => {
                match block.read(0, page_buf.as_mut_slice()) {
                    Err(e) => Err(e),
                    Ok(()) => {
                        if let Some(true) = is_boot0(page_buf.as_slice()) {
                            match block.erase() {
                                Err(e) => Err(e),
                                Ok(()) => {
                                    erased = true;
                                    Ok(())
                                },
                            }
                        } else {
                            Ok(())
                        }
                    },
                }
            },
        };
        proof {
            assert forall|i: int| 0 <= i < n implies #[trigger] purged(old(nand), &*nand, i) by {
                assert(purged(old(nand), &before, i));
            }
            assert forall|i: int| n < i < layout.blocks implies #[trigger] nand.block_spec(i)
                == old(nand).block_spec(i) by {
                assert(before.block_spec(i) == old(nand).block_spec(i));
            }
        }
        match outcome {
            Err(e) => {
                assert(purge_failed_at(old(nand), &*nand, n));
                return Err(e);
            },
            Ok(()) => {},
        }
        if erased {
            any_erased = true;
        }
        proof {
            assert(purged(old(nand), &*nand, n));
        }
        block_index += 1;
    }
    Ok(any_erased)
}

/// The first page of a block is whole pages in range.
proof fn lemma_first_page(page_count: u32, page_size: usize)
    requires
        page_count > 0,
        page_size > 0,
    ensures
        crate::nand::pages_in_range(page_count, page_size, 0, page_size as nat),
        0 * page_size == 0,
{
    assert(page_size as nat % page_size as nat == 0 && page_size as nat / page_size as nat == 1)
        by (nonlinear_arith)
        requires
            page_size > 0,
    ;
}

} // verus!
