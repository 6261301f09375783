//! The NAND flash abstraction: a device of erase blocks, each a run of pages
//! that are programmed in rising order and erased together.

pub mod mtd;
pub mod sim;

pub use sim::{SimBlock, SimNand};

use crate::error::Error;
use vstd::prelude::*;

verus! {

/// Whether every byte of `bytes` holds the erased pattern.
pub open spec fn all_erased(bytes: Seq<u8>) -> bool {
    forall|i: int| 0 <= i < bytes.len() ==> bytes[i] == 0xFFu8
}

/// The content of a block of `len` bytes fresh from an erase.
pub open spec fn erased_bytes(len: nat) -> Seq<u8> {
    Seq::new(len, |i: int| 0xFFu8)
}

/// The `len` bytes of `contents` from `at` on.
pub open spec fn window(contents: Seq<u8>, at: int, len: nat) -> Seq<u8> {
    Seq::new(len, |i: int| contents[at + i])
}

/// The `index`-th run of `len` bytes of `image`.
pub open spec fn chunk(image: Seq<u8>, index: int, len: nat) -> Seq<u8> {
    window(image, index * len, len)
}

/// Whether every byte of `contents` from `at` on holds the erased pattern.
pub open spec fn erased_from(contents: Seq<u8>, at: int) -> bool {
    forall|i: int| at <= i < contents.len() ==> contents[i] == 0xFFu8
}

/// `data` filled up with erased bytes to whole pages.
pub open spec fn padded(data: Seq<u8>, page_size: usize) -> Seq<u8> {
    data + erased_bytes(((page_size - data.len() % (page_size as nat)) % (page_size as int)) as nat)
}

/// `base` with the bytes from `at` on replaced by `patch`.
pub open spec fn patched(base: Seq<u8>, at: int, patch: Seq<u8>) -> Seq<u8> {
    Seq::new(
        base.len(),
        |i: int|
            if at <= i < at + patch.len() {
                patch[i - at]
            } else {
                base[i]
            },
    )
}

/// Extend `v` with erased bytes up to `len` bytes.
pub fn pad_erased(v: &mut Vec<u8>, len: usize)
    requires
        old(v)@.len() <= len,
    ensures
        final(v)@ == old(v)@ + erased_bytes((len - old(v)@.len()) as nat),
{
    let ghost before = v@;
    assert(v@ =~= before + erased_bytes(0));
    while v.len() < len
        invariant
            before.len() <= v@.len() <= len,
            v@ == before + erased_bytes((v@.len() - before.len()) as nat),
        decreases len - v@.len(),
    {
        v.push(0xFF);
        assert(v@ =~= before + erased_bytes((v@.len() - before.len()) as nat));
    }
}

/// Append the bytes of `s` to `v`.
pub fn append_bytes(v: &mut Vec<u8>, s: &[u8])
    ensures
        final(v)@ == old(v)@ + s@,
{
    let ghost before = v@;
    let mut i: usize = 0;
    assert(v@ =~= before + s@.subrange(0, 0));
    while i < s.len()
        invariant
            i <= s@.len(),
            v@ == before + s@.subrange(0, i as int),
        decreases s@.len() - i,
    {
        v.push(s[i]);
        i += 1;
        assert(v@ =~= before + s@.subrange(0, i as int));
    }
    assert(s@.subrange(0, s@.len() as int) =~= s@);
}

/// Convenience methods on byte slices that hold page contents.
pub trait PageUtil {
    /// What `is_erased` computes.
    spec fn erased_spec(&self) -> bool;

    /// Does this slice hold nothing but the all-ones pattern?
    fn is_erased(&self) -> (r: bool)
        ensures
            r == self.erased_spec(),
    ;
}

impl PageUtil for [u8] {
    open spec fn erased_spec(&self) -> bool {
        all_erased(self@)
    }

    fn is_erased(&self) -> (r: bool) {
        let mut i: usize = 0;
        while i < self.len()
            invariant
                i <= self@.len(),
                forall|j: int| 0 <= j < i ==> self@[j] == 0xFFu8,
            decreases self@.len() - i,
        {
            if self[i] != 0xFF {
                return false;
            }
            i += 1;
        }
        true
    }
}

/// The data layout of a NAND flash device.
#[derive(Debug, Copy, Clone)]
pub struct NandLayout {
    pub blocks: u32,
    pub pages_per_block: u32,
    pub bytes_per_page: usize,
}

impl NandLayout {
    /// A usable layout: no dimension is zero and a block's bytes can be
    /// counted in a `usize`.
    pub open spec fn wf(self) -> bool {
        &&& self.blocks > 0
        &&& self.pages_per_block > 0
        &&& self.bytes_per_page > 0
        &&& self.pages_per_block * self.bytes_per_page <= usize::MAX
    }

    /// Bytes in one block.
    pub open spec fn block_len(self) -> nat {
        (self.pages_per_block * self.bytes_per_page) as nat
    }
}

/// Whether `len` bytes starting at page `start_page` are whole pages that
/// lie inside a block of `page_count` pages of `page_size` bytes.
pub open spec fn pages_in_range(page_count: u32, page_size: usize, start_page: u32, len: nat) -> bool {
    &&& page_size > 0
    &&& len % (page_size as nat) == 0
    &&& start_page + len / (page_size as nat) <= page_count
}

/// Whether the programming discipline admits writing `len` bytes at
/// `start_page` of a block that holds `contents`: whole pages inside the
/// block, and, unless there is nothing to write, nothing programmed from
/// `start_page` on since the last erase.
pub open spec fn programmable(
    page_count: u32,
    page_size: usize,
    contents: Seq<u8>,
    start_page: u32,
    len: nat,
) -> bool {
    &&& pages_in_range(page_count, page_size, start_page, len)
    &&& len == 0 || erased_from(contents, start_page * page_size)
}

/// What is asked of a block for any contract to speak of it: the
/// implementation's own condition holds, no dimension is zero, and the
/// contents are as many bytes as the pages hold, which can be counted.
pub open spec fn block_wf(sound: bool, page_count: u32, page_size: usize, len: nat) -> bool {
    &&& sound
    &&& page_count > 0
    &&& page_size > 0
    &&& len == page_count * page_size
    &&& len <= usize::MAX
}

/// One erase block of a NAND flash device.
///
/// The model of a block is the bytes that reading all of it returns, and
/// its bad-block mark. A device that calls itself `reliable` never refuses a
/// request that the programming discipline admits.
pub trait NandBlock: Sized {
    /// The implementation's own consistency condition. An implementation
    /// that states none has none, and no contract speaks of it.
    open spec fn sound(&self) -> bool {
        false
    }

    /// How many pages the block has.
    open spec fn page_count_spec(&self) -> u32 {
        0
    }

    /// How many bytes a page has.
    open spec fn page_size_spec(&self) -> usize {
        0
    }

    /// Every byte of the block, page after page.
    open spec fn contents(&self) -> Seq<u8> {
        Seq::empty()
    }

    /// Whether the block is marked bad.
    open spec fn marked_bad(&self) -> bool {
        false
    }

    /// Whether the device promises to carry out every admissible request.
    open spec fn reliable(&self) -> bool {
        false
    }

    /// How many pages in this block?
    fn page_count(&self) -> (r: u32)
        requires
            block_wf(
                self.sound(),
                self.page_count_spec(),
                self.page_size_spec(),
                self.contents().len(),
            ),
        ensures
            r == self.page_count_spec(),
    ;

    /// How many bytes per page?
    fn page_size(&self) -> (r: usize)
        requires
            block_wf(
                self.sound(),
                self.page_count_spec(),
                self.page_size_spec(),
                self.contents().len(),
            ),
        ensures
            r == self.page_size_spec(),
    ;

    /// Read whole pages, starting at `start_page`, into `content`.
    fn read(&self, start_page: u32, content: &mut [u8]) -> (r: Result<(), Error>)
        requires
            block_wf(
                self.sound(),
                self.page_count_spec(),
                self.page_size_spec(),
                self.contents().len(),
            ),
        ensures
            final(content)@.len() == old(content)@.len(),
            r is Ok ==> old(content)@.len() % (self.page_size_spec() as nat) == 0,
            r is Ok && old(content)@.len() > 0 ==> {
                &&& pages_in_range(
                    self.page_count_spec(),
                    self.page_size_spec(),
                    start_page,
                    old(content)@.len(),
                )
                &&& final(content)@ == window(
                    self.contents(),
                    start_page * self.page_size_spec(),
                    old(content)@.len(),
                )
            },
            self.reliable() && pages_in_range(
                self.page_count_spec(),
                self.page_size_spec(),
                start_page,
                old(content)@.len(),
            ) ==> r is Ok,
    ;

    /// Write `content`, whole pages, beginning at `start_page`.
    ///
    /// Programming a page freezes it and every page before it until the next
    /// erase; a reliable device accepts the request when all pages from
    /// `start_page` to the end of the block are still erased.
    fn program(&mut self, start_page: u32, content: &[u8]) -> (r: Result<(), Error>)
        requires
            block_wf(
                old(self).sound(),
                old(self).page_count_spec(),
                old(self).page_size_spec(),
                old(self).contents().len(),
            ),
        ensures
            block_wf(
                final(self).sound(),
                final(self).page_count_spec(),
                final(self).page_size_spec(),
                final(self).contents().len(),
            ),
            final(self).page_count_spec() == old(self).page_count_spec(),
            final(self).page_size_spec() == old(self).page_size_spec(),
            final(self).reliable() == old(self).reliable(),
            final(self).marked_bad() == old(self).marked_bad(),
            r is Ok ==> content@.len() % (old(self).page_size_spec() as nat) == 0,
            r is Ok && content@.len() == 0 ==> final(self).contents() == old(self).contents(),
            r is Ok && content@.len() > 0 ==> {
                &&& pages_in_range(
                    old(self).page_count_spec(),
                    old(self).page_size_spec(),
                    start_page,
                    content@.len(),
                )
                &&& final(self).contents() == patched(
                    old(self).contents(),
                    start_page * old(self).page_size_spec(),
                    content@,
                )
            },
            old(self).reliable() && programmable(
                old(self).page_count_spec(),
                old(self).page_size_spec(),
                old(self).contents(),
                start_page,
                content@.len(),
            ) ==> r is Ok,
    ;

    /// Erase the block, making all pages writable again.
    fn erase(&mut self) -> (r: Result<(), Error>)
        requires
            block_wf(
                old(self).sound(),
                old(self).page_count_spec(),
                old(self).page_size_spec(),
                old(self).contents().len(),
            ),
        ensures
            block_wf(
                final(self).sound(),
                final(self).page_count_spec(),
                final(self).page_size_spec(),
                final(self).contents().len(),
            ),
            final(self).page_count_spec() == old(self).page_count_spec(),
            final(self).page_size_spec() == old(self).page_size_spec(),
            final(self).reliable() == old(self).reliable(),
            final(self).marked_bad() == old(self).marked_bad(),
            r is Ok ==> final(self).contents() == erased_bytes(old(self).contents().len()),
            old(self).reliable() ==> r is Ok,
    ;

    /// Mark the block as bad; the device hands it out no more.
    ///
    /// To be called when an erase fails, or when an in-order program fails
    /// again after an erase.
    fn mark_bad(&mut self) -> (r: Result<(), Error>)
        requires
            block_wf(
                old(self).sound(),
                old(self).page_count_spec(),
                old(self).page_size_spec(),
                old(self).contents().len(),
            ),
        ensures
            block_wf(
                final(self).sound(),
                final(self).page_count_spec(),
                final(self).page_size_spec(),
                final(self).contents().len(),
            ),
            final(self).page_count_spec() == old(self).page_count_spec(),
            final(self).page_size_spec() == old(self).page_size_spec(),
            final(self).reliable() == old(self).reliable(),
            r is Ok ==> final(self).marked_bad(),
            r is Err ==> final(self).marked_bad() == old(self).marked_bad(),
            old(self).reliable() ==> r is Ok,
    ;
}

/// Whether the contracts speak of `block`.
pub open spec fn valid_block<B: NandBlock>(block: &B) -> bool {
    block_wf(block.sound(), block.page_count_spec(), block.page_size_spec(), block.contents().len())
}

/// `after` is the same physical block as `before`: consistent, and with the
/// same geometry and reliability.
pub open spec fn same_block<B: NandBlock>(before: &B, after: &B) -> bool {
    &&& valid_block(after)
    &&& after.page_count_spec() == before.page_count_spec()
    &&& after.page_size_spec() == before.page_size_spec()
    &&& after.reliable() == before.reliable()
}

/// A NAND flash device.
pub trait Nand: Sized {
    type Block: NandBlock;

    /// The implementation's own consistency condition. An implementation
    /// that states none has none, and no contract speaks of it.
    open spec fn sound(&self) -> bool {
        false
    }

    /// The layout of the device.
    open spec fn layout_spec(&self) -> NandLayout {
        NandLayout { blocks: 0, pages_per_block: 0, bytes_per_page: 0 }
    }

    /// The block at `index`, as the device holds it now.
    open spec fn block_spec(&self, index: int) -> Self::Block {
        arbitrary()
    }

    /// Whether the device promises to carry out every admissible request.
    open spec fn reliable(&self) -> bool {
        false
    }

    /// Get the layout of the NAND.
    fn get_layout(&self) -> (r: NandLayout)
        requires
            self.sound(),
            self.layout_spec().wf(),
        ensures
            r == self.layout_spec(),
            r.wf(),
    ;

    /// Get a block. `None` stands for a block that is marked bad.
    fn block(&mut self, index: u32) -> (r: Result<Option<&mut Self::Block>, Error>)
        requires
            old(self).sound(),
            old(self).layout_spec().wf(),
            forall|i: int|
                0 <= i < old(self).layout_spec().blocks ==> block_fits(
                    &#[trigger] old(self).block_spec(i),
                    old(self).layout_spec(),
                    old(self).reliable(),
                ),
        ensures
            final(self).layout_spec() == old(self).layout_spec(),
            final(self).reliable() == old(self).reliable(),
            forall|j: int|
                0 <= j < old(self).layout_spec().blocks && j != index ==> final(self).block_spec(j)
                    == old(self).block_spec(j),
            index >= old(self).layout_spec().blocks ==> r is Err,
            old(self).reliable() && index < old(self).layout_spec().blocks ==> r is Ok,
            match r {
                Ok(Some(b)) => {
                    &&& *b == old(self).block_spec(index as int)
                    &&& !b.marked_bad()
                    &&& final(self).block_spec(index as int) == *final(b)
                    &&& same_block(b, final(b)) ==> final(self).sound() && forall|i: int|
                        0 <= i < old(self).layout_spec().blocks ==> block_fits(
                            &#[trigger] final(self).block_spec(i),
                            old(self).layout_spec(),
                            old(self).reliable(),
                        )
                },
                Ok(None) => {
                    &&& old(self).block_spec(index as int).marked_bad()
                    &&& final(self).block_spec(index as int) == old(self).block_spec(index as int)
                    &&& final(self).sound()
                },
                Err(_) => {
                    &&& final(self).block_spec(index as int) == old(self).block_spec(index as int)
                    &&& final(self).sound()
                },
            },
    ;
}

/// Whether the contracts speak of `nand`: the implementation's own
/// condition holds, the layout is usable, and every block is a valid block
/// with the geometry of the layout.
pub open spec fn valid_nand<N: Nand>(nand: &N) -> bool {
    &&& nand.sound()
    &&& nand.layout_spec().wf()
    &&& forall|i: int|
        0 <= i < nand.layout_spec().blocks ==> block_fits(
            &#[trigger] nand.block_spec(i),
            nand.layout_spec(),
            nand.reliable(),
        )
}

/// What a valid device guarantees about each block.
pub proof fn nand_facts<N: Nand>(nand: &N, index: int)
    requires
        valid_nand(nand),
        0 <= index < nand.layout_spec().blocks,
    ensures
        nand.layout_spec().wf(),
        block_fits(&nand.block_spec(index), nand.layout_spec(), nand.reliable()),
{
}

/// `block` is a consistent block of a device with layout `layout`.
pub open spec fn block_fits<B: NandBlock>(block: &B, layout: NandLayout, reliable: bool) -> bool {
    &&& valid_block(block)
    &&& block.page_count_spec() == layout.pages_per_block
    &&& block.page_size_spec() == layout.bytes_per_page
    &&& reliable ==> block.reliable()
}

} // verus!
