//! A simulated in-memory NAND flash, which keeps to the programming
//! discipline of the real thing: writing an erased page is a no-op, unwritten
//! regions read as erased, and programming inside the written prefix fails.

use crate::error::Error;
use crate::nand::{
    all_erased, append_bytes, chunk, erased_bytes, erased_from, pad_erased, patched, valid_block,
    valid_nand, window, Nand, NandBlock, NandLayout, PageUtil,
};
use vstd::prelude::*;

verus! {

/// A block of [`SimNand`].
#[derive(Debug, Clone)]
pub struct SimBlock {
    /// All bytes of all written pages; programming can only append to this.
    data: Vec<u8>,
    /// How many pages in this block.
    page_count: u32,
    /// How many bytes per page.
    page_size: usize,
    /// Is this block marked bad?
    marked_bad: bool,
}

/// How many whole pages a simulated block takes from a buffer of `len`
/// bytes that is to be programmed at `start_page`: none when a page from
/// `start_page` on is already programmed, else as many as the buffer holds
/// and the block has room for.
pub open spec fn pages_accepted(
    page_count: u32,
    page_size: usize,
    contents: Seq<u8>,
    start_page: u32,
    len: nat,
) -> nat {
    if start_page < page_count && erased_from(contents, start_page * page_size) {
        pages_delivered(page_count, page_size, start_page, len)
    } else {
        0
    }
}

/// How many whole pages a simulated block delivers into a buffer of `len`
/// bytes that is read from `start_page`: as many as the buffer holds and
/// the block has from there on.
pub open spec fn pages_delivered(page_count: u32, page_size: usize, start_page: u32, len: nat) -> nat {
    if start_page < page_count {
        let room = (page_count - start_page) as nat;
        if len / (page_size as nat) <= room {
            len / (page_size as nat)
        } else {
            room
        }
    } else {
        0
    }
}

proof fn lemma_page_bounds(index: int, count: int, ps: int)
    requires
        0 <= index < count,
        ps > 0,
    ensures
        0 <= index * ps,
        index * ps + ps <= count * ps,
        (index + 1) * ps == index * ps + ps,
{
    assert(index * ps + ps <= count * ps) by (nonlinear_arith)
        requires
            0 <= index < count,
            ps > 0,
    ;
    assert(0 <= index * ps) by (nonlinear_arith)
        requires
            0 <= index,
            ps > 0,
    ;
    assert((index + 1) * ps == index * ps + ps) by (nonlinear_arith);
}

proof fn lemma_whole_pages(len: int, ps: int, k: int)
    requires
        ps > 0,
        0 <= k,
        k * ps <= len,
    ensures
        k <= len / ps,
        len < k * ps + ps ==> len / ps == k,
        len == k * ps ==> len % ps == 0,
        len % ps == 0 ==> (len / ps) * ps == len,
{
    assert(k <= len / ps) by (nonlinear_arith)
        requires
            ps > 0,
            0 <= k,
            k * ps <= len,
    ;
    assert(len < k * ps + ps ==> len / ps == k) by (nonlinear_arith)
        requires
            ps > 0,
            0 <= k,
            k * ps <= len,
    ;
    assert(len == k * ps ==> len % ps == 0) by (nonlinear_arith)
        requires
            ps > 0,
            0 <= k,
    ;
    assert(len % ps == 0 ==> (len / ps) * ps == len) by (nonlinear_arith)
        requires
            ps > 0,
    ;
}

impl SimBlock {
    /// The representation invariant: the written bytes are whole pages that
    /// fit the block, and the last written page is not an erased one.
    pub closed spec fn valid(&self) -> bool {
        &&& self.page_size > 0
        &&& self.page_count > 0
        &&& self.page_count * self.page_size <= usize::MAX
        &&& self.data@.len() % (self.page_size as nat) == 0
        &&& self.data@.len() <= self.page_count * self.page_size
        &&& self.data@.len() > 0 ==> !all_erased(
            self.data@.subrange(self.data@.len() - self.page_size, self.data@.len() as int),
        )
    }

    pub closed spec fn pages(&self) -> u32 {
        self.page_count
    }

    pub closed spec fn page_len(&self) -> usize {
        self.page_size
    }

    pub closed spec fn bad(&self) -> bool {
        self.marked_bad
    }

    /// Every byte of the block: what was written, then erased bytes.
    pub closed spec fn bytes(&self) -> Seq<u8> {
        Seq::new(
            (self.page_count * self.page_size) as nat,
            |i: int|
                if i < self.data@.len() {
                    self.data@[i]
                } else {
                    0xFFu8
                },
        )
    }

    /// Construct an empty block within the given layout.
    pub fn new(layout: NandLayout) -> (r: Self)
        requires
            layout.wf(),
        ensures
            r.valid(),
            valid_block(&r),
            r.pages() == layout.pages_per_block,
            r.page_len() == layout.bytes_per_page,
            r.bytes() == erased_bytes(layout.block_len()),
            !r.bad(),
    {
        let r = Self {
            data: Vec::new(),
            page_count: layout.pages_per_block,
            page_size: layout.bytes_per_page,
            marked_bad: false,
        };
        assert(r.bytes() =~= erased_bytes(layout.block_len()));
        r
    }

    /// What `valid` guarantees about the size of the block.
    pub proof fn lemma_valid(&self)
        requires
            self.valid(),
        ensures
            self.pages() > 0,
            self.page_len() > 0,
            self.bytes().len() == self.pages() * self.page_len(),
            self.bytes().len() <= usize::MAX,
    {
        assert(self.page_count * self.page_size >= 0) by (nonlinear_arith)
            requires
                self.page_count >= 0,
                self.page_size >= 0,
        ;
    }

    /// The pages from `start_page` on are all erased exactly when nothing
    /// written reaches that page.
    proof fn lemma_frontier(&self, start_page: u32)
        requires
            self.valid(),
            start_page <= self.page_count,
        ensures
            erased_from(self.bytes(), start_page * self.page_size) <==> start_page
                * self.page_size >= self.data@.len(),
    {
        let ps = self.page_size as int;
        let begin = start_page * ps;
        let total = self.page_count * ps;
        let len = self.data@.len() as int;
        assert(0 <= begin <= total) by (nonlinear_arith)
            requires
                begin == start_page * ps,
                total == self.page_count * ps,
                0 <= start_page <= self.page_count,
                ps > 0,
        ;
        if begin >= len {
        } else {
            // Both are multiples of the page size, so the last written page
            // starts at or after `begin`.
            assert(len - ps >= begin) by (nonlinear_arith)
                requires
                    begin == start_page * ps,
                    len % ps == 0,
                    begin < len,
                    ps > 0,
                    0 <= start_page,
            ;
            let last = self.data@.subrange(len - ps, len);
            if erased_from(self.bytes(), begin) {
                assert forall|i: int| 0 <= i < last.len() implies last[i] == 0xFFu8 by {
                    assert(self.bytes()[len - ps + i] == 0xFFu8);
                }
                assert(false);
            }
        }
    }

    /// Write one page. Nothing changes where the request is refused.
    pub fn write_page(&mut self, index: u32, content: &[u8]) -> (r: Result<(), Error>)
        requires
            old(self).valid(),
        ensures
            final(self).valid(),
            final(self).pages() == old(self).pages(),
            final(self).page_len() == old(self).page_len(),
            final(self).bad() == old(self).bad(),
            r is Ok <==> content@.len() == old(self).page_len() && pages_accepted(
                old(self).pages(),
                old(self).page_len(),
                old(self).bytes(),
                index,
                content@.len(),
            ) == 1,
            r is Ok ==> final(self).bytes() == patched(
                old(self).bytes(),
                index * old(self).page_len(),
                content@,
            ),
            r is Err ==> r == Err::<(), Error>(Error::Io) && *final(self) == *old(self),
    {
        proof {
            if index <= self.page_count {
                self.lemma_frontier(index);
            }
            assert(self.page_size as nat / self.page_size as nat == 1) by (nonlinear_arith)
                requires
                    self.page_size > 0,
            ;
        }
        if content.len() != self.page_size {
            return Err(Error::Io);
        }
        if index >= self.page_count {
            return Err(Error::Io);
        }
        proof {
            lemma_page_bounds(index as int, self.page_count as int, self.page_size as int);
        }
        let begin = index as usize * self.page_size;
        if begin < self.data.len() {
            return Err(Error::Io);
        }
        let ghost before = *self;
        // Writing fully-erased content is a no-op.
        if !content.is_erased() {
            pad_erased(&mut self.data, begin);
            append_bytes(&mut self.data, content);
            proof {
                let len = self.data@.len() as int;
                let ps = self.page_size as int;
                assert(self.data@.subrange(len - ps, len) =~= content@);
                lemma_whole_pages(len, ps, index + 1);
            }
        }
        assert(self.bytes() =~= patched(before.bytes(), begin as int, content@));
        Ok(())
    }

    /// Read one page. Nothing changes where the request is refused.
    pub fn read_page(&self, index: u32, content: &mut [u8]) -> (r: Result<(), Error>)
        requires
            self.valid(),
        ensures
            final(content)@.len() == old(content)@.len(),
            r is Ok <==> old(content)@.len() == self.page_len() && index < self.pages(),
            r is Ok ==> final(content)@ == window(
                self.bytes(),
                index * self.page_len(),
                self.page_len() as nat,
            ),
            r is Err ==> r == Err::<(), Error>(Error::Io) && final(content)@ == old(content)@,
    {
        if content.len() != self.page_size {
            return Err(Error::Io);
        }
        if index >= self.page_count {
            return Err(Error::Io);
        }
        proof {
            lemma_page_bounds(index as int, self.page_count as int, self.page_size as int);
        }
        let begin = index as usize * self.page_size;
        let mut k: usize = 0;
        while k < self.page_size
            invariant
                self.valid(),
                k <= self.page_size,
                content@.len() == self.page_size,
                begin == index * self.page_size,
                begin + self.page_size <= self.page_count * self.page_size,
                forall|j: int| 0 <= j < k ==> content@[j] == self.bytes()[begin + j],
            decreases self.page_size - k,
        {
            let b: u8 = if begin + k < self.data.len() {
                self.data[begin + k]
            } else {
                0xFF
            };
            content[k] = b;
            k += 1;
        }
        assert(content@ =~= window(self.bytes(), begin as int, self.page_size as nat));
        Ok(())
    }
}

impl NandBlock for SimBlock {
    open spec fn sound(&self) -> bool {
        self.valid()
    }

    open spec fn page_count_spec(&self) -> u32 {
        self.pages()
    }

    open spec fn page_size_spec(&self) -> usize {
        self.page_len()
    }

    open spec fn contents(&self) -> Seq<u8> {
        self.bytes()
    }

    open spec fn marked_bad(&self) -> bool {
        self.bad()
    }

    open spec fn reliable(&self) -> bool {
        true
    }

    fn page_count(&self) -> (r: u32) {
        self.page_count
    }

    fn page_size(&self) -> (r: usize) {
        self.page_size
    }

    /// Reads page by page, and stops at the first page that is cut short or
    /// lies outside the block: the pages before it have been delivered.
    fn read(&self, start_page: u32, content: &mut [u8]) -> (r: Result<(), Error>)
        ensures
            final(content)@ == patched(
                old(content)@,
                0,
                window(
                    self.bytes(),
                    start_page * self.page_len(),
                    pages_delivered(
                        self.pages(),
                        self.page_len(),
                        start_page,
                        old(content)@.len(),
                    ) * (self.page_len() as nat),
                ),
            ),
            r is Ok <==> pages_delivered(
                self.pages(),
                self.page_len(),
                start_page,
                old(content)@.len(),
            ) * self.page_len() == old(content)@.len(),
            r is Err ==> r == Err::<(), Error>(Error::Io),
    {
        let ps = self.page_size;
        let len = content.len();
        let ghost before = content@;
        let ghost base = start_page * ps;
        let mut page_buf: Vec<u8> = Vec::new();
        pad_erased(&mut page_buf, ps);
        let mut off: usize = 0;
        let mut page: u32 = start_page;
        let ghost mut k: int = 0;
        proof {
            self.lemma_valid();
            assert(content@ =~= patched(before, 0, window(self.bytes(), base, 0)));
            assert(0 * ps == 0) by (nonlinear_arith);
        }
        while off < len
            invariant
                self.valid(),
                ps == self.page_size,
                ps > 0,
                len == content@.len(),
                len == before.len(),
                page_buf@.len() == ps,
                base == start_page * ps,
                0 <= k,
                off == k * ps,
                off <= len,
                page == start_page + k,
                k > 0 ==> start_page + k <= self.page_count,
                before == old(content)@,
                content@ == patched(before, 0, window(self.bytes(), base, off as nat)),
            decreases len - off,
        {
            proof {
                lemma_whole_pages(len as int, ps as int, k);
            }
            if len - off < ps || page >= self.page_count {
                return Err(Error::Io);
            }
            proof {
                lemma_page_bounds(page as int, self.page_count as int, ps as int);
                assert(page * ps == base + off) by (nonlinear_arith)
                    requires
                        page == start_page + k,
                        base == start_page * ps,
                        off == k * ps,
                ;
            }
            match self.read_page(page, page_buf.as_mut_slice()) {
                Err(e) => {
                    return Err(e);
                },
                Ok(()) => {},
            }
            let ghost filled = content@;
            let mut j: usize = 0;
            while j < ps
                invariant
                    j <= ps,
                    off + ps <= len,
                    len == content@.len(),
                    page_buf@.len() == ps,
                    content@ == patched(filled, off as int, page_buf@.subrange(0, j as int)),
                decreases ps - j,
            {
                content[off + j] = page_buf[j];
                j += 1;
                assert(content@ =~= patched(filled, off as int, page_buf@.subrange(0, j as int)));
            }
            proof {
                assert(page_buf@.subrange(0, ps as int) =~= page_buf@);
                assert(content@ =~= patched(
                    before,
                    0,
                    window(self.bytes(), base, (off + ps) as nat),
                ));
                assert((k + 1) * ps == k * ps + ps) by (nonlinear_arith);
                k = k + 1;
            }
            off += ps;
            page += 1;
        }
        proof {
            lemma_whole_pages(len as int, ps as int, k);
        }
        Ok(())
    }

    /// Programs page by page, and stops at the first page that is cut short,
    /// lies outside the block or would land in the written prefix: the
    /// pages before it have been written.
    fn program(&mut self, start_page: u32, content: &[u8]) -> (r: Result<(), Error>)
        ensures
            final(self).bytes() == patched(
                old(self).bytes(),
                start_page * old(self).page_len(),
                window(
                    content@,
                    0,
                    pages_accepted(
                        old(self).pages(),
                        old(self).page_len(),
                        old(self).bytes(),
                        start_page,
                        content@.len(),
                    ) * (old(self).page_len() as nat),
                ),
            ),
            r is Ok <==> pages_accepted(
                old(self).pages(),
                old(self).page_len(),
                old(self).bytes(),
                start_page,
                content@.len(),
            ) * old(self).page_len() == content@.len(),
            r is Err ==> r == Err::<(), Error>(Error::Io),
    {
        let ps = self.page_size;
        let len = content.len();
        let ghost before = *self;
        let ghost base = start_page * ps;
        let ghost total = before.bytes().len() as int;
        let mut off: usize = 0;
        let mut page: u32 = start_page;
        let ghost mut k: int = 0;
        proof {
            self.lemma_valid();
            assert(self.bytes() =~= patched(before.bytes(), base, window(content@, 0, 0)));
            assert(0 * ps == 0) by (nonlinear_arith);
        }
        while off < len
            invariant
                self.valid(),
                before.valid(),
                self.page_size == before.page_size,
                self.page_count == before.page_count,
                self.marked_bad == before.marked_bad,
                ps == self.page_size,
                ps > 0,
                len == content@.len(),
                total == before.bytes().len(),
                total == self.page_count * ps,
                base == start_page * ps,
                0 <= k,
                off == k * ps,
                off <= len,
                page == start_page + k,
                k > 0 ==> start_page + k <= self.page_count,
                k > 0 ==> erased_from(before.bytes(), base),
                before == *old(self),
                self.bytes() == patched(before.bytes(), base, window(content@, 0, off as nat)),
            decreases len - off,
        {
            let chunk_len: usize = if len - off < ps {
                len - off
            } else {
                ps
            };
            let chunk = vstd::slice::slice_subrange(content, off, off + chunk_len);
            let ghost here = *self;
            proof {
                lemma_whole_pages(len as int, ps as int, k);
                assert(ps as nat / ps as nat == 1) by (nonlinear_arith)
                    requires
                        ps > 0,
                ;
                assert(chunk_len < ps ==> chunk_len as nat / ps as nat == 0) by (nonlinear_arith)
                    requires
                        ps > 0,
                        chunk_len >= 0,
                ;
                assert(page * ps == base + off) by (nonlinear_arith)
                    requires
                        page == start_page + k,
                        base == start_page * ps,
                        off == k * ps,
                ;
                if page < self.page_count {
                    lemma_page_bounds(page as int, self.page_count as int, ps as int);
                    if k > 0 {
                        // What lies behind the pages written so far is as
                        // erased as it was at the start.
                        assert(erased_from(self.bytes(), page * ps));
                    } else {
                        assert(self.bytes() =~= before.bytes());
                    }
                }
            }
            match self.write_page(page, chunk) {
                Err(e) => {
                    return Err(e);
                },
                Ok(()) => {},
            }
            proof {
                assert(self.bytes() =~= patched(
                    before.bytes(),
                    base,
                    window(content@, 0, (off + ps) as nat),
                ));
                if k == 0 {
                    assert(here.bytes() =~= before.bytes());
                }
                assert((k + 1) * ps == k * ps + ps) by (nonlinear_arith);
                k = k + 1;
            }
            off += ps;
            page += 1;
        }
        proof {
            lemma_whole_pages(len as int, ps as int, k);
            assert(window(content@, 0, len as nat) =~= content@);
        }
        Ok(())
    }

    fn erase(&mut self) -> (r: Result<(), Error>)
        ensures
            r is Ok,
    {
        self.data.clear();
        assert(self.bytes() =~= erased_bytes(old(self).bytes().len()));
        Ok(())
    }

    /// Erases the block as well.
    fn mark_bad(&mut self) -> (r: Result<(), Error>)
        ensures
            r is Ok,
            final(self).bytes() == erased_bytes(old(self).bytes().len()),
    {
        self.data.clear();
        self.marked_bad = true;
        assert(self.bytes() =~= erased_bytes(old(self).bytes().len()));
        Ok(())
    }
}

/// A simulated in-memory NAND flash, for testing purposes.
#[derive(Debug, Clone)]
pub struct SimNand {
    blocks: Vec<SimBlock>,
    layout: NandLayout,
}

/// Whether a load stopped at block `n`: the image ran out before the end
/// of that block, or the block had been programmed. The blocks before it
/// are loaded, the block itself has lost its bad-block mark and nothing
/// else, and the blocks behind it are as they were.
pub open spec fn load_stopped_at(before: &SimNand, after: &SimNand, image: Seq<u8>, n: int) -> bool {
    let layout = before.layout_of();
    &&& 0 <= n < layout.blocks
    &&& image.len() < (n + 1) * layout.block_len() || !erased_from(before.block_at(n).bytes(), 0)
    &&& forall|i: int|
        0 <= i < n ==> {
            &&& (#[trigger] after.block_at(i)).bytes() == chunk(image, i, layout.block_len())
            &&& !after.block_at(i).bad()
        }
    &&& after.block_at(n).bytes() == before.block_at(n).bytes()
    &&& !after.block_at(n).bad()
    &&& forall|i: int| n < i < layout.blocks ==> #[trigger] after.block_at(i) == before.block_at(i)
}

/// The byte that stands for a bad block in a saved image.
pub const BAD_BLOCK_FILL: u8 = 0xBD;

impl SimNand {
    /// The representation invariant: one consistent block per block of the
    /// layout, each with the layout's geometry.
    pub closed spec fn valid(&self) -> bool {
        &&& self.layout.wf()
        &&& self.blocks@.len() == self.layout.blocks
        &&& forall|i: int|
            0 <= i < self.blocks@.len() ==> {
                &&& (#[trigger] self.blocks@[i]).valid()
                &&& self.blocks@[i].pages() == self.layout.pages_per_block
                &&& self.blocks@[i].page_len() == self.layout.bytes_per_page
            }
    }

    pub closed spec fn layout_of(&self) -> NandLayout {
        self.layout
    }

    pub closed spec fn block_at(&self, index: int) -> SimBlock {
        self.blocks@[index]
    }

    /// Create an empty `SimNand` with the specified layout.
    pub fn new(layout: NandLayout) -> (r: Self)
        requires
            layout.wf(),
        ensures
            r.valid(),
            valid_nand(&r),
            r.layout_of() == layout,
            forall|i: int|
                0 <= i < layout.blocks ==> {
                    &&& (#[trigger] r.block_at(i)).bytes() == erased_bytes(layout.block_len())
                    &&& !r.block_at(i).bad()
                },
    {
        let mut blocks: Vec<SimBlock> = Vec::new();
        let mut i: u32 = 0;
        while i < layout.blocks
            invariant
                layout.wf(),
                i <= layout.blocks,
                blocks@.len() == i,
                forall|j: int|
                    0 <= j < i ==> {
                        &&& (#[trigger] blocks@[j]).valid()
                        &&& blocks@[j].pages() == layout.pages_per_block
                        &&& blocks@[j].page_len() == layout.bytes_per_page
                        &&& blocks@[j].bytes() == erased_bytes(layout.block_len())
                        &&& !blocks@[j].bad()
                    },
            decreases layout.blocks - i,
        {
            blocks.push(SimBlock::new(layout));
            i += 1;
        }
        let r = Self { blocks, layout };
        proof {
            r.lemma_valid_nand();
        }
        r
    }

    /// A simulator that keeps its invariant is a device that the contracts
    /// speak of.
    pub proof fn lemma_valid_nand(&self)
        requires
            self.valid(),
        ensures
            valid_nand(self),
    {
        assert forall|i: int| 0 <= i < self.layout_spec().blocks implies crate::nand::block_fits(
            &#[trigger] self.block_spec(i),
            self.layout_spec(),
            self.reliable(),
        ) by {
            assert(self.blocks@[i].valid());
            self.blocks@[i].lemma_valid();
        }
    }

    /// Initialize the NAND contents from `image`, which holds the blocks one
    /// after the other. Every bad-block mark is cleared on the way.
    ///
    /// Fails when the image runs out before the last block, or at the first
    /// block that has been programmed already; the blocks before that one
    /// are loaded by then.
    pub fn load(&mut self, image: &[u8]) -> (r: Result<(), Error>)
        requires
            old(self).valid(),
        ensures
            final(self).valid(),
            valid_nand(final(self)),
            final(self).layout_of() == old(self).layout_of(),
            r is Ok <==> {
                &&& image@.len() >= old(self).layout_of().blocks * old(self).layout_of().block_len()
                &&& forall|i: int|
                    0 <= i < old(self).layout_of().blocks ==> erased_from(
                        (#[trigger] old(self).block_at(i)).bytes(),
                        0,
                    )
            },
            r is Ok ==> forall|i: int|
                0 <= i < old(self).layout_of().blocks ==> {
                    &&& (#[trigger] final(self).block_at(i)).bytes() == chunk(
                        image@,
                        i,
                        old(self).layout_of().block_len(),
                    )
                    &&& !final(self).block_at(i).bad()
                },
            r is Err ==> r == Err::<(), Error>(Error::Io),
            r is Err ==> exists|n: int| #[trigger] load_stopped_at(old(self), final(self), image@, n),
    {
        let r = self.fill(image);
        proof {
            self.lemma_valid_nand();
        }
        r
    }

    /// Load the blocks one after the other, up to the first that fails.
    fn fill(&mut self, image: &[u8]) -> (r: Result<(), Error>)
        requires
            old(self).valid(),
        ensures
            final(self).valid(),
            final(self).layout_of() == old(self).layout_of(),
            r is Ok <==> {
                &&& image@.len() >= old(self).layout_of().blocks * old(self).layout_of().block_len()
                &&& forall|i: int|
                    0 <= i < old(self).layout_of().blocks ==> erased_from(
                        (#[trigger] old(self).block_at(i)).bytes(),
                        0,
                    )
            },
            r is Ok ==> forall|i: int|
                0 <= i < old(self).layout_of().blocks ==> {
                    &&& (#[trigger] final(self).block_at(i)).bytes() == chunk(
                        image@,
                        i,
                        old(self).layout_of().block_len(),
                    )
                    &&& !final(self).block_at(i).bad()
                },
            r is Err ==> r == Err::<(), Error>(Error::Io),
            r is Err ==> exists|n: int| #[trigger] load_stopped_at(old(self), final(self), image@, n),
    {
        let ps = self.layout.bytes_per_page;
        assert(self.layout.bytes_per_page * self.layout.pages_per_block
            == self.layout.pages_per_block * self.layout.bytes_per_page) by (nonlinear_arith);
        let size = self.layout.bytes_per_page * self.layout.pages_per_block as usize;
        let count = self.layout.blocks;
        let ghost before = *self;
        let mut i: u32 = 0;
        while i < count
            invariant
                self.valid(),
                before.valid(),
                before == *old(self),
                self.layout == before.layout,
                count == self.layout.blocks,
                ps == self.layout.bytes_per_page,
                size == self.layout.block_len(),
                i <= count,
                i > 0 ==> image@.len() >= i * size,
                forall|j: int| i <= j < count ==> self.blocks@[j] == before.blocks@[j],
                forall|j: int|
                    0 <= j < i ==> erased_from((#[trigger] before.blocks@[j]).bytes(), 0),
                forall|j: int|
                    0 <= j < i ==> {
                        &&& (#[trigger] self.blocks@[j]).bytes() == chunk(image@, j, size as nat)
                        &&& !self.blocks@[j].bad()
                    },
            decreases count - i,
        {
            proof {
                assert(i * size + size == (i + 1) * size) by (nonlinear_arith);
                assert((i + 1) * size <= count * size) by (nonlinear_arith)
                    requires
                        i < count,
                        size >= 0,
                ;
                assert(0 <= i * size) by (nonlinear_arith)
                    requires
                        i >= 0,
                        size >= 0,
                ;
                self.blocks@[i as int].lemma_valid();
                lemma_whole_pages(size as int, ps as int, self.layout.pages_per_block as int);
            }
            let block = &mut self.blocks[i as usize];
            block.marked_bad = false;
            if image.len() / size < i as usize + 1 {
                proof {
                    assert(image@.len() < (i + 1) * size) by (nonlinear_arith)
                        requires
                            image@.len() / (size as nat) < i + 1,
                            size > 0,
                    ;
                    assert(count * size >= (i + 1) * size) by (nonlinear_arith)
                        requires
                            i < count,
                            size >= 0,
                    ;
                    assert(self.blocks@[i as int].bytes() =~= before.blocks@[i as int].bytes());
                    assert(load_stopped_at(old(self), &*self, image@, i as int));
                }
                return Err(Error::Io);
            }
            let block = &mut self.blocks[i as usize];
            proof {
                assert(image@.len() >= (i + 1) * size) by (nonlinear_arith)
                    requires
                        image@.len() / (size as nat) >= i + 1,
                        size > 0,
                ;
            }
            let start = (i as usize) * size;
            let chunk = vstd::slice::slice_subrange(image, start, start + size);
            let ghost blank = erased_from(block.bytes(), 0);
            match block.program(0, chunk) {
                Err(e) => {
                    assert(!blank);
                    assert(!erased_from(before.block_at(i as int).bytes(), 0));
                    assert(self.blocks@[i as int].bytes() =~= before.blocks@[i as int].bytes());
                    assert(load_stopped_at(old(self), &*self, image@, i as int));
                    return Err(e);
                },
                Ok(()) => {},
            }
            proof {
                assert(blank);
                assert(self.blocks@[i as int].bytes() =~= window(image@, i * size, size as nat));
            }
            i += 1;
        }
        Ok(())
    }

    /// The contents of the simulated NAND as one image, block after block,
    /// with a bad block written as a run of `BAD_BLOCK_FILL`.
    pub fn save(&self) -> (r: Result<Vec<u8>, Error>)
        requires
            self.valid(),
        ensures
            r is Ok,
            r->Ok_0@.len() == self.layout_of().blocks * self.layout_of().block_len(),
            forall|i: int|
                0 <= i < self.layout_of().blocks ==> chunk(
                    r->Ok_0@,
                    i,
                    self.layout_of().block_len(),
                ) == if (#[trigger] self.block_at(i)).bad() {
                    Seq::new(self.layout_of().block_len(), |k: int| BAD_BLOCK_FILL)
                } else {
                    self.block_at(i).bytes()
                },
    {
        assert(self.layout.bytes_per_page * self.layout.pages_per_block
            == self.layout.pages_per_block * self.layout.bytes_per_page) by (nonlinear_arith);
        let size = self.layout.bytes_per_page * self.layout.pages_per_block as usize;
        let mut out: Vec<u8> = Vec::new();
        let mut buf: Vec<u8> = Vec::new();
        pad_erased(&mut buf, size);
        let mut i: u32 = 0;
        while i < self.layout.blocks
            invariant
                self.valid(),
                size == self.layout.block_len(),
                buf@.len() == size,
                i <= self.layout.blocks,
                out@.len() == i * size,
                forall|j: int|
                    0 <= j < i ==> chunk(out@, j, size as nat) == if (
                    #[trigger] self.blocks@[j]).bad() {
                        Seq::new(size as nat, |k: int| BAD_BLOCK_FILL)
                    } else {
                        self.blocks@[j].bytes()
                    },
            decreases self.layout.blocks - i,
        {
            let ghost done = out@;
            proof {
                assert(i * size + size == (i + 1) * size) by (nonlinear_arith);
                self.blocks@[i as int].lemma_valid();
                lemma_whole_pages(
                    size as int,
                    self.layout.bytes_per_page as int,
                    self.layout.pages_per_block as int,
                );
            }
            let block = &self.blocks[i as usize];
            if block.marked_bad {
                let mut k: usize = 0;
                while k < size
                    invariant
                        k <= size,
                        buf@.len() == size,
                        forall|j: int| 0 <= j < k ==> buf@[j] == BAD_BLOCK_FILL,
                    decreases size - k,
                {
                    buf[k] = BAD_BLOCK_FILL;
                    k += 1;
                }
                assert(buf@ =~= Seq::new(size as nat, |k: int| BAD_BLOCK_FILL));
            } else {
                match block.read(0, buf.as_mut_slice()) {
                    Err(e) => {
                        return Err(e);
                    },
                    Ok(()) => {},
                }
                assert(buf@ =~= block.bytes());
            }
            append_bytes(&mut out, buf.as_slice());
            proof {
                assert(window(out@, i * size, size as nat) =~= buf@);
                assert forall|j: int| 0 <= j < i implies #[trigger] chunk(out@, j, size as nat)
                    == chunk(done, j, size as nat) by {
                    assert(j * size + size <= i * size) by (nonlinear_arith)
                        requires
                            0 <= j < i,
                            size >= 0,
                    ;
                    assert(0 <= j * size) by (nonlinear_arith)
                        requires
                            0 <= j,
                            size >= 0,
                    ;
                    assert(window(out@, j * size, size as nat) =~= window(
                        done,
                        j * size,
                        size as nat,
                    ));
                }
            }
            i += 1;
        }
        Ok(out)
    }
}

impl Nand for SimNand {
    type Block = SimBlock;

    open spec fn sound(&self) -> bool {
        self.valid()
    }

    open spec fn layout_spec(&self) -> NandLayout {
        self.layout_of()
    }

    open spec fn block_spec(&self, index: int) -> SimBlock {
        self.block_at(index)
    }

    open spec fn reliable(&self) -> bool {
        true
    }

    fn get_layout(&self) -> (r: NandLayout) {
        self.layout
    }

    /// Fails exactly on an index that is out of range.
    fn block(&mut self, index: u32) -> (r: Result<Option<&mut SimBlock>, Error>)
        ensures
            r is Err ==> r matches Err(Error::Io),
    {
        if index as usize >= self.blocks.len() {
            return Err(Error::Io);
        }
        if self.blocks[index as usize].marked_bad {
            return Ok(None);
        }
        let block = &mut self.blocks[index as usize];
        Ok(Some(block))
    }
}

} // verus!
