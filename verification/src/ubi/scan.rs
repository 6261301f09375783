//! Scanning NAND blocks to determine their contents, as UBI sees them.

use crate::error::Error;
use crate::nand::{
    all_erased, nand_facts, pad_erased, valid_block, valid_nand, window, Nand, NandBlock, PageUtil,
};
use crate::ubi::headers::{Ec, Vid};
use vstd::prelude::*;

verus! {

/// The states that a block may be detected in.
#[derive(Debug, Eq, PartialEq, Copy, Clone)]
pub enum BlockContent {
    /// The block is bad, and cannot be accessed.
    Bad,
    /// The block is fully erased, perhaps because UBI has never used it.
    Erased,
    /// The block is erased, but has a UBI EC header that should be preserved.
    EcErased(Ec),
    /// The block is in normal use, with a UBI EC header that should be
    /// preserved.
    EcData(Ec, Option<Vid>),
    /// The block starts with a UBI VID header, as the superblock layout
    /// leaves it in the odd block of a pair. It tells that a migration is
    /// due, and is otherwise treated like `Garbage`.
    RawVid(Vid),
    /// The block is in some other state, invalid to UBI, and needs to be
    /// erased.
    Garbage,
}

/// The erase-block table: the state of every block of the NAND, as
/// [`scan_blocks`] found it and as later operations on the flash keep it.
pub type Ebt = Vec<BlockContent>;

/// How many pages are read at a time. The scan of a block that opens with
/// an EC header ends after the first such run.
pub const SCAN_PAGE_CHUNKS: u32 = 4;

/// Page `page` of a block with the given contents.
pub open spec fn page_of(contents: Seq<u8>, page_size: usize, page: int) -> Seq<u8> {
    window(contents, page * page_size, page_size as nat)
}

/// The first page from `from` on, and before `to`, that is not erased;
/// `to` where there is none.
pub open spec fn first_used_page(contents: Seq<u8>, page_size: usize, from: int, to: int) -> int
    decreases to - from,
{
    if from >= to {
        to
    } else if !all_erased(page_of(contents, page_size, from)) {
        from
    } else {
        first_used_page(contents, page_size, from + 1, to)
    }
}

/// What `first_used_page` finds: the pages before it are erased, and it is
/// not, unless it is `to`.
pub proof fn lemma_first_used_page(contents: Seq<u8>, page_size: usize, from: int, to: int)
    requires
        from <= to,
    ensures
        from <= first_used_page(contents, page_size, from, to) <= to,
        forall|p: int|
            from <= p < first_used_page(contents, page_size, from, to) ==> all_erased(
                #[trigger] page_of(contents, page_size, p),
            ),
        first_used_page(contents, page_size, from, to) < to ==> !all_erased(
            page_of(contents, page_size, first_used_page(contents, page_size, from, to)),
        ),
    decreases to - from,
{
    if from < to && all_erased(page_of(contents, page_size, from)) {
        lemma_first_used_page(contents, page_size, from + 1, to);
    }
}

/// A page known to be in use, with erased pages before it, is the first
/// used page.
pub proof fn lemma_first_used_page_is(
    contents: Seq<u8>,
    page_size: usize,
    from: int,
    to: int,
    found: int,
)
    requires
        from <= found <= to,
        forall|p: int| from <= p < found ==> all_erased(#[trigger] page_of(contents, page_size, p)),
        found < to ==> !all_erased(page_of(contents, page_size, found)),
    ensures
        first_used_page(contents, page_size, from, to) == found,
    decreases to - from,
{
    if from < found {
        assert(all_erased(page_of(contents, page_size, from)));
        lemma_first_used_page_is(contents, page_size, from + 1, to, found);
    }
}

/// The state of a block that holds `contents`: what a scan of it finds.
///
/// Page 0 decides. A VID header there marks the superblock layout. An EC
/// header there leaves the next few pages to tell whether the block is in
/// use, and a VID header counts only in page 1. Without either header, any
/// page that is not erased makes the block garbage.
pub open spec fn classify(contents: Seq<u8>, page_count: u32, page_size: usize) -> BlockContent {
    let first = page_of(contents, page_size, 0);
    let limit: int = if page_count < SCAN_PAGE_CHUNKS {
        page_count as int
    } else {
        SCAN_PAGE_CHUNKS as int
    };
    if Vid::parsed(first) is Some {
        BlockContent::RawVid(Vid::parsed(first)->Some_0)
    } else if Ec::parsed(first) is Some {
        let used = first_used_page(contents, page_size, 1, limit);
        if used >= limit {
            BlockContent::EcErased(Ec::parsed(first)->Some_0)
        } else {
            BlockContent::EcData(
                Ec::parsed(first)->Some_0,
                if used == 1 {
                    Vid::parsed(page_of(contents, page_size, 1))
                } else {
                    None
                },
            )
        }
    } else if first_used_page(contents, page_size, 0, page_count as int) < page_count {
        BlockContent::Garbage
    } else {
        BlockContent::Erased
    }
}

/// The state of `block`: bad where it is marked so, else what its contents
/// show.
pub open spec fn block_state<B: NandBlock>(block: &B) -> BlockContent {
    if block.marked_bad() {
        BlockContent::Bad
    } else {
        classify(block.contents(), block.page_count_spec(), block.page_size_spec())
    }
}

/// The erase-block table that a scan of `nand` yields.
pub open spec fn scan_spec<N: Nand>(nand: &N) -> Seq<BlockContent> {
    Seq::new(nand.layout_spec().blocks as nat, |i: int| block_state(&nand.block_spec(i)))
}

impl BlockContent {
    /// The EC header that the block is known to carry, if any.
    pub open spec fn ec_of(self) -> Option<Ec> {
        match self {
            BlockContent::EcErased(ec) => Some(ec),
            BlockContent::EcData(ec, _) => Some(ec),
            _ => None,
        }
    }

    /// Read a NAND block and characterize its content.
    ///
    /// Fails only where the device refuses a read.
    pub fn scan_block<B: NandBlock>(block: &B) -> (r: Result<BlockContent, Error>)
        requires
            valid_block(&*block),
        ensures
            r is Ok ==> r->Ok_0 == classify(
                block.contents(),
                block.page_count_spec(),
                block.page_size_spec(),
            ),
            block.reliable() ==> r is Ok,
    {
        let ps = block.page_size();
        let pc = block.page_count();
        let ghost contents = block.contents();
        let mut echdr: Option<Ec> = None;
        let mut start_page: u32 = 0;
        while start_page < pc && echdr.is_none()
            invariant
                valid_block(&*block),
                ps == block.page_size_spec(),
                pc == block.page_count_spec(),
                contents == block.contents(),
                contents.len() == pc * ps,
                contents.len() <= usize::MAX,
                ps > 0,
                start_page <= pc,
                start_page % SCAN_PAGE_CHUNKS == 0 || start_page == pc,
                start_page > 0 ==> Vid::parsed(page_of(contents, ps, 0)) is None,
                start_page > 0 ==> echdr == Ec::parsed(page_of(contents, ps, 0)),
                start_page == 0 ==> echdr is None,
                echdr is None ==> forall|p: int|
                    0 <= p < start_page ==> all_erased(#[trigger] page_of(contents, ps, p)),
                echdr is Some ==> {
                    &&& start_page == if pc < SCAN_PAGE_CHUNKS {
                        pc
                    } else {
                        SCAN_PAGE_CHUNKS
                    }
                    &&& forall|p: int|
                        1 <= p < start_page ==> all_erased(#[trigger] page_of(contents, ps, p))
                },
            decreases pc - start_page,
        {
            // Read pages `start_page..end_page`.
            let end_page: u32 = if pc - start_page < SCAN_PAGE_CHUNKS {
                pc
            } else {
                start_page + SCAN_PAGE_CHUNKS
            };
            let pages: usize = (end_page - start_page) as usize;
            proof {
                assert(start_page * ps + pages * ps == end_page * ps) by (nonlinear_arith)
                    requires
                        pages == end_page - start_page,
                ;
                assert(end_page * ps <= pc * ps) by (nonlinear_arith)
                    requires
                        end_page <= pc,
                        ps > 0,
                ;
                assert(0 <= start_page * ps) by (nonlinear_arith)
                    requires
                        start_page >= 0,
                        ps > 0,
                ;
                assert(pages * ps >= ps) by (nonlinear_arith)
                    requires
                        pages >= 1,
                        ps > 0,
                ;
                assert((pages * ps) % (ps as int) == 0 && (pages * ps) / (ps as int) == pages)
                    by (nonlinear_arith)
                    requires
                        pages >= 1,
                        ps > 0,
                ;
            }
            let mut buf: Vec<u8> = Vec::new();
            pad_erased(&mut buf, pages * ps);
            match block.read(start_page, buf.as_mut_slice()) {
                Err(e) => {
                    return Err(e);
                },
                Ok(()) => {},
            }
            let mut k: usize = 0;
            while k < pages
                invariant
                    ps > 0,
                    ps == block.page_size_spec(),
                    pc == block.page_count_spec(),
                    contents == block.contents(),
                    k <= pages,
                    pages == end_page - start_page,
                    end_page <= pc,
                    pages <= SCAN_PAGE_CHUNKS,
                    start_page % SCAN_PAGE_CHUNKS == 0,
                    end_page == if pc - start_page < SCAN_PAGE_CHUNKS {
                        pc
                    } else {
                        (start_page + SCAN_PAGE_CHUNKS) as u32
                    },
                    buf@.len() == pages * ps,
                    pages * ps <= usize::MAX,
                    buf@ == window(contents, start_page * ps, (pages * ps) as nat),
                    start_page + k > 0 ==> Vid::parsed(page_of(contents, ps, 0)) is None,
                    start_page + k > 0 ==> echdr == Ec::parsed(page_of(contents, ps, 0)),
                    start_page + k == 0 ==> echdr is None,
                    echdr is None ==> forall|p: int|
                        0 <= p < start_page + k ==> all_erased(
                            #[trigger] page_of(contents, ps, p),
                        ),
                    echdr is Some ==> {
                        &&& start_page == 0
                        &&& forall|p: int|
                            1 <= p < start_page + k ==> all_erased(
                                #[trigger] page_of(contents, ps, p),
                            )
                    },
                decreases pages - k,
            {
                let page: u32 = start_page + k as u32;
                proof {
                    assert(k * ps + ps <= pages * ps) by (nonlinear_arith)
                        requires
                            k < pages,
                            ps > 0,
                    ;
                    assert(0 <= k * ps) by (nonlinear_arith)
                        requires
                            k >= 0,
                            ps > 0,
                    ;
                    assert((start_page + k) * ps == start_page * ps + k * ps)
                        by (nonlinear_arith);
                }
                let page_bytes = vstd::slice::slice_subrange(
                    buf.as_slice(),
                    k * ps,
                    k * ps + ps,
                );
                assert(page_bytes@ =~= page_of(contents, ps, page as int));
                let mut is_header = false;
                if page == 0 {
                    if let Some(hdr) = Vid::decode(page_bytes) {
                        return Ok(BlockContent::RawVid(hdr));
                    } else if let Some(hdr) = Ec::decode(page_bytes) {
                        echdr = Some(hdr);
                        is_header = true;
                    }
                }
                // Not the first page, or no UBI header in it: the question
                // is now whether the block is fully erased.

                if !is_header && !page_bytes.is_erased() {
                    let vid = if page == 1 {
                        Vid::decode(page_bytes)
                    } else {
                        None
                    };
                    proof {
                        let limit: int = if pc < SCAN_PAGE_CHUNKS {
                            pc as int
                        } else {
                            SCAN_PAGE_CHUNKS as int
                        };
                        if echdr is Some {
                            lemma_first_used_page_is(contents, ps, 1, limit, page as int);
                        } else {
                            lemma_first_used_page_is(contents, ps, 0, pc as int, page as int);
                        }
                    }
                    // A page that is not erased means this block is in use.
                    return Ok(
                        match echdr {
                            None => BlockContent::Garbage,
                            Some(x) => BlockContent::EcData(x, vid),
                        },
                    );
                }
                k += 1;
            }
            start_page = end_page;
        }
        proof {
            let limit: int = if pc < SCAN_PAGE_CHUNKS {
                pc as int
            } else {
                SCAN_PAGE_CHUNKS as int
            };
            if echdr is Some {
                lemma_first_used_page_is(contents, ps, 1, limit, limit);
            } else {
                lemma_first_used_page_is(contents, ps, 0, pc as int, pc as int);
            }
        }
        // No data page was met, so the block is erased.
        Ok(
            match echdr {
                None => BlockContent::Erased,
                Some(x) => BlockContent::EcErased(x),
            },
        )
    }
}

/// Read all blocks of the NAND, only as much as necessary to determine
/// content, and return the [`Ebt`]. The flash is left as it was.
///
/// Fails only where the device refuses to hand out a block or to read.
pub fn scan_blocks<N: Nand>(nand: &mut N) -> (r: Result<Ebt, Error>)
    requires
        valid_nand(old(nand)),
    ensures
        valid_nand(final(nand)),
        final(nand).layout_spec() == old(nand).layout_spec(),
        final(nand).reliable() == old(nand).reliable(),
        forall|i: int|
            0 <= i < old(nand).layout_spec().blocks ==> final(nand).block_spec(i) == old(
                nand,
            ).block_spec(i),
        r is Ok ==> r->Ok_0@ == scan_spec(old(nand)),
        old(nand).reliable() ==> r is Ok,
{
    let block_count = nand.get_layout().blocks;
    let mut ebt: Vec<BlockContent> = Vec::new();
    let mut n: u32 = 0;
    while n < block_count
        invariant
            valid_nand(&*nand),
            nand.layout_spec() == old(nand).layout_spec(),
            nand.reliable() == old(nand).reliable(),
            block_count == nand.layout_spec().blocks,
            n <= block_count,
            ebt@.len() == n,
            forall|i: int|
                0 <= i < block_count ==> nand.block_spec(i) == old(nand).block_spec(i),
            forall|i: int| 0 <= i < n ==> ebt@[i] == block_state(&old(nand).block_spec(i)),
        decreases block_count - n,
    {
        proof {
            nand_facts(&*nand, n as int);
        }
        let content = match nand.block(n) {
            Err(e) => {
                return Err(e);
            },
            Ok(None) => BlockContent::Bad,
            Ok(Some(block)) => {
                match BlockContent::scan_block(block) {
                    Err(e) => {
                        return Err(e);
                    },
                    Ok(content) => content,
                }
            },
        };
        ebt.push(content);
        n += 1;
    }
    assert(ebt@ =~= scan_spec(old(nand)));
    Ok(ebt)
}

} // verus!
