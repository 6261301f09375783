//! Writing raw blobs to NAND flash, so that a write that was cut short is
//! resumed and a write that was done is not done again.

use crate::error::Error;
use crate::nand::{
    patched,
    all_erased, append_bytes, erased_bytes, erased_from, nand_facts, pad_erased, padded,
    valid_block, valid_nand, window, Nand, NandBlock, PageUtil,
};
use crate::ubi::scan::{first_used_page, lemma_first_used_page, lemma_first_used_page_is, page_of};
use crate::ubi::ubinize::{ceil_div, lemma_ceil_div};
use crate::util::ReadExt;
use vstd::prelude::*;

verus! {

/// How many pages are read at a time.
pub const RAW_PAGE_CHUNKS: u32 = 8;

/// How often a block that refuses an update is erased and tried again
/// before it is given up as bad.
pub const RAW_ATTEMPTS: u32 = 5;

/// The part of `data` that belongs into page `page`: a whole page, or what
/// is left of the data.
pub open spec fn data_page(data: Seq<u8>, page_size: usize, page: int) -> Seq<u8> {
    data.subrange(
        page * page_size,
        if (page + 1) * page_size <= data.len() {
            (page + 1) * page_size
        } else {
            data.len() as int
        },
    )
}

/// Whether page `page` of the block begins with the part of `data` that
/// belongs into it.
pub open spec fn page_matches(contents: Seq<u8>, page_size: usize, data: Seq<u8>, page: int) -> bool {
    window(contents, page * page_size, data_page(data, page_size, page).len()) == data_page(
        data,
        page_size,
        page,
    )
}

/// The first page from `from` on, and before `to`, that does not match
/// `data`; `to` where there is none.
pub open spec fn first_mismatch(
    contents: Seq<u8>,
    page_size: usize,
    data: Seq<u8>,
    from: int,
    to: int,
) -> int
    decreases to - from,
{
    if from >= to {
        to
    } else if !page_matches(contents, page_size, data, from) {
        from
    } else {
        first_mismatch(contents, page_size, data, from + 1, to)
    }
}

/// A page known not to match, with matching pages before it, is the first
/// mismatch.
pub proof fn lemma_first_mismatch_is(
    contents: Seq<u8>,
    page_size: usize,
    data: Seq<u8>,
    from: int,
    to: int,
    found: int,
)
    requires
        from <= found <= to,
        forall|p: int| from <= p < found ==> #[trigger] page_matches(contents, page_size, data, p),
        found < to ==> !page_matches(contents, page_size, data, found),
    ensures
        first_mismatch(contents, page_size, data, from, to) == found,
    decreases to - from,
{
    if from < found {
        assert(page_matches(contents, page_size, data, from));
        lemma_first_mismatch_is(contents, page_size, data, from + 1, to, found);
    }
}

/// The page at which a write of `data` to a block with the given contents
/// can start, or `None` if the block must be erased first.
///
/// Where all of the data is in the block already, this is the page behind
/// it; what the block holds behind the data does not matter. Else it is the
/// first page that differs from the data, provided that this page and all
/// pages behind it are erased. Data that is longer than the block is never
/// all in it.
pub open spec fn raw_match(contents: Seq<u8>, page_count: u32, page_size: usize, data: Seq<u8>) -> Option<
    u32,
> {
    let pages = ceil_div(data.len(), page_size as nat) as int;
    let limit = if pages <= page_count {
        pages
    } else {
        page_count as int
    };
    let differs = first_mismatch(contents, page_size, data, 0, limit);
    if differs < limit {
        if first_used_page(contents, page_size, differs, page_count as int) >= page_count {
            Some(differs as u32)
        } else {
            None
        }
    } else if pages <= page_count {
        Some(pages as u32)
    } else {
        None
    }
}

/// Whether two byte slices hold the same bytes.
fn same_bytes(a: &[u8], b: &[u8]) -> (r: bool)
    ensures
        r == (a@ == b@),
{
    if a.len() != b.len() {
        return false;
    }
    let mut i: usize = 0;
    while i < a.len()
        invariant
            i <= a@.len(),
            a@.len() == b@.len(),
            forall|j: int| 0 <= j < i ==> a@[j] == b@[j],
        decreases a@.len() - i,
    {
        if a[i] != b[i] {
            return false;
        }
        i += 1;
    }
    assert(a@ =~= b@);
    true
}

/// Scan a block to confirm that its contents match the provided slice.
///
/// The provided slice should be no longer than the block contents. If it
/// is shorter, the remaining bytes are "don't care."
///
/// The return value is the number of pages of the block that match (and
/// therefore the index of the page where write can start), or `None` if
/// there is no partial match and the block must be erased. A read that the
/// device refuses counts as "needs erase".
pub fn check_raw_block<B: NandBlock>(block: &B, data: &[u8]) -> (r: Option<u32>)
    requires
        valid_block(&*block),
    ensures
        r is Some ==> r == raw_match(
            block.contents(),
            block.page_count_spec(),
            block.page_size_spec(),
            data@,
        ),
        block.reliable() ==> r == raw_match(
            block.contents(),
            block.page_count_spec(),
            block.page_size_spec(),
            data@,
        ),
        data@.len() == 0 ==> r == Some(0u32),
{
    let ps = block.page_size();
    let pc = block.page_count();
    let ghost contents = block.contents();
    let ghost pages = ceil_div(data@.len(), ps as nat) as int;
    let ghost limit = if pages <= pc {
        pages
    } else {
        pc as int
    };
    proof {
        lemma_ceil_div(data@.len(), ps as nat);
    }
    let mut page: u32 = 0;
    let mut done: usize = 0;
    let mut data_correct_upto: Option<u32> = None;
    loop
        invariant
            valid_block(&*block),
            ps == block.page_size_spec(),
            pc == block.page_count_spec(),
            contents == block.contents(),
            contents.len() == pc * ps,
            contents.len() <= usize::MAX,
            ps > 0,
            pages == ceil_div(data@.len(), ps as nat),
            limit == if pages <= pc {
                pages
            } else {
                pc as int
            },
            page <= pc,
            done <= data@.len(),
            data@.len() == 0 ==> page == 0 && data_correct_upto is None,
            page > 0 ==> !(data_correct_upto is None && done == data@.len()),
            data_correct_upto is None ==> {
                &&& done == if page * ps <= data@.len() {
                    page * ps
                } else {
                    data@.len() as int
                }
                &&& page <= limit
                &&& forall|p: int| 0 <= p < page ==> #[trigger] page_matches(contents, ps, data@, p)
            },
            data_correct_upto is Some ==> {
                &&& data_correct_upto->Some_0 < page
                &&& data_correct_upto->Some_0 < limit
                &&& first_mismatch(contents, ps, data@, 0, limit) == data_correct_upto->Some_0
                &&& forall|p: int|
                    data_correct_upto->Some_0 <= p < page ==> all_erased(
                        #[trigger] page_of(contents, ps, p),
                    )
            },
        decreases pc - page,
    {
        if data_correct_upto.is_none() && done == data.len() {
            // No data mismatch found and no further data to compare.
            proof {
                lemma_pages_done(data@.len(), ps as nat, page as int);
                lemma_first_mismatch_is(contents, ps, data@, 0, limit, limit);
            }
            return Some(page);
        }
        if page == pc {
            // Nothing more to read.
            proof {
                if data_correct_upto is None {
                    lemma_pages_left(data@.len(), ps as nat, page as int);
                    lemma_first_mismatch_is(contents, ps, data@, 0, limit, limit);
                } else {
                    lemma_first_used_page_is(
                        contents,
                        ps,
                        data_correct_upto->Some_0 as int,
                        pc as int,
                        pc as int,
                    );
                }
            }
            return data_correct_upto;
        }
        let chunk_pages: usize = if pc - page < RAW_PAGE_CHUNKS {
            (pc - page) as usize
        } else {
            RAW_PAGE_CHUNKS as usize
        };
        proof {
            assert(page * ps + chunk_pages * ps == (page + chunk_pages) * ps) by (nonlinear_arith);
            assert((page + chunk_pages) * ps <= pc * ps) by (nonlinear_arith)
                requires
                    page + chunk_pages <= pc,
                    ps > 0,
            ;
            assert(0 <= page * ps) by (nonlinear_arith)
                requires
                    page >= 0,
                    ps > 0,
            ;
            assert((chunk_pages * ps) % (ps as int) == 0 && (chunk_pages * ps) / (ps as int)
                == chunk_pages && chunk_pages * ps >= ps) by (nonlinear_arith)
                requires
                    chunk_pages >= 1,
                    ps > 0,
            ;
        }
        let mut buf: Vec<u8> = Vec::new();
        pad_erased(&mut buf, chunk_pages * ps);
        if block.read(page, buf.as_mut_slice()).is_err() {
            // Read errors are considered "needs erase".
            return None;
        }
        let ghost first = page;
        let mut k: usize = 0;
        while k < chunk_pages
            invariant
                ps > 0,
                ps == block.page_size_spec(),
                pc == block.page_count_spec(),
                contents == block.contents(),
                contents.len() == pc * ps,
                pages == ceil_div(data@.len(), ps as nat),
                limit == if pages <= pc {
                    pages
                } else {
                    pc as int
                },
                k <= chunk_pages,
                first + chunk_pages <= pc,
                page == first + k,
                buf@.len() == chunk_pages * ps,
                chunk_pages * ps <= usize::MAX,
                buf@ == window(contents, first * ps, (chunk_pages * ps) as nat),
                done <= data@.len(),
                data@.len() > 0,
                !(data_correct_upto is None && done == data@.len()),
                data_correct_upto is None ==> {
                    &&& done == if page * ps <= data@.len() {
                        page * ps
                    } else {
                        data@.len() as int
                    }
                    &&& page <= limit
                    &&& forall|p: int|
                        0 <= p < page ==> #[trigger] page_matches(contents, ps, data@, p)
                },
                data_correct_upto is Some ==> {
                    &&& data_correct_upto->Some_0 < page
                    &&& data_correct_upto->Some_0 < limit
                    &&& first_mismatch(contents, ps, data@, 0, limit) == data_correct_upto->Some_0
                    &&& forall|p: int|
                        data_correct_upto->Some_0 <= p < page ==> all_erased(
                            #[trigger] page_of(contents, ps, p),
                        )
                },
            decreases chunk_pages - k,
        {
            proof {
                assert(k * ps + ps <= chunk_pages * ps) by (nonlinear_arith)
                    requires
                        k < chunk_pages,
                        ps > 0,
                ;
                assert(0 <= k * ps) by (nonlinear_arith)
                    requires
                        k >= 0,
                        ps > 0,
                ;
                assert((first + k) * ps == first * ps + k * ps) by (nonlinear_arith);
                assert((page + 1) * ps == page * ps + ps) by (nonlinear_arith);
            }
            let page_content = vstd::slice::slice_subrange(buf.as_slice(), k * ps, k * ps + ps);
            assert(page_content@ =~= page_of(contents, ps, page as int));
            let mut just_found = false;
            // Still comparing data?
            if data_correct_upto.is_none() {
                let left = data.len() - done;
                let span: usize = if ps <= left {
                    ps
                } else {
                    left
                };
                let have = vstd::slice::slice_subrange(page_content, 0, span);
                let want = vstd::slice::slice_subrange(data, done, done + span);
                proof {
                    lemma_pages_left(data@.len(), ps as nat, page as int);
                    assert(want@ =~= data_page(data@, ps, page as int));
                    assert(have@ =~= window(contents, page * ps, span as nat));
                }
                if same_bytes(have, want) {
                    done = done + span;
                    assert(page_matches(contents, ps, data@, page as int));
                } else {
                    // A mismatch means we're now looking for erased pages;
                    // if all others are erased, this becomes the return
                    // value.
                    proof {
                        lemma_first_mismatch_is(contents, ps, data@, 0, limit, page as int);
                    }
                    data_correct_upto = Some(page);
                    just_found = true;
                }
            }
            // Enforcing that all further pages are erased?

            if data_correct_upto.is_some() {
                // A page that is not erased after a data mismatch means
                // that an erase is required.
                if !page_content.is_erased() {
                    proof {
                        lemma_first_used_page_is(
                            contents,
                            ps,
                            data_correct_upto->Some_0 as int,
                            pc as int,
                            page as int,
                        );
                        assert(raw_match(contents, pc, ps, data@) is None);
                    }
                    return None;
                }
            }
            let ghost reached = data@.len() > page * ps;
            page = page + 1;
            k += 1;
            if data_correct_upto.is_none() && done == data.len() {
                // The data is through: what the rest of the block holds
                // does not matter.
                proof {
                    assert(reached);
                    lemma_pages_done(data@.len(), ps as nat, page as int);
                    lemma_first_mismatch_is(contents, ps, data@, 0, limit, limit);
                    assert(raw_match(contents, pc, ps, data@) == Some(page));
                }
                return Some(page);
            }
        }
    }
}

/// Data that ends within the pages before `page`, and not before the last
/// of them, takes just these pages.
proof fn lemma_pages_done(len: nat, ps: nat, page: int)
    requires
        ps > 0,
        page >= 0,
        len <= page * ps,
        page > 0 ==> len > (page - 1) * ps,
    ensures
        ceil_div(len, ps) == page,
{
    assert((len + ps - 1) / (ps as int) == page) by (nonlinear_arith)
        requires
            ps > 0,
            page >= 0,
            len <= page * ps,
            page > 0 ==> len > (page - 1) * ps,
            len >= 0,
    ;
}

/// Data that reaches beyond the start of page `page` takes more pages than
/// those before it.
proof fn lemma_pages_left(len: nat, ps: nat, page: int)
    requires
        ps > 0,
        page >= 0,
        len > page * ps,
    ensures
        ceil_div(len, ps) > page,
        (page + 1) * ps == page * ps + ps,
{
    assert((len + ps - 1) / (ps as int) > page) by (nonlinear_arith)
        requires
            ps > 0,
            page >= 0,
            len > page * ps,
    ;
    assert((page + 1) * ps == page * ps + ps) by (nonlinear_arith);
}

/// What `first_mismatch` finds: the pages before it match, and it does
/// not, unless it is `to`.
pub proof fn lemma_first_mismatch(
    contents: Seq<u8>,
    page_size: usize,
    data: Seq<u8>,
    from: int,
    to: int,
)
    requires
        from <= to,
    ensures
        from <= first_mismatch(contents, page_size, data, from, to) <= to,
        forall|p: int|
            from <= p < first_mismatch(contents, page_size, data, from, to)
                ==> #[trigger] page_matches(contents, page_size, data, p),
        first_mismatch(contents, page_size, data, from, to) < to ==> !page_matches(
            contents,
            page_size,
            data,
            first_mismatch(contents, page_size, data, from, to),
        ),
    decreases to - from,
{
    if from < to && page_matches(contents, page_size, data, from) {
        lemma_first_mismatch(contents, page_size, data, from + 1, to);
    }
}

/// Whether the block begins with `data`.
pub open spec fn holds_data(contents: Seq<u8>, data: Seq<u8>) -> bool {
    window(contents, 0, data.len()) == data
}

/// Pages that match the data hold its bytes.
proof fn lemma_matching_bytes(contents: Seq<u8>, page_size: usize, data: Seq<u8>, upto: int, i: int)
    requires
        page_size > 0,
        0 <= upto,
        forall|p: int| 0 <= p < upto ==> #[trigger] page_matches(contents, page_size, data, p),
        0 <= i < data.len(),
        i < upto * page_size,
    ensures
        contents[i] == data[i],
{
    let p = i / (page_size as int);
    let k = i % (page_size as int);
    assert(i == p * page_size + k && 0 <= k < page_size && 0 <= p < upto && (p + 1) * page_size
        == p * page_size + page_size) by (nonlinear_arith)
        requires
            p == i / (page_size as int),
            k == i % (page_size as int),
            0 <= i < upto * page_size,
            page_size > 0,
    ;
    assert(page_matches(contents, page_size, data, p));
    let part = data_page(data, page_size, p);
    assert(part[k] == data[i]);
    assert(window(contents, p * page_size, part.len())[k] == contents[i]);
}

/// Pages that are erased hold erased bytes.
proof fn lemma_erased_pages(contents: Seq<u8>, page_count: u32, page_size: usize, from: int)
    requires
        page_size > 0,
        0 <= from <= page_count,
        contents.len() == page_count * page_size,
        forall|p: int| from <= p < page_count ==> all_erased(#[trigger] page_of(contents, page_size, p)),
    ensures
        erased_from(contents, from * page_size),
{
    assert forall|i: int| from * page_size <= i < contents.len() implies contents[i] == 0xFFu8 by {
        let p = i / (page_size as int);
        let k = i % (page_size as int);
        assert(i == p * page_size + k && 0 <= k < page_size && from <= p < page_count)
            by (nonlinear_arith)
            requires
                p == i / (page_size as int),
                k == i % (page_size as int),
                from * page_size <= i < page_count * page_size,
                page_size > 0,
                from >= 0,
        ;
        assert(all_erased(page_of(contents, page_size, p)));
        assert(page_of(contents, page_size, p)[k] == contents[i]);
    }
}

/// What a start page that `raw_match` gives means: the data before that
/// page is in the block, and if data is left, the block is erased from
/// that page on.
pub proof fn lemma_raw_match(contents: Seq<u8>, page_count: u32, page_size: usize, data: Seq<u8>)
    requires
        page_size > 0,
        contents.len() == page_count * page_size,
        raw_match(contents, page_count, page_size, data) is Some,
    ensures
        ({
            let start = raw_match(contents, page_count, page_size, data)->Some_0;
            let pages = ceil_div(data.len(), page_size as nat);
            &&& start <= pages
            &&& start <= page_count
            &&& forall|i: int| 0 <= i < data.len() && i < start * page_size ==> contents[i] == data[i]
            &&& start < pages ==> erased_from(contents, start * page_size)
        }),
{
    let start = raw_match(contents, page_count, page_size, data)->Some_0;
    let pages = ceil_div(data.len(), page_size as nat) as int;
    let limit = if pages <= page_count {
        pages
    } else {
        page_count as int
    };
    lemma_first_mismatch(contents, page_size, data, 0, limit);
    assert forall|i: int| 0 <= i < data.len() && i < start * page_size implies contents[i]
        == data[i] by {
        lemma_matching_bytes(contents, page_size, data, start as int, i);
    }
    if start < pages {
        lemma_first_used_page(contents, page_size, start as int, page_count as int);
        lemma_erased_pages(contents, page_count, page_size, start as int);
    }
}

/// A block that begins with the data, and has room for it, needs no write:
/// the check finds all of the data in place.
pub proof fn lemma_held_data_matches(
    contents: Seq<u8>,
    page_count: u32,
    page_size: usize,
    data: Seq<u8>,
)
    requires
        page_size > 0,
        contents.len() == page_count * page_size,
        holds_data(contents, data),
        ceil_div(data.len(), page_size as nat) <= page_count,
    ensures
        raw_match(contents, page_count, page_size, data) == Some(
            ceil_div(data.len(), page_size as nat) as u32,
        ),
{
    let pages = ceil_div(data.len(), page_size as nat) as int;
    assert forall|p: int| 0 <= p < pages implies #[trigger] page_matches(
        contents,
        page_size,
        data,
        p,
    ) by {
        lemma_ceil_bound_page(data.len(), page_size as nat, p);
        let part = data_page(data, page_size, p);
        assert(window(contents, p * page_size, part.len()) =~= part) by {
            assert forall|k: int| 0 <= k < part.len() implies window(
                contents,
                p * page_size,
                part.len(),
            )[k] == part[k] by {
                assert(window(contents, 0, data.len())[p * page_size + k] == data[p * page_size
                    + k]);
            }
        }
    }
    lemma_first_mismatch_is(contents, page_size, data, 0, pages, pages);
}

/// The `p`-th of the pages that the data takes begins inside the data.
proof fn lemma_ceil_bound_page(len: nat, ps: nat, p: int)
    requires
        ps > 0,
        0 <= p < ceil_div(len, ps),
    ensures
        0 <= p * ps < len,
        (p + 1) * ps == p * ps + ps,
{
    crate::ubi::ubinize::lemma_ceil_bound(len, ps, p);
    assert(0 <= p * ps && (p + 1) * ps == p * ps + ps) by (nonlinear_arith)
        requires
            p >= 0,
            ps > 0,
    ;
}

/// An empty blob is always in place, from page 0 on.
pub proof fn lemma_check_empty(contents: Seq<u8>, page_count: u32, page_size: usize)
    requires
        page_size > 0,
    ensures
        raw_match(contents, page_count, page_size, Seq::empty()) == Some(0u32),
{
    lemma_ceil_div(0, page_size as nat);
}

/// On an erased block, a blob of `k` erased pages is found in place.
pub proof fn lemma_check_erased(page_count: u32, page_size: usize, k: u32)
    requires
        page_size > 0,
        k <= page_count,
    ensures
        raw_match(
            erased_bytes((page_count * page_size) as nat),
            page_count,
            page_size,
            erased_bytes((k * page_size) as nat),
        ) == Some(k),
{
    let contents = erased_bytes((page_count * page_size) as nat);
    let data = erased_bytes((k * page_size) as nat);
    assert(k * page_size <= page_count * page_size && 0 <= k * page_size) by (nonlinear_arith)
        requires
            0 <= k <= page_count,
            page_size > 0,
    ;
    assert(contents.len() == page_count * page_size);
    assert(holds_data(contents, data)) by {
        assert(window(contents, 0, data.len()) =~= data);
    }
    assert(ceil_div(data.len(), page_size as nat) == k) by {
        lemma_ceil_div(data.len(), page_size as nat);
        assert((k * page_size) as int / (page_size as int) == k && (k * page_size) as int % (
        page_size as int) == 0) by (nonlinear_arith)
            requires
                k >= 0,
                page_size > 0,
        ;
    }
    lemma_held_data_matches(contents, page_count, page_size, data);
}

/// Whether all of `data` is found in the block, so that nothing is left
/// to write.
pub open spec fn in_place(contents: Seq<u8>, page_count: u32, page_size: usize, data: Seq<u8>) -> bool {
    &&& ceil_div(data.len(), page_size as nat) <= page_count
    &&& raw_match(contents, page_count, page_size, data) == Some(
        ceil_div(data.len(), page_size as nat) as u32,
    )
}

/// What a block holds after `data` was written to it from page `start`
/// on, padded to whole pages with erased bytes.
pub open spec fn resumed(contents: Seq<u8>, page_size: usize, data: Seq<u8>, start: int) -> Seq<u8> {
    if start * page_size < data.len() {
        patched(contents, start * page_size, padded(data, page_size).skip(start * page_size))
    } else {
        contents
    }
}

/// What a block that held `contents` holds after an update with `data`:
/// what it held, with the data written from the page on at which the write
/// could start; or, if it had to be erased, the data behind erased bytes.
pub open spec fn raw_updated(
    contents: Seq<u8>,
    page_count: u32,
    page_size: usize,
    data: Seq<u8>,
) -> Seq<u8> {
    match raw_match(contents, page_count, page_size, data) {
        Some(start) => resumed(contents, page_size, data, start as int),
        None => resumed(erased_bytes(contents.len()), page_size, data, 0),
    }
}

/// Update the specified block's contents, resuming from a partial write
/// if possible: what is in place is left alone, and the rest of the data is
/// programmed, padded to whole pages with erased bytes.
///
/// The provided slice should be no longer than the block contents. If it
/// is shorter, the remaining bytes are "don't care."
pub fn update_raw_block<B: NandBlock>(block: &mut B, data: &[u8]) -> (r: Result<(), Error>)
    requires
        valid_block(old(block)),
    ensures
        valid_block(final(block)),
        final(block).page_count_spec() == old(block).page_count_spec(),
        final(block).page_size_spec() == old(block).page_size_spec(),
        final(block).reliable() == old(block).reliable(),
        final(block).marked_bad() == old(block).marked_bad(),
        r is Ok ==> holds_data(final(block).contents(), data@),
        r is Ok ==> ceil_div(data@.len(), old(block).page_size_spec() as nat) <= old(block).page_count_spec(),
        r is Ok ==> final(block).contents() == raw_updated(
            old(block).contents(),
            old(block).page_count_spec(),
            old(block).page_size_spec(),
            data@,
        ) || final(block).contents() == resumed(
            erased_bytes(old(block).contents().len()),
            old(block).page_size_spec(),
            data@,
            0,
        ),
        r is Ok && old(block).reliable() ==> final(block).contents() == raw_updated(
            old(block).contents(),
            old(block).page_count_spec(),
            old(block).page_size_spec(),
            data@,
        ),
        old(block).reliable() ==> (r is Ok <==> ceil_div(
            data@.len(),
            old(block).page_size_spec() as nat,
        ) <= old(block).page_count_spec()),
        old(block).reliable() && in_place(
            old(block).contents(),
            old(block).page_count_spec(),
            old(block).page_size_spec(),
            data@,
        ) ==> r is Ok && *final(block) == *old(block),
{
    let ps = block.page_size();
    let pc = block.page_count();
    let ghost pages = ceil_div(data@.len(), ps as nat);
    proof {
        lemma_ceil_div(data@.len(), ps as nat);
    }
    let found = check_raw_block(block, data);
    let start_page = match found {
        None => {
            match block.erase() {
                Err(e) => {
                    return Err(e);
                },
                Ok(()) => {},
            }
            0
        },
        Some(x) => {
            proof {
                lemma_raw_match(block.contents(), pc, ps, data@);
            }
            x
        },
    };
    let ghost held = block.contents();
    proof {
        assert(start_page * ps <= pages * ps && 0 <= start_page * ps && start_page * ps <= pc
            * ps) by (nonlinear_arith)
            requires
                0 <= start_page <= pages,
                start_page <= pc,
                ps > 0,
        ;
    }
    // Ensure that what is programmed is a multiple of the page size.
    let fill: usize = (ps - data.len() % ps) % ps;
    if fill > usize::MAX - data.len() {
        proof {
            lemma_too_long(data@.len(), ps as nat, pc as nat);
        }
        return Err(Error::Io);
    }
    proof {
        lemma_pages_hold(data@.len(), ps as nat);
    }
    let skip: usize = start_page as usize * ps;
    if skip >= data.len() {
        // All of the data is in place.
        proof {
            lemma_in_place(data@.len(), ps as nat, start_page as nat);
            assert(window(held, 0, data@.len()) =~= data@);
        }
        return Ok(());
    }
    let mut tail: Vec<u8> = Vec::new();
    append_bytes(&mut tail, vstd::slice::slice_subrange(data, skip, data.len()));
    let ghost body = tail@;
    let tail_len = tail.len() + fill;
    pad_erased(&mut tail, tail_len);
    proof {
        lemma_tail_pages(data@.len(), ps as nat, start_page as nat);
        if old(block).reliable() && in_place(old(block).contents(), pc, ps, data@) {
            assert(found == Some(pages as u32));
            assert(start_page == pages);
            assert(false);
        }
        assert(tail@.len() == data@.len() - skip + fill);
        assert forall|i: int| 0 <= i < data@.len() - skip implies tail@[i] == data@[skip + i] by {
            assert(body[i] == data@[skip + i]);
        }
        assert(tail@ =~= padded(data@, ps).skip(skip as int));
    }
    match block.program(start_page, tail.as_slice()) {
        Err(e) => Err(e),
        Ok(()) => {
            proof {
                let now = block.contents();
                assert(pages * ps <= pc * ps) by (nonlinear_arith)
                    requires
                        pages <= pc,
                        ps > 0,
                ;
                assert(now.len() == held.len());
                assert forall|i: int| 0 <= i < data@.len() implies now[i] == data@[i] by {
                    if i >= skip {
                        assert(now[i] == tail@[i - skip]);
                    } else {
                        assert(now[i] == held[i]);
                    }
                }
                assert(window(now, 0, data@.len()) =~= data@);
            }
            Ok(())
        },
    }
}

/// Data that does not fit a `usize` when padded does not fit a block.
proof fn lemma_too_long(len: nat, ps: nat, pc: nat)
    requires
        ps > 0,
        pc * ps <= usize::MAX,
        len + ((ps - len % ps) % (ps as int)) > usize::MAX,
    ensures
        ceil_div(len, ps) > pc,
{
    assert((len + ps - 1) / (ps as int) > pc) by (nonlinear_arith)
        requires
            ps > 0,
            pc * ps <= usize::MAX,
            len + ((ps - len % ps) % (ps as int)) > usize::MAX,
            len >= 0,
            pc >= 0,
    ;
}

/// Data that ends by the start of page `start`, which is none of the
/// pages behind the data, ends in the page before.
proof fn lemma_in_place(len: nat, ps: nat, start: nat)
    requires
        ps > 0,
        start <= ceil_div(len, ps),
        start * ps >= len,
    ensures
        start == ceil_div(len, ps),
{
    assert(start == (len + ps - 1) / (ps as int)) by (nonlinear_arith)
        requires
            ps > 0,
            start <= (len + ps - 1) / (ps as int),
            start * ps >= len,
            len >= 0,
            start >= 0,
    ;
}

/// The data from page `start` on, padded, is whole pages: those that the
/// data takes from there.
proof fn lemma_tail_pages(len: nat, ps: nat, start: nat)
    requires
        ps > 0,
        start * ps < len,
    ensures
        ({
            let fill = (ps - len % ps) % (ps as int);
            let tail = len - start * ps + fill;
            &&& 0 <= fill < ps
            &&& tail % (ps as int) == 0
            &&& tail > 0
            &&& start + tail / (ps as int) == ceil_div(len, ps)
            &&& len + fill == ceil_div(len, ps) * ps
        }),
{
    let q = len as int / ps as int;
    let r = len as int % ps as int;
    let c = ceil_div(len, ps) as int;
    let fill = (ps - len % ps) % (ps as int);
    let tail = len - start * ps + fill;
    lemma_ceil_div(len, ps);
    assert(len == q * ps + r && 0 <= r < ps && q >= 0) by (nonlinear_arith)
        requires
            q == len as int / ps as int,
            r == len as int % ps as int,
            ps > 0,
            len >= 0,
    ;
    if r == 0 {
        assert((ps as int) % (ps as int) == 0) by (nonlinear_arith)
            requires
                ps > 0,
        ;
        assert(fill == 0);
    } else {
        assert((ps - r) % (ps as int) == ps - r) by (nonlinear_arith)
            requires
                0 < r < ps,
        ;
        assert(fill == ps - r);
    }
    assert(len + fill == c * ps) by (nonlinear_arith)
        requires
            len == q * ps + r,
            r == 0 ==> fill == 0 && c == q,
            r != 0 ==> fill == ps - r && c == q + 1,
    ;
    let d = c - start;
    assert(tail == d * ps && d > 0) by (nonlinear_arith)
        requires
            tail == len - start * ps + fill,
            len + fill == c * ps,
            d == c - start,
            start * ps < len,
            fill < ps,
            ps > 0,
            0 <= fill,
    ;
    assert((d * ps) % (ps as int) == 0 && (d * ps) / (ps as int) == d) by (nonlinear_arith)
        requires
            d > 0,
            ps > 0,
    ;
}

/// The pages that the data takes hold all of it.
proof fn lemma_pages_hold(len: nat, ps: nat)
    requires
        ps > 0,
    ensures
        ceil_div(len, ps) * ps >= len,
{
    assert(((len + ps - 1) / (ps as int)) * ps >= len) by (nonlinear_arith)
        requires
            ps > 0,
            len >= 0,
    ;
}

/// Write `data` to a block that was handed out, by up to `RAW_ATTEMPTS`
/// updates with an erase after each that fails. A block that takes none of
/// them is marked bad, and the result is `false`.
fn write_piece<B: NandBlock>(block: &mut B, data: &[u8]) -> (r: Result<bool, Error>)
    requires
        valid_block(old(block)),
        !old(block).marked_bad(),
    ensures
        valid_block(final(block)),
        final(block).page_count_spec() == old(block).page_count_spec(),
        final(block).page_size_spec() == old(block).page_size_spec(),
        final(block).reliable() == old(block).reliable(),
        r == Ok::<bool, Error>(true) ==> holds_data(final(block).contents(), data@)
            && !final(block).marked_bad() && ceil_div(
            data@.len(),
            old(block).page_size_spec() as nat,
        ) <= old(block).page_count_spec(),
        r == Ok::<bool, Error>(false) ==> final(block).marked_bad(),
        old(block).reliable() ==> r is Ok && (r == Ok::<bool, Error>(true) <==> ceil_div(
            data@.len(),
            old(block).page_size_spec() as nat,
        ) <= old(block).page_count_spec()),
        old(block).reliable() && in_place(
            old(block).contents(),
            old(block).page_count_spec(),
            old(block).page_size_spec(),
            data@,
        ) ==> *final(block) == *old(block),
        old(block).reliable() && r == Ok::<bool, Error>(true) ==> final(block).contents()
            == raw_updated(
            old(block).contents(),
            old(block).page_count_spec(),
            old(block).page_size_spec(),
            data@,
        ),
{
    let mut attempt: u32 = 0;
    while attempt < RAW_ATTEMPTS
        invariant
            valid_block(&*block),
            block.page_count_spec() == old(block).page_count_spec(),
            block.page_size_spec() == old(block).page_size_spec(),
            block.reliable() == old(block).reliable(),
            !block.marked_bad(),
            attempt == 0 ==> *block == *old(block),
            attempt > 0 && block.reliable() ==> ceil_div(
                data@.len(),
                block.page_size_spec() as nat,
            ) > block.page_count_spec(),
        decreases RAW_ATTEMPTS - attempt,
    {
        match update_raw_block(block, data) {
            Ok(()) => {
                return Ok(true);
            },
            Err(_) => {
                match block.erase() {
                    Err(e) => {
                        return Err(e);
                    },
                    Ok(()) => {},
                }
            },
        }
        attempt += 1;
    }
    // The block must have gone bad.
    match block.mark_bad() {
        Err(e) => Err(e),
        Ok(()) => Ok(false),
    }
}

/// The `j`-th piece of `payload`, cut into pieces of `block_len` bytes.
pub open spec fn image_piece(payload: Seq<u8>, block_len: nat, j: int) -> Seq<u8> {
    payload.subrange(
        j * block_len,
        if (j + 1) * block_len <= payload.len() {
            (j + 1) * block_len
        } else {
            payload.len() as int
        },
    )
}

/// The first block that may take piece `j`: the one behind the block that
/// took the piece before.
pub open spec fn gap_start(placed: Seq<u32>, j: int) -> int {
    if j == 0 {
        0
    } else {
        placed[j - 1] + 1
    }
}

/// Whether block `i` was passed over before piece `j` found its block.
pub open spec fn passed_over(placed: Seq<u32>, j: int, i: int) -> bool {
    gap_start(placed, j) <= i < placed[j]
}

/// Whether the blocks `placed` hold the first `count` pieces of
/// `payload`: each piece a block, in rising order; every block that was
/// passed over is bad, and so is none that took a piece; without
/// `skip_bad` no block was passed over.
pub open spec fn pieces_held<N: Nand>(
    before: &N,
    after: &N,
    payload: Seq<u8>,
    placed: Seq<u32>,
    count: int,
    skip_bad: bool,
) -> bool {
    let block_len = before.layout_spec().block_len();
    &&& placed.len() == count
    &&& forall|j: int|
        0 <= j < count ==> {
            &&& 0 <= gap_start(placed, j) <= (#[trigger] placed[j]) < before.layout_spec().blocks
            &&& holds_data(
                after.block_spec(placed[j] as int).contents(),
                image_piece(payload, block_len, j),
            )
            &&& !after.block_spec(placed[j] as int).marked_bad()
            &&& !skip_bad ==> placed[j] == j
        }
    &&& forall|j: int, i: int|
        0 <= j < count && #[trigger] passed_over(placed, j, i) ==> after.block_spec(i).marked_bad()
}

/// Whether the blocks `placed` have taken the first `count` pieces of
/// `payload`, as `pieces_held` says, and the blocks behind the last one are
/// as they were.
#[verifier::opaque]
pub open spec fn raw_written<N: Nand>(
    before: &N,
    after: &N,
    payload: Seq<u8>,
    placed: Seq<u32>,
    count: int,
    skip_bad: bool,
) -> bool {
    &&& pieces_held(before, after, payload, placed, count, skip_bad)
    &&& forall|i: int|
        gap_start(placed, count) <= i < before.layout_spec().blocks ==> #[trigger] after.block_spec(
            i,
        ) == before.block_spec(i)
}

/// What a reliable device adds to `raw_written`: a block that was passed
/// over was bad before, and is as it was; a block that took a piece was not
/// bad, holds what an update of its contents with the piece leaves, and is
/// as it was where the piece was in place already.
#[verifier::opaque]
pub open spec fn raw_exact<N: Nand>(
    before: &N,
    after: &N,
    payload: Seq<u8>,
    placed: Seq<u32>,
    count: int,
) -> bool {
    let layout = before.layout_spec();
    &&& forall|j: int|
        0 <= j < count ==> {
            &&& !before.block_spec((#[trigger] placed[j]) as int).marked_bad()
            &&& after.block_spec(placed[j] as int).contents() == raw_updated(
                before.block_spec(placed[j] as int).contents(),
                layout.pages_per_block,
                layout.bytes_per_page,
                image_piece(payload, layout.block_len(), j),
            )
            &&& in_place(
                before.block_spec(placed[j] as int).contents(),
                layout.pages_per_block,
                layout.bytes_per_page,
                image_piece(payload, layout.block_len(), j),
            ) ==> after.block_spec(placed[j] as int) == before.block_spec(placed[j] as int)
        }
    &&& forall|j: int, i: int|
        0 <= j < count && #[trigger] passed_over(placed, j, i) ==> before.block_spec(i).marked_bad()
            && after.block_spec(i) == before.block_spec(i)
}

/// Whether the work from block `start` on came to a stop at block `at`:
/// the blocks between them are bad, and the blocks behind `at` are as they
/// were. Block `at` itself may hold anything.
pub open spec fn stopped_at<N: Nand>(before: &N, after: &N, start: int, at: int) -> bool {
    &&& forall|i: int| start <= i < at ==> (#[trigger] after.block_spec(i)).marked_bad()
    &&& forall|i: int|
        at < i < before.layout_spec().blocks ==> #[trigger] after.block_spec(i) == before.block_spec(
            i,
        )
}

/// The state in which a write that failed leaves the device: the blocks
/// `placed` hold the first pieces of `payload`, as `pieces_held` says, and
/// the work on the next piece came to a stop at block `at`.
#[verifier::opaque]
pub open spec fn raw_cut_short<N: Nand>(
    before: &N,
    after: &N,
    payload: Seq<u8>,
    placed: Seq<u32>,
    skip_bad: bool,
    at: int,
) -> bool {
    &&& placed.len() <= ceil_div(payload.len(), before.layout_spec().block_len())
    &&& gap_start(placed, placed.len() as int) <= at <= before.layout_spec().blocks
    &&& pieces_held(before, after, payload, placed, placed.len() as int, skip_bad)
    &&& stopped_at(before, after, gap_start(placed, placed.len() as int), at)
}

/// Whether one of the first blocks of the device, as many as there are
/// pieces, is bad.
pub open spec fn bad_in_the_way<N: Nand>(nand: &N, pieces: int) -> bool {
    exists|i: int|
        0 <= i < pieces && i < nand.layout_spec().blocks && (#[trigger] nand.block_spec(
            i,
        )).marked_bad()
}

/// Whether the pieces of `payload` from piece `j` on are found in the
/// blocks from `from` on, each piece in the next block that is not bad, so
/// that a write of the image finds nothing to do. Without `skip_bad` a bad
/// block in the way means that the image is not in place.
pub open spec fn image_in_place<N: Nand>(
    nand: &N,
    payload: Seq<u8>,
    from: int,
    j: int,
    skip_bad: bool,
) -> bool
    decreases nand.layout_spec().blocks - from,
{
    let layout = nand.layout_spec();
    if j * layout.block_len() >= payload.len() {
        true
    } else if from >= layout.blocks {
        false
    } else if nand.block_spec(from).marked_bad() {
        skip_bad && image_in_place(nand, payload, from + 1, j, skip_bad)
    } else {
        &&& in_place(
            nand.block_spec(from).contents(),
            layout.pages_per_block,
            layout.bytes_per_page,
            image_piece(payload, layout.block_len(), j),
        )
        &&& image_in_place(nand, payload, from + 1, j + 1, skip_bad)
    }
}

/// Find the next block from `start` on that takes `data`, and write it
/// there. The result is the block behind the one that took the data.
///
/// A block that the device does not hand out is bad, and so is a block
/// that does not take the data; such a block is passed over with
/// `skip_bad`, and is an error (`BadBlock`) without.
fn write_to_next<N: Nand>(nand: &mut N, start: u32, data: &[u8], skip_bad: bool) -> (r: Result<
    u32,
    Error,
>)
    requires
        valid_nand(old(nand)),
        start <= old(nand).layout_spec().blocks,
    ensures
        valid_nand(final(nand)),
        final(nand).layout_spec() == old(nand).layout_spec(),
        final(nand).reliable() == old(nand).reliable(),
        forall|i: int|
            0 <= i < start ==> #[trigger] final(nand).block_spec(i) == old(nand).block_spec(i),
        r matches Ok(next) ==> {
            &&& start < next <= old(nand).layout_spec().blocks
            &&& !skip_bad ==> next == start + 1
            &&& holds_data(final(nand).block_spec(next - 1).contents(), data@)
            &&& !final(nand).block_spec(next - 1).marked_bad()
            &&& !old(nand).block_spec(next - 1).marked_bad()
            &&& forall|i: int|
                start <= i < next - 1 ==> (#[trigger] final(nand).block_spec(i)).marked_bad()
            &&& forall|i: int|
                next <= i < old(nand).layout_spec().blocks ==> #[trigger] final(nand).block_spec(i)
                    == old(nand).block_spec(i)
            &&& old(nand).reliable() && ceil_div(
                data@.len(),
                old(nand).layout_spec().bytes_per_page as nat,
            ) <= old(nand).layout_spec().pages_per_block ==> forall|i: int|
                start <= i < next - 1 ==> (#[trigger] old(nand).block_spec(i)).marked_bad()
                    && final(nand).block_spec(i) == old(nand).block_spec(i)
            &&& old(nand).reliable() && in_place(
                old(nand).block_spec(next - 1).contents(),
                old(nand).layout_spec().pages_per_block,
                old(nand).layout_spec().bytes_per_page,
                data@,
            ) ==> final(nand).block_spec(next - 1) == old(nand).block_spec(next - 1)
            &&& old(nand).reliable() ==> final(nand).block_spec(next - 1).contents() == raw_updated(
                old(nand).block_spec(next - 1).contents(),
                old(nand).layout_spec().pages_per_block,
                old(nand).layout_spec().bytes_per_page,
                data@,
            )
        },
        r is Err ==> exists|at: int|
            start <= at <= old(nand).layout_spec().blocks && #[trigger] stopped_at(
                old(nand),
                final(nand),
                start as int,
                at,
            ),
        old(nand).reliable() && !skip_bad && start < old(nand).layout_spec().blocks && old(
            nand,
        ).block_spec(start as int).marked_bad() ==> r == Err::<u32, Error>(Error::BadBlock),
        old(nand).reliable() && ceil_div(
            data@.len(),
            old(nand).layout_spec().bytes_per_page as nat,
        ) <= old(nand).layout_spec().pages_per_block && (exists|i: int|
            start <= i < old(nand).layout_spec().blocks && !(#[trigger] old(nand).block_spec(
                i,
            )).marked_bad() && (skip_bad || i == start)) ==> r is Ok,
{
    let layout = nand.get_layout();
    let mut block_index = start;
    loop
        invariant
            valid_nand(&*nand),
            nand.layout_spec() == old(nand).layout_spec(),
            nand.reliable() == old(nand).reliable(),
            layout == nand.layout_spec(),
            start <= block_index <= layout.blocks,
            !skip_bad ==> block_index == start,
            forall|i: int| 0 <= i < start ==> #[trigger] nand.block_spec(i) == old(nand).block_spec(i),
            forall|i: int| start <= i < block_index ==> (#[trigger] nand.block_spec(i)).marked_bad(),
            forall|i: int|
                block_index <= i < layout.blocks ==> #[trigger] nand.block_spec(i) == old(
                    nand,
                ).block_spec(i),
            old(nand).reliable() && ceil_div(data@.len(), layout.bytes_per_page as nat)
                <= layout.pages_per_block ==> forall|i: int|
                start <= i < block_index ==> (#[trigger] old(nand).block_spec(i)).marked_bad()
                    && nand.block_spec(i) == old(nand).block_spec(i),
        decreases layout.blocks - block_index,
    {
        let ghost before = *nand;
        let ghost b = block_index as int;
        proof {
            if block_index < layout.blocks {
                nand_facts(&*nand, b);
            }
        }
        if block_index >= layout.blocks {
            // The device has no block to hand out.
            let res = match nand.block(block_index) {
                Err(e) => Err(e),
                _ => Err(Error::Internal),
            };
            proof {
                assert forall|i: int| start <= i < block_index implies (#[trigger] nand.block_spec(
                    i,
                )).marked_bad() by {
                    assert(before.block_spec(i).marked_bad());
                }
                assert(stopped_at(old(nand), &*nand, start as int, b));
            }
            return res;
        }
        let outcome = match nand.block(block_index) {
            Err(e) => Err(e),
            Ok(None) => Ok(false),
            Ok(Some(block)) => write_piece(block, data),
        };
        proof {
            assert forall|i: int| 0 <= i < start implies #[trigger] nand.block_spec(i) == old(
                nand,
            ).block_spec(i) by {
                assert(before.block_spec(i) == old(nand).block_spec(i));
            }
            assert forall|i: int| start <= i < block_index implies (#[trigger] nand.block_spec(
                i,
            )).marked_bad() by {
                assert(before.block_spec(i).marked_bad());
            }
            assert forall|i: int| block_index < i < layout.blocks implies #[trigger] nand.block_spec(
                i,
            ) == old(nand).block_spec(i) by {
                assert(before.block_spec(i) == old(nand).block_spec(i));
            }
            if old(nand).reliable() && ceil_div(data@.len(), layout.bytes_per_page as nat)
                <= layout.pages_per_block {
                assert forall|i: int| start <= i < block_index implies (
                #[trigger] old(nand).block_spec(i)).marked_bad() && nand.block_spec(i) == old(
                    nand,
                ).block_spec(i) by {
                    assert(before.block_spec(i) == old(nand).block_spec(i));
                }
            }
        }
        let written = match outcome {
            Err(e) => {
                proof {
                    assert(stopped_at(old(nand), &*nand, start as int, b));
                }
                return Err(e);
            },
            Ok(written) => written,
        };
        block_index = block_index + 1;
        if written {
            return Ok(block_index);
        }
        // The block is bad; if we can't tolerate it, bail. Otherwise, loop
        // to find a good one.

        if !skip_bad {
            proof {
                assert(stopped_at(old(nand), &*nand, start as int, b));
            }
            return Err(Error::BadBlock);
        }
    }
}

/// Whether the blocks from `from` on have a block that is not bad for each
/// of `pieces` pieces; without `skip_bad`, a bad block in the way means
/// that they have not.
pub open spec fn room_for<N: Nand>(nand: &N, from: int, pieces: int, skip_bad: bool) -> bool
    decreases nand.layout_spec().blocks - from,
{
    if pieces <= 0 {
        true
    } else if from >= nand.layout_spec().blocks {
        false
    } else if nand.block_spec(from).marked_bad() {
        skip_bad && room_for(nand, from + 1, pieces, skip_bad)
    } else {
        room_for(nand, from + 1, pieces - 1, skip_bad)
    }
}

/// Bad blocks up to a block that is not bad take one piece together.
proof fn lemma_room_step<N: Nand>(nand: &N, from: int, to: int, pieces: int, skip_bad: bool)
    requires
        0 <= from <= to < nand.layout_spec().blocks,
        pieces >= 1,
        skip_bad || from == to,
        forall|i: int| from <= i < to ==> (#[trigger] nand.block_spec(i)).marked_bad(),
        !nand.block_spec(to).marked_bad(),
    ensures
        room_for(nand, from, pieces, skip_bad) == room_for(nand, to + 1, pieces - 1, skip_bad),
    decreases to - from,
{
    if from < to {
        assert(nand.block_spec(from).marked_bad());
        lemma_room_step(nand, from + 1, to, pieces, skip_bad);
    }
}

/// Where no block that is not bad can be reached, there is no room.
proof fn lemma_no_room<N: Nand>(nand: &N, from: int, pieces: int, skip_bad: bool)
    requires
        0 <= from,
        pieces >= 1,
        forall|i: int|
            from <= i < nand.layout_spec().blocks && !(#[trigger] nand.block_spec(i)).marked_bad()
                ==> !(skip_bad || i == from),
    ensures
        !room_for(nand, from, pieces, skip_bad),
    decreases nand.layout_spec().blocks - from,
{
    if from < nand.layout_spec().blocks {
        if nand.block_spec(from).marked_bad() {
            if skip_bad {
                lemma_no_room(nand, from + 1, pieces, skip_bad);
            }
        } else {
            assert(!nand.block_spec(from).marked_bad());
        }
    }
}

/// Blocks that are as they were have the room that they had.
proof fn lemma_room_same<N: Nand>(a: &N, b: &N, from: int, pieces: int, skip_bad: bool)
    requires
        0 <= from,
        a.layout_spec() == b.layout_spec(),
        forall|i: int|
            from <= i < a.layout_spec().blocks ==> #[trigger] a.block_spec(i) == b.block_spec(i),
    ensures
        room_for(a, from, pieces, skip_bad) == room_for(b, from, pieces, skip_bad),
    decreases a.layout_spec().blocks - from,
{
    if pieces > 0 && from < a.layout_spec().blocks {
        assert(a.block_spec(from) == b.block_spec(from));
        lemma_room_same(a, b, from + 1, pieces, skip_bad);
        lemma_room_same(a, b, from + 1, pieces - 1, skip_bad);
    }
}

/// Write a raw blob to the NAND flash device: the bytes of `image`, cut
/// into pieces of the size of a block, each piece to the next block that
/// takes it.
///
/// This operation is idempotent; if the image is already written, no
/// erase or write will occur.
///
/// The `skip_bad` parameter will cause bad blocks to be skipped over. If
/// this is `false`, encountering a bad block is an error (`BadBlock`), and
/// so is a block that goes bad. An error also comes from the image source,
/// and from the device: where it refuses to hand out a block, as it does
/// behind the last one, to erase a block or to mark it bad.
///
/// On a reliable device a block is passed over only where it was bad
/// before, and is left as it was; a block that takes a piece holds what an
/// update of its contents with the piece leaves, and is left as it was where
/// the piece was in place. After an error the pieces that were written are
/// held still, and the blocks behind the one at which the work stopped are as
/// they were.
pub fn write_raw_image<N: Nand, R: ReadExt>(nand: &mut N, image: &mut R, skip_bad: bool) -> (r:
    Result<(), Error>)
    requires
        valid_nand(old(nand)),
        old(image).sound(),
    ensures
        valid_nand(final(nand)),
        final(nand).layout_spec() == old(nand).layout_spec(),
        final(nand).reliable() == old(nand).reliable(),
        r is Ok ==> exists|placed: Seq<u32>|
            #[trigger] raw_written(
                old(nand),
                final(nand),
                old(image).pending(),
                placed,
                ceil_div(old(image).pending().len(), old(nand).layout_spec().block_len()) as int,
                skip_bad,
            ) && (old(nand).reliable() ==> raw_exact(
                old(nand),
                final(nand),
                old(image).pending(),
                placed,
                ceil_div(old(image).pending().len(), old(nand).layout_spec().block_len()) as int,
            )),
        r is Err ==> exists|placed: Seq<u32>, at: int|
            #[trigger] raw_cut_short(
                old(nand),
                final(nand),
                old(image).pending(),
                placed,
                skip_bad,
                at,
            ),
        old(nand).reliable() && old(image).unfailing() && !skip_bad && bad_in_the_way(
            old(nand),
            ceil_div(old(image).pending().len(), old(nand).layout_spec().block_len()) as int,
        ) ==> r == Err::<(), Error>(Error::BadBlock),
        old(nand).reliable() && old(image).unfailing() && image_in_place(
            old(nand),
            old(image).pending(),
            0,
            0,
            skip_bad,
        ) ==> r is Ok && forall|i: int|
            0 <= i < old(nand).layout_spec().blocks ==> #[trigger] final(nand).block_spec(i) == old(
                nand,
            ).block_spec(i),
        old(nand).reliable() && old(image).unfailing() ==> (r is Ok <==> room_for(
            old(nand),
            0,
            ceil_div(old(image).pending().len(), old(nand).layout_spec().block_len()) as int,
            skip_bad,
        )),
{
    let layout = nand.get_layout();
    assert(layout.pages_per_block * layout.bytes_per_page == layout.block_len());
    let block_size: usize = layout.pages_per_block as usize * layout.bytes_per_page;
    let ghost payload = image.pending();
    let ghost bl = layout.block_len();
    let ghost total = ceil_div(payload.len(), bl) as int;
    let ghost sure = old(nand).reliable() && old(image).unfailing() && image_in_place(
        old(nand),
        payload,
        0,
        0,
        skip_bad,
    );
    let ghost mut placed: Seq<u32> = Seq::empty();
    let ghost mut j: int = 0;
    let mut data: Vec<u8> = Vec::new();
    let mut block_index: u32 = 0;
    proof {
        assert(bl > 0) by (nonlinear_arith)
            requires
                bl == layout.pages_per_block * layout.bytes_per_page,
                layout.pages_per_block > 0,
                layout.bytes_per_page > 0,
        ;
        lemma_ceil_div(payload.len(), bl);
        assert(payload.skip(0) =~= payload);
        reveal(raw_written);
        reveal(raw_exact);
    }
    loop
        invariant
            old(nand).reliable() ==> raw_exact(old(nand), &*nand, payload, placed, j),
            valid_nand(&*nand),
            nand.layout_spec() == old(nand).layout_spec(),
            nand.reliable() == old(nand).reliable(),
            image.sound(),
            image.unfailing() == old(image).unfailing(),
            layout == nand.layout_spec(),
            layout.wf(),
            bl == layout.block_len(),
            bl > 0,
            block_size == bl,
            payload == old(image).pending(),
            total == ceil_div(payload.len(), bl),
            0 <= j <= total,
            image.pending() == payload.skip(
                if j * bl <= payload.len() {
                    j * bl
                } else {
                    payload.len() as int
                },
            ),
            block_index == gap_start(placed, j),
            block_index <= layout.blocks,
            placed.len() == j,
            raw_written(old(nand), &*nand, payload, placed, j, skip_bad),
            sure == (old(nand).reliable() && old(image).unfailing() && image_in_place(
                old(nand),
                payload,
                0,
                0,
                skip_bad,
            )),
            sure ==> image_in_place(old(nand), payload, block_index as int, j, skip_bad),
            sure ==> forall|i: int|
                0 <= i < layout.blocks ==> #[trigger] nand.block_spec(i) == old(nand).block_spec(i),
            forall|i: int|
                block_index <= i < layout.blocks ==> #[trigger] nand.block_spec(i) == old(
                    nand,
                ).block_spec(i),
            old(nand).reliable() && old(image).unfailing() ==> room_for(
                old(nand),
                0,
                total,
                skip_bad,
            ) == room_for(old(nand), block_index as int, total - j, skip_bad),
        decreases image.pending().len(),
    {
        data.clear();
        match image.read_to_vec(&mut data, block_size) {
            Err(e) => {
                proof {
                    lemma_cut_short(
                        old(nand),
                        &*nand,
                        &*nand,
                        payload,
                        placed,
                        j,
                        skip_bad,
                        block_index as int,
                    );
                }
                return Err(e);
            },
            Ok(()) => {},
        }
        if data.len() == 0 {
            // The end of the image means that the write is complete.
            proof {
                lemma_pieces_done(payload.len(), bl, j);
                if sure {
                    lemma_written_len(old(nand), &*nand, payload, placed, j, skip_bad);
                }
                if old(nand).reliable() && !skip_bad {
                    lemma_none_bad(old(nand), &*nand, payload, placed, j);
                }
            }
            return Ok(());
        }
        proof {
            assert((j + 1) * bl == j * bl + bl) by (nonlinear_arith);
            assert(j * bl >= 0) by (nonlinear_arith)
                requires
                    j >= 0,
                    bl > 0,
            ;
            lemma_pieces_left(payload.len(), bl, j);
            assert(data@ =~= image_piece(payload, bl, j));
            assert(image.pending() =~= payload.skip(
                if (j + 1) * bl <= payload.len() {
                    (j + 1) * bl
                } else {
                    payload.len() as int
                },
            ));
            lemma_piece_fits(data@.len(), layout.pages_per_block as nat, layout.bytes_per_page as nat);
        }
        let ghost before = *nand;
        let res = write_to_next(nand, block_index, data.as_slice(), skip_bad);
        proof {
            if old(nand).reliable() && old(image).unfailing() {
                lemma_room_same(&before, old(nand), block_index as int, total - j, skip_bad);
                if res is Err {
                    assert forall|i: int|
                        block_index <= i < layout.blocks && !(#[trigger] before.block_spec(
                            i,
                        )).marked_bad() implies !(skip_bad || i == block_index) by {}
                    lemma_no_room(&before, block_index as int, total - j, skip_bad);
                } else {
                    let next = res->Ok_0 as int;
                    lemma_room_step(&before, block_index as int, next - 1, total - j, skip_bad);
                    lemma_room_same(&before, old(nand), next, total - j - 1, skip_bad);
                }
            }
            if sure {
                lemma_image_found(old(nand), payload, block_index as int, j, skip_bad);
                let good = choose|i: int|
                    block_index <= i < layout.blocks && !(#[trigger] old(nand).block_spec(
                        i,
                    )).marked_bad() && (skip_bad || i == block_index);
                assert(before.block_spec(good) == old(nand).block_spec(good));
                assert(!before.block_spec(good).marked_bad());
            }
        }
        let next = match res {
            Err(e) => {
                proof {
                    let at = choose|at: int|
                        block_index <= at <= layout.blocks && #[trigger] stopped_at(
                            &before,
                            &*nand,
                            block_index as int,
                            at,
                        );
                    lemma_cut_short(old(nand), &before, &*nand, payload, placed, j, skip_bad, at);
                    if old(nand).reliable() && old(image).unfailing() && !skip_bad && bad_in_the_way(
                        old(nand),
                        total,
                    ) {
                        lemma_none_bad(old(nand), &before, payload, placed, j);
                        let w = choose|i: int|
                            0 <= i < total && i < layout.blocks && (#[trigger] old(nand).block_spec(
                                i,
                            )).marked_bad();
                        assert(block_index <= w);
                        assert(before.block_spec(block_index as int) == old(nand).block_spec(
                            block_index as int,
                        ));
                        if !before.block_spec(block_index as int).marked_bad() {
                            assert(!before.block_spec(block_index as int).marked_bad() && (skip_bad
                                || block_index as int == block_index));
                        }
                    }
                }
                return Err(e);
            },
            Ok(next) => next,
        };
        proof {
            if old(nand).reliable() {
                assert(before.block_spec(next - 1) == old(nand).block_spec(next - 1));
                assert forall|i: int| block_index <= i < next - 1 implies (
                #[trigger] before.block_spec(i)).marked_bad() && nand.block_spec(i)
                    == before.block_spec(i) by {}
                lemma_exact_step(
                    old(nand),
                    &before,
                    &*nand,
                    payload,
                    placed,
                    j,
                    skip_bad,
                    data@,
                    block_index as int,
                    next as int,
                );
            }
            lemma_written_step(
                old(nand),
                &before,
                &*nand,
                payload,
                placed,
                j,
                skip_bad,
                data@,
                block_index as int,
                next as int,
            );
            if sure {
                assert forall|i: int| block_index <= i < next - 1 implies (
                #[trigger] old(nand).block_spec(i)).marked_bad() by {
                    assert(before.block_spec(i) == old(nand).block_spec(i));
                    assert(before.block_spec(i).marked_bad());
                }
                assert(before.block_spec(next - 1) == old(nand).block_spec(next - 1));
                lemma_image_walk(
                    old(nand),
                    payload,
                    block_index as int,
                    next - 1,
                    j,
                    skip_bad,
                );
                assert forall|i: int| 0 <= i < layout.blocks implies #[trigger] nand.block_spec(i)
                    == old(nand).block_spec(i) by {
                    assert(before.block_spec(i) == old(nand).block_spec(i));
                    if block_index <= i < next - 1 {
                        assert(before.block_spec(i).marked_bad());
                    }
                }
            }
            assert forall|i: int| next <= i < layout.blocks implies #[trigger] nand.block_spec(i)
                == old(nand).block_spec(i) by {
                assert(before.block_spec(i) == old(nand).block_spec(i));
            }
            placed = placed.push((next - 1) as u32);
            j = j + 1;
        }
        block_index = next;
    }
}

/// An image that is in place has a block that is not bad for its next
/// piece; without `skip_bad` it is the very next block.
proof fn lemma_image_found<N: Nand>(nand: &N, payload: Seq<u8>, from: int, j: int, skip_bad: bool)
    requires
        0 <= from,
        image_in_place(nand, payload, from, j, skip_bad),
        j * nand.layout_spec().block_len() < payload.len(),
    ensures
        exists|i: int|
            from <= i < nand.layout_spec().blocks && !(#[trigger] nand.block_spec(i)).marked_bad()
                && (skip_bad || i == from),
    decreases nand.layout_spec().blocks - from,
{
    if nand.block_spec(from).marked_bad() {
        lemma_image_found(nand, payload, from + 1, j, skip_bad);
        let i = choose|i: int|
            from + 1 <= i < nand.layout_spec().blocks && !(#[trigger] nand.block_spec(
                i,
            )).marked_bad() && (skip_bad || i == from + 1);
        assert(!nand.block_spec(i).marked_bad());
    } else {
        assert(!nand.block_spec(from).marked_bad());
    }
}

/// In an image that is in place, the first block from `from` on that is
/// not bad holds piece `j`, and the pieces behind it are in place behind
/// that block.
proof fn lemma_image_walk<N: Nand>(
    nand: &N,
    payload: Seq<u8>,
    from: int,
    to: int,
    j: int,
    skip_bad: bool,
)
    requires
        0 <= from <= to < nand.layout_spec().blocks,
        image_in_place(nand, payload, from, j, skip_bad),
        j * nand.layout_spec().block_len() < payload.len(),
        forall|i: int| from <= i < to ==> (#[trigger] nand.block_spec(i)).marked_bad(),
        !nand.block_spec(to).marked_bad(),
    ensures
        in_place(
            nand.block_spec(to).contents(),
            nand.layout_spec().pages_per_block,
            nand.layout_spec().bytes_per_page,
            image_piece(payload, nand.layout_spec().block_len(), j),
        ),
        image_in_place(nand, payload, to + 1, j + 1, skip_bad),
    decreases to - from,
{
    if from < to {
        assert(nand.block_spec(from).marked_bad());
        lemma_image_walk(nand, payload, from + 1, to, j, skip_bad);
    }
}

/// When a read brings nothing, the pieces so far are all pieces.
proof fn lemma_pieces_done(len: nat, bl: nat, j: int)
    requires
        bl > 0,
        0 <= j <= ceil_div(len, bl),
        j * bl >= len,
    ensures
        j == ceil_div(len, bl),
{
    lemma_in_place(len, bl, j as nat);
}

/// When data is left behind piece `j`, there is a piece `j`.
proof fn lemma_pieces_left(len: nat, bl: nat, j: int)
    requires
        bl > 0,
        0 <= j,
        j * bl < len,
    ensures
        j < ceil_div(len, bl),
{
    lemma_pages_left(len, bl, j);
}

/// A piece that is no longer than a block takes no more pages than a block
/// has.
proof fn lemma_piece_fits(len: nat, pc: nat, ps: nat)
    requires
        ps > 0,
        len <= pc * ps,
    ensures
        ceil_div(len, ps) <= pc,
{
    assert((len + ps - 1) / (ps as int) <= pc) by (nonlinear_arith)
        requires
            ps > 0,
            len <= pc * ps,
            len >= 0,
            pc >= 0,
    ;
}

/// The blocks that took pieces lie before the block that may take the next
/// piece.
proof fn lemma_rising(placed: Seq<u32>, j: int, k: int)
    requires
        0 <= k < j <= placed.len(),
        forall|m: int| 0 <= m < placed.len() ==> #[trigger] gap_start(placed, m) <= placed[m],
    ensures
        placed[k] < gap_start(placed, j),
    decreases j - k,
{
    if k < j - 1 {
        lemma_rising(placed, j - 1, k);
        assert(gap_start(placed, j - 1) <= placed[j - 1]);
    }
}

/// Without `skip_bad` on a reliable device, piece `k` went to block `k`,
/// and none of these blocks was bad.
proof fn lemma_none_bad<N: Nand>(
    start: &N,
    now: &N,
    payload: Seq<u8>,
    placed: Seq<u32>,
    j: int,
)
    requires
        0 <= j,
        raw_written(start, now, payload, placed, j, false),
        raw_exact(start, now, payload, placed, j),
    ensures
        gap_start(placed, j) == j,
        forall|i: int| 0 <= i < j ==> !(#[trigger] start.block_spec(i)).marked_bad(),
{
    reveal(raw_written);
    reveal(raw_exact);
    if j > 0 {
        assert(placed[j - 1] == j - 1);
    }
    assert forall|i: int| 0 <= i < j implies !(#[trigger] start.block_spec(i)).marked_bad() by {
        assert(placed[i] == i);
    }
}

/// Where the work on piece `j` came to a stop at block `at`, the pieces
/// before it are held still.
proof fn lemma_cut_short<N: Nand>(
    start: &N,
    before: &N,
    after: &N,
    payload: Seq<u8>,
    placed: Seq<u32>,
    j: int,
    skip_bad: bool,
    at: int,
)
    requires
        0 <= j <= ceil_div(payload.len(), start.layout_spec().block_len()),
        raw_written(start, before, payload, placed, j, skip_bad),
        before.layout_spec() == start.layout_spec(),
        gap_start(placed, j) <= at <= start.layout_spec().blocks,
        forall|i: int|
            0 <= i < gap_start(placed, j) ==> #[trigger] after.block_spec(i) == before.block_spec(i),
        stopped_at(before, after, gap_start(placed, j), at),
    ensures
        raw_cut_short(start, after, payload, placed, skip_bad, at),
{
    reveal(raw_written);
    reveal(raw_cut_short);
    assert forall|k: int| 0 <= k < j implies (#[trigger] placed[k]) < gap_start(placed, j) by {
        lemma_rising(placed, j, k);
    }
    assert forall|k: int| 0 <= k < j implies {
        &&& holds_data(
            after.block_spec((#[trigger] placed[k]) as int).contents(),
            image_piece(payload, start.layout_spec().block_len(), k),
        )
        &&& !after.block_spec(placed[k] as int).marked_bad()
    } by {
        assert(placed[k] < gap_start(placed, j));
        assert(after.block_spec(placed[k] as int) == before.block_spec(placed[k] as int));
    }
    assert forall|k: int, i: int| 0 <= k < j && #[trigger] passed_over(placed, k, i) implies after.block_spec(
        i,
    ).marked_bad() by {
        assert(placed[k] < gap_start(placed, j));
        assert(after.block_spec(i) == before.block_spec(i));
    }
    assert forall|i: int| at < i < start.layout_spec().blocks implies #[trigger] after.block_spec(i)
        == start.block_spec(i) by {
        assert(after.block_spec(i) == before.block_spec(i));
    }
}

/// After piece `j` went to the block before `next` on a reliable device,
/// with the blocks from `first` to that one passed over, what the device
/// adds holds of one piece more.
proof fn lemma_exact_step<N: Nand>(
    start: &N,
    before: &N,
    after: &N,
    payload: Seq<u8>,
    placed: Seq<u32>,
    j: int,
    skip_bad: bool,
    data: Seq<u8>,
    first: int,
    next: int,
)
    requires
        0 <= j,
        raw_written(start, before, payload, placed, j, skip_bad),
        raw_exact(start, before, payload, placed, j),
        before.layout_spec() == start.layout_spec(),
        data == image_piece(payload, start.layout_spec().block_len(), j),
        first == gap_start(placed, j),
        0 <= first < next <= start.layout_spec().blocks,
        forall|i: int| 0 <= i < first ==> #[trigger] after.block_spec(i) == before.block_spec(i),
        !before.block_spec(next - 1).marked_bad(),
        after.block_spec(next - 1).contents() == raw_updated(
            before.block_spec(next - 1).contents(),
            start.layout_spec().pages_per_block,
            start.layout_spec().bytes_per_page,
            data,
        ),
        in_place(
            before.block_spec(next - 1).contents(),
            start.layout_spec().pages_per_block,
            start.layout_spec().bytes_per_page,
            data,
        ) ==> after.block_spec(next - 1) == before.block_spec(next - 1),
        forall|i: int|
            first <= i < next - 1 ==> (#[trigger] before.block_spec(i)).marked_bad()
                && after.block_spec(i) == before.block_spec(i),
    ensures
        raw_exact(start, after, payload, placed.push((next - 1) as u32), j + 1),
{
    reveal(raw_written);
    reveal(raw_exact);
    let layout = start.layout_spec();
    let block = (next - 1) as u32;
    let longer = placed.push(block);
    assert forall|k: int| 0 <= k <= j implies gap_start(longer, k) == gap_start(placed, k) by {
        if 0 < k {
            assert(longer[k - 1] == placed[k - 1]);
        }
    }
    assert forall|k: int| 0 <= k < j implies (#[trigger] placed[k]) < first by {
        lemma_rising(placed, j, k);
    }
    assert forall|k: int| 0 <= k < j + 1 implies {
        &&& !start.block_spec((#[trigger] longer[k]) as int).marked_bad()
        &&& after.block_spec(longer[k] as int).contents() == raw_updated(
            start.block_spec(longer[k] as int).contents(),
            layout.pages_per_block,
            layout.bytes_per_page,
            image_piece(payload, layout.block_len(), k),
        )
        &&& in_place(
            start.block_spec(longer[k] as int).contents(),
            layout.pages_per_block,
            layout.bytes_per_page,
            image_piece(payload, layout.block_len(), k),
        ) ==> after.block_spec(longer[k] as int) == start.block_spec(longer[k] as int)
    } by {
        if k < j {
            assert(longer[k] == placed[k]);
            assert(placed[k] < first);
            assert(after.block_spec(placed[k] as int) == before.block_spec(placed[k] as int));
        } else {
            assert(longer[k] == next - 1);
            assert(before.block_spec(next - 1) == start.block_spec(next - 1));
        }
    }
    assert forall|k: int, i: int| 0 <= k < j + 1 && #[trigger] passed_over(longer, k, i) implies start.block_spec(
        i,
    ).marked_bad() && after.block_spec(i) == start.block_spec(i) by {
        if k < j {
            assert(longer[k] == placed[k]);
            assert(passed_over(placed, k, i));
            assert(placed[k] < first);
            assert(after.block_spec(i) == before.block_spec(i));
        } else {
            assert(longer[j] == next - 1);
            assert(first <= i < next - 1);
            assert(before.block_spec(i) == start.block_spec(i));
            assert(before.block_spec(i).marked_bad());
        }
    }
}

/// As many blocks have taken a piece as have been counted.
proof fn lemma_written_len<N: Nand>(
    start: &N,
    now: &N,
    payload: Seq<u8>,
    placed: Seq<u32>,
    j: int,
    skip_bad: bool,
)
    requires
        raw_written(start, now, payload, placed, j, skip_bad),
    ensures
        placed.len() == j,
{
    reveal(raw_written);
}

/// After piece `j` went to the block before `next`, with the blocks from
/// `first` to that one passed over, the blocks that hold the image so far
/// are one more.
proof fn lemma_written_step<N: Nand>(
    start: &N,
    before: &N,
    after: &N,
    payload: Seq<u8>,
    placed: Seq<u32>,
    j: int,
    skip_bad: bool,
    data: Seq<u8>,
    first: int,
    next: int,
)
    requires
        0 <= j,
        raw_written(start, before, payload, placed, j, skip_bad),
        before.layout_spec() == start.layout_spec(),
        data == image_piece(payload, start.layout_spec().block_len(), j),
        first == gap_start(placed, j),
        0 <= first < next <= start.layout_spec().blocks,
        !skip_bad ==> next == first + 1,
        forall|i: int| 0 <= i < first ==> #[trigger] after.block_spec(i) == before.block_spec(i),
        holds_data(after.block_spec(next - 1).contents(), data),
        !after.block_spec(next - 1).marked_bad(),
        forall|i: int| first <= i < next - 1 ==> (#[trigger] after.block_spec(i)).marked_bad(),
        forall|i: int|
            next <= i < start.layout_spec().blocks ==> #[trigger] after.block_spec(i)
                == before.block_spec(i),
    ensures
        raw_written(start, after, payload, placed.push((next - 1) as u32), j + 1, skip_bad),
{
    reveal(raw_written);
    let block = (next - 1) as u32;
    let longer = placed.push(block);
    assert forall|k: int| 0 <= k <= j implies gap_start(longer, k) == gap_start(placed, k) by {
        if 0 < k {
            assert(longer[k - 1] == placed[k - 1]);
        }
    }
    assert forall|k: int| 0 <= k < j implies (#[trigger] placed[k]) < first by {
        lemma_rising(placed, j, k);
    }
    assert forall|k: int| 0 <= k < j + 1 implies {
        &&& 0 <= gap_start(longer, k) <= (#[trigger] longer[k]) < start.layout_spec().blocks
        &&& holds_data(
            after.block_spec(longer[k] as int).contents(),
            image_piece(payload, start.layout_spec().block_len(), k),
        )
        &&& !after.block_spec(longer[k] as int).marked_bad()
        &&& !skip_bad ==> longer[k] == k
    } by {
        if k < j {
            assert(longer[k] == placed[k]);
            assert(placed[k] < first);
            assert(after.block_spec(placed[k] as int) == before.block_spec(placed[k] as int));
        } else {
            if !skip_bad && j > 0 {
                assert(placed[j - 1] == j - 1);
            }
        }
    }
    assert forall|k: int, i: int| 0 <= k < j + 1 && #[trigger] passed_over(longer, k, i) implies after.block_spec(
        i,
    ).marked_bad() by {
        if k < j {
            assert(longer[k] == placed[k]);
            assert(passed_over(placed, k, i));
            assert(placed[k] < first);
            assert(after.block_spec(i) == before.block_spec(i));
        }
    }
    assert(gap_start(longer, j + 1) == next);
}

/// What `raw_written` says of piece `j` and of the blocks that were
/// passed over before it.
proof fn lemma_written_piece<N: Nand>(
    before: &N,
    after: &N,
    payload: Seq<u8>,
    placed: Seq<u32>,
    total: int,
    skip_bad: bool,
    j: int,
)
    requires
        raw_written(before, after, payload, placed, total, skip_bad),
        0 <= j < total,
    ensures
        0 <= gap_start(placed, j) <= placed[j] < before.layout_spec().blocks,
        holds_data(
            after.block_spec(placed[j] as int).contents(),
            image_piece(payload, before.layout_spec().block_len(), j),
        ),
        !after.block_spec(placed[j] as int).marked_bad(),
        !skip_bad ==> gap_start(placed, j) == placed[j],
        forall|i: int|
            gap_start(placed, j) <= i < placed[j] ==> (#[trigger] after.block_spec(i)).marked_bad(),
{
    reveal(raw_written);
    if !skip_bad && j > 0 {
        assert(placed[j - 1] == j - 1);
    }
    assert forall|i: int| gap_start(placed, j) <= i < placed[j] implies (#[trigger] after.block_spec(
        i,
    )).marked_bad() by {
        assert(passed_over(placed, j, i));
    }
}

/// An image that was written is in place: a second write finds every piece
/// in its block and has nothing to do.
pub proof fn lemma_written_in_place<N: Nand>(
    before: &N,
    after: &N,
    payload: Seq<u8>,
    placed: Seq<u32>,
    skip_bad: bool,
)
    requires
        valid_nand(after),
        after.layout_spec() == before.layout_spec(),
        raw_written(
            before,
            after,
            payload,
            placed,
            ceil_div(payload.len(), before.layout_spec().block_len()) as int,
            skip_bad,
        ),
    ensures
        image_in_place(after, payload, 0, 0, skip_bad),
{
    let total = ceil_div(payload.len(), before.layout_spec().block_len()) as int;
    if 0 < total {
        lemma_written_piece(before, after, payload, placed, total, skip_bad, 0);
    }
    lemma_walk_written(before, after, payload, placed, total, skip_bad, 0, 0);
}

/// The pieces from piece `j` on are in place in the blocks from `from` on,
/// which lies among the blocks that were passed over before piece `j`.
proof fn lemma_walk_written<N: Nand>(
    before: &N,
    after: &N,
    payload: Seq<u8>,
    placed: Seq<u32>,
    total: int,
    skip_bad: bool,
    from: int,
    j: int,
)
    requires
        valid_nand(after),
        after.layout_spec() == before.layout_spec(),
        raw_written(before, after, payload, placed, total, skip_bad),
        total == ceil_div(payload.len(), before.layout_spec().block_len()),
        0 <= j <= total,
        0 <= from,
        j < total ==> gap_start(placed, j) <= from <= placed[j],
    ensures
        image_in_place(after, payload, from, j, skip_bad),
    decreases total - j, after.layout_spec().blocks - from,
{
    let layout = after.layout_spec();
    let bl = layout.block_len();
    assert(bl > 0) by (nonlinear_arith)
        requires
            bl == layout.pages_per_block * layout.bytes_per_page,
            layout.pages_per_block > 0,
            layout.bytes_per_page > 0,
    ;
    if j < total {
        lemma_written_piece(before, after, payload, placed, total, skip_bad, j);
        lemma_ceil_bound_page(payload.len(), bl, j);
        if from < placed[j] {
            assert(after.block_spec(from).marked_bad());
            lemma_walk_written(before, after, payload, placed, total, skip_bad, from + 1, j);
        } else {
            let piece = image_piece(payload, bl, j);
            nand_facts(after, from);
            assert(piece.len() <= bl);
            lemma_piece_fits(piece.len(), layout.pages_per_block as nat, layout.bytes_per_page as nat);
            lemma_held_data_matches(
                after.block_spec(from).contents(),
                layout.pages_per_block,
                layout.bytes_per_page,
                piece,
            );
            if j + 1 < total {
                lemma_written_piece(before, after, payload, placed, total, skip_bad, j + 1);
            }
            lemma_walk_written(before, after, payload, placed, total, skip_bad, from + 1, j + 1);
        }
    } else {
        lemma_pages_hold(payload.len(), bl);
    }
}

} // verus!
