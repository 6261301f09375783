//! Writing the volumes of an image to formatted flash.

use crate::error::Error;
use crate::nand::{
    all_erased, nand_facts, pad_erased, padded, pages_in_range, patched, valid_block, valid_nand,
    window, Nand, NandBlock, NandLayout, PageUtil,
};
use crate::ubi::bytes::{push_zeros, zeros};
use crate::ubi::format::{counters_fit, lemma_settled, untouched, FormatAction};
use crate::ubi::headers::{
    lemma_vid_decode_encode, lemma_vid_image, Ec, Vid, VolTableRecordView, UBI_VID_HDR_SIZE,
};
use crate::ubi::place::{buckets_of, lemma_placement, placement_order, BlockPicker};
use crate::ubi::scan::{
    block_state, classify, lemma_first_used_page_is, page_of, scan_spec, BlockContent, Ebt,
    SCAN_PAGE_CHUNKS,
};
use crate::ubi::ubinize::{
    emit, image_of, layout_vid, lemma_empty_table, lemma_layout_last, table_slots, volume_specs,
    BasicVolume, Ubinizer, Volume, VolumeSpec, UBI_LAYOUT_VOLUME_ID,
};
use crate::util::ReadExt;
use vstd::prelude::*;

verus! {

/// Whether a block of the layout leaves room for payload behind the pages
/// of the two headers, and no more than a header can count.
pub open spec fn leb_geometry(layout: NandLayout) -> bool {
    &&& layout.pages_per_block > 2
    &&& layout.bytes_per_page * (layout.pages_per_block - 2) <= u32::MAX
}

/// The size of a block without the pages of the EC and VID headers.
pub open spec fn eb_size_of(layout: NandLayout) -> u32 {
    (layout.bytes_per_page * (layout.pages_per_block - 2)) as u32
}

/// `data`, which is whole pages, without the erased pages at its end:
/// writing an erased page is a no-op, so these are left out.
pub open spec fn trimmed(data: Seq<u8>, page_size: usize) -> Seq<u8>
    decreases data.len(),
{
    if page_size > 0 && data.len() >= page_size && all_erased(
        data.subrange(data.len() - page_size, data.len() as int),
    ) {
        trimmed(data.take(data.len() - page_size), page_size)
    } else {
        data
    }
}

/// What is programmed, from page 1 on, for a logical block: the page of
/// the VID header, then the payload, in whole pages and without the erased
/// pages at the end.
pub open spec fn leb_image(vid: Vid, payload: Seq<u8>, page_size: usize) -> Seq<u8> {
    patched(trimmed(padded(zeros(page_size as nat) + payload, page_size), page_size), 0, vid.image())
}

/// Whether an entry of the table may have gone from `before` to `after`
/// while an image was written: only an erased block with an EC header
/// changes; it may go bad, be erased again or take data, and its header
/// keeps its layout fields, with the erase counter that it had or, where
/// the block was erased once more, with that counter plus one.
pub open spec fn moved_on(before: BlockContent, after: BlockContent) -> bool {
    after == before || (before matches BlockContent::EcErased(ec) && match after {
        BlockContent::Bad => true,
        BlockContent::EcErased(e) => e.same_layout(ec) && (e.ec == ec.ec || e.ec == ec.ec + 1),
        BlockContent::EcData(e, Some(_)) => e.same_layout(ec) && (e.ec == ec.ec || e.ec == ec.ec
            + 1),
        _ => false,
    })
}

/// Whether the blocks `placed` hold the logical blocks of `image`, each
/// in a block of its own: the table has the VID header of the logical block
/// for each, the flash holds from page 1 on what is programmed for it, and
/// no other block has taken data.
#[verifier::opaque]
pub open spec fn image_placed<N: Nand>(
    before: Seq<BlockContent>,
    after: Seq<BlockContent>,
    nand: &N,
    image: Seq<(Vid, Seq<u8>)>,
    placed: Seq<u32>,
) -> bool {
    let page_size = nand.layout_spec().bytes_per_page;
    &&& placed.len() == image.len()
    &&& forall|k: int|
        0 <= k < placed.len() ==> (#[trigger] placed[k]) < after.len() && holds_leb(
            after[placed[k] as int],
            nand.block_spec(placed[k] as int).contents(),
            page_size,
            image[k],
        )
    &&& forall|k1: int, k2: int|
        0 <= k1 < k2 < placed.len() ==> (#[trigger] placed[k1]) != (#[trigger] placed[k2])
    &&& forall|i: int|
        0 <= i < after.len() && (#[trigger] after[i]) is EcData && !(before[i] is EcData)
            ==> among(placed, i)
}

/// Whether block `i` is one of the blocks `placed`.
pub open spec fn among(placed: Seq<u32>, i: int) -> bool {
    exists|k: int| 0 <= k < placed.len() && #[trigger] placed[k] == i
}

/// Whether a block holds a logical block: its entry in the table has the
/// VID header, and its contents from page 1 on are what is programmed for
/// the logical block.
pub open spec fn holds_leb(
    entry: BlockContent,
    contents: Seq<u8>,
    page_size: usize,
    leb: (Vid, Seq<u8>),
) -> bool {
    &&& entry matches BlockContent::EcData(_, Some(vid)) && vid == leb.0
    &&& window(contents, page_size as int, leb_image(leb.0, leb.1, page_size).len()) == leb_image(
        leb.0,
        leb.1,
        page_size,
    )
}

/// A page that opens with an encoded VID header decodes as that header,
/// and is not erased.
pub proof fn lemma_vid_page(page: Seq<u8>, vid: Vid)
    requires
        page.len() >= UBI_VID_HDR_SIZE,
        page.take(UBI_VID_HDR_SIZE as int) == vid.image(),
    ensures
        Vid::parsed(page) == Some(vid),
        !all_erased(page),
{
    let rest = page.skip(UBI_VID_HDR_SIZE as int);
    assert(page =~= page.take(UBI_VID_HDR_SIZE as int) + rest);
    lemma_vid_decode_encode(vid, rest);
    lemma_vid_opens(vid, rest);
}

/// A buffer that opens with an encoded VID header opens with a byte that
/// is not erased.
proof fn lemma_vid_opens(vid: Vid, rest: Seq<u8>)
    ensures
        (vid.image() + rest).len() > 0,
        (vid.image() + rest)[0] == 0x55u8,
{
    lemma_vid_image(vid, rest);
    assert(window(vid.image() + rest, 0, 4)[0] == (vid.image() + rest)[0]);
}

/// A scan of an erased block with an EC header that took data from page 1
/// on, where page 1 decodes as a VID header, finds a block in use, with
/// both headers.
pub proof fn lemma_classify_written(
    contents: Seq<u8>,
    page_count: u32,
    page_size: usize,
    ec: Ec,
    vid: Vid,
    data: Seq<u8>,
)
    requires
        page_size > 0,
        page_count >= 2,
        contents.len() == page_count * page_size,
        classify(contents, page_count, page_size) == BlockContent::EcErased(ec),
        data.len() >= page_size,
        page_size + data.len() <= contents.len(),
        Vid::parsed(data.take(page_size as int)) == Some(vid),
        !all_erased(data.take(page_size as int)),
    ensures
        classify(patched(contents, page_size as int, data), page_count, page_size)
            == BlockContent::EcData(ec, Some(vid)),
{
    let written = patched(contents, page_size as int, data);
    assert(0 * page_size == 0 && 1 * page_size == page_size) by (nonlinear_arith);
    assert(page_of(written, page_size, 0) =~= page_of(contents, page_size, 0));
    assert(page_of(written, page_size, 1) =~= data.take(page_size as int));
    let limit: int = if page_count < SCAN_PAGE_CHUNKS {
        page_count as int
    } else {
        SCAN_PAGE_CHUNKS as int
    };
    lemma_first_used_page_is(written, page_size, 1, limit, 1);
}

/// Whole pages, more than one, are whole pages still with one page less.
proof fn lemma_page_less(len: int, ps: int)
    requires
        ps > 0,
        len > ps,
        len % ps == 0,
    ensures
        (len - ps) % ps == 0,
        len - ps >= ps,
{
    let q = len / ps;
    assert(len == q * ps) by (nonlinear_arith)
        requires
            q == len / ps,
            len % ps == 0,
            ps > 0,
    ;
    assert(q >= 2) by (nonlinear_arith)
        requires
            len == q * ps,
            len > ps,
            ps > 0,
    ;
    assert(len - ps == (q - 1) * ps) by (nonlinear_arith)
        requires
            len == q * ps,
    ;
    assert(((q - 1) * ps) % ps == 0 && (q - 1) * ps >= ps) by (nonlinear_arith)
        requires
            q >= 2,
            ps > 0,
    ;
}

/// Whole pages that end less than a page behind other whole pages end with
/// them, or before.
proof fn lemma_pages_below(len: int, limit: int, ps: int)
    requires
        ps > 0,
        len >= 0,
        limit >= 0,
        len % ps == 0,
        limit % ps == 0,
        len < limit + ps,
    ensures
        len <= limit,
{
    let q = len / ps;
    let m = limit / ps;
    assert(len == q * ps && limit == m * ps) by (nonlinear_arith)
        requires
            q == len / ps,
            m == limit / ps,
            len % ps == 0,
            limit % ps == 0,
            ps > 0,
    ;
    assert(q <= m) by (nonlinear_arith)
        requires
            q * ps < m * ps + ps,
            ps > 0,
    ;
    assert(q * ps <= m * ps) by (nonlinear_arith)
        requires
            q <= m,
            ps > 0,
    ;
}

/// Make up what is programmed for a logical block whose payload sits in
/// `data` behind one page of room for the header.
fn seal_leb(data: &mut Vec<u8>, vid: Vid, page_size: usize, Ghost(payload): Ghost<Seq<u8>>)
    requires
        page_size >= UBI_VID_HDR_SIZE,
        old(data)@ == zeros(page_size as nat) + payload,
        old(data)@.len() + page_size <= usize::MAX,
    ensures
        final(data)@ == leb_image(vid, payload, page_size),
        final(data)@.len() >= page_size,
        final(data)@.len() % (page_size as nat) == 0,
        final(data)@.len() < old(data)@.len() + page_size,
        final(data)@.take(UBI_VID_HDR_SIZE as int) == vid.image(),
{
    // Prepare the buffer: first, pad it to a multiple of the page size.
    let rest = data.len() % page_size;
    let fill = (page_size - rest) % page_size;
    let size = data.len() + fill;
    let ghost raw = data@;
    assert(size % page_size == 0 && size >= page_size) by (nonlinear_arith)
        requires
            size == raw.len() + (page_size - raw.len() % (page_size as nat)) % (page_size as int),
            raw.len() >= page_size,
            page_size > 0,
    ;
    pad_erased(data, size);
    let ghost full = data@;
    assert(full == padded(raw, page_size));
    // Writing an erased page is a no-op. So, as a simple optimization,
    // strip off any erased pages from the end.
    loop
        invariant
            page_size >= UBI_VID_HDR_SIZE,
            data@.len() % (page_size as nat) == 0,
            data@.len() >= page_size,
            data@.len() <= full.len(),
            data@.take(page_size as int) == zeros(page_size as nat),
            trimmed(data@, page_size) == trimmed(full, page_size),
        ensures
            !all_erased(data@.subrange(data@.len() - page_size, data@.len() as int)),
        decreases data@.len(),
    {
        let minus_last_page = data.len() - page_size;
        let last = vstd::slice::slice_subrange(data.as_slice(), minus_last_page, data.len());
        if last.is_erased() {
            proof {
                assert(last@ =~= data@.subrange(data@.len() - page_size, data@.len() as int));
                if minus_last_page == 0 {
                    assert(last@ =~= data@.take(page_size as int));
                    assert(last@[0] == 0u8);
                    assert(false);
                }
                lemma_page_less(data@.len() as int, page_size as int);
                assert(data@.take(minus_last_page as int).take(page_size as int) =~= data@.take(
                    page_size as int,
                ));
            }
            data.truncate(minus_last_page);
        } else {
            assert(last@ =~= data@.subrange(data@.len() - page_size, data@.len() as int));
            break ;
        }
    }
    // The VID header goes at the front.
    let ghost cut = data@;
    assert(trimmed(cut, page_size) == cut);
    let res = vid.encode(data.as_mut_slice());
    proof {
        lemma_vid_image(vid, Seq::empty());
        assert(data@.take(UBI_VID_HDR_SIZE as int) =~= vid.image());
    }
}

/// Whether block `i` has been kept up with while an image was written:
/// its entry has moved on as it may; a block that was not erased with an EC
/// header is untouched; and on success an entry that showed what was on
/// flash does so again.
#[verifier::opaque]
pub open spec fn kept_up<N: Nand>(
    before: &N,
    after: &N,
    ebt0: Seq<BlockContent>,
    ebt1: Seq<BlockContent>,
    i: int,
    done: bool,
) -> bool {
    &&& moved_on(ebt0[i], ebt1[i])
    &&& !(ebt0[i] is EcErased) ==> ebt1[i] == ebt0[i] && after.block_spec(i) == before.block_spec(i)
    &&& done && block_state(&before.block_spec(i)) == ebt0[i] ==> block_state(&after.block_spec(i))
        == ebt1[i]
}

/// Nothing has happened yet, and so every block has been kept up with.
proof fn lemma_kept_still<N: Nand>(nand: &N, ebt: Seq<BlockContent>)
    ensures
        forall|i: int| 0 <= i < ebt.len() ==> #[trigger] kept_up(nand, nand, ebt, ebt, i, true),
        forall|i: int| 0 <= i < ebt.len() ==> #[trigger] kept_up(nand, nand, ebt, ebt, i, false),
{
    reveal(kept_up);
}

/// A block that is erased with an EC header was so from the start.
proof fn lemma_candidate<N: Nand>(
    before: &N,
    after: &N,
    ebt0: Seq<BlockContent>,
    ebt1: Seq<BlockContent>,
    b: int,
)
    requires
        kept_up(before, after, ebt0, ebt1, b, true),
        ebt1[b] is EcErased,
    ensures
        ebt0[b] is EcErased,
{
    reveal(kept_up);
}

/// What has been kept up with on success has been kept up with in any
/// case.
proof fn lemma_kept_less<N: Nand>(
    before: &N,
    after: &N,
    ebt0: Seq<BlockContent>,
    ebt1: Seq<BlockContent>,
)
    requires
        forall|i: int| 0 <= i < ebt0.len() ==> #[trigger] kept_up(before, after, ebt0, ebt1, i, true),
    ensures
        forall|i: int| 0 <= i < ebt0.len() ==> #[trigger] kept_up(before, after, ebt0, ebt1, i, false),
{
    reveal(kept_up);
    assert forall|i: int| 0 <= i < ebt0.len() implies #[trigger] kept_up(
        before,
        after,
        ebt0,
        ebt1,
        i,
        false,
    ) by {
        assert(kept_up(before, after, ebt0, ebt1, i, true));
    }
}

/// Whether the blocks `order`, which are still to be handed out, are as
/// they were at the start.
#[verifier::opaque]
spec fn in_reserve<N: Nand>(
    start: &N,
    now: &N,
    ebt0: Seq<BlockContent>,
    ebt1: Seq<BlockContent>,
    order: Seq<u32>,
) -> bool {
    forall|i: int|
        0 <= i < ebt0.len() && #[trigger] among(order, i) ==> untouched(start, now, ebt0, ebt1, i)
}

/// Whether only blocks that were handed out have been worked on: `rest`
/// is what is left of `order`, and a block that is not as it was is one of
/// `order` that is not left in `rest`.
#[verifier::opaque]
spec fn worked_on<N: Nand>(
    before: &N,
    after: &N,
    ebt0: Seq<BlockContent>,
    ebt1: Seq<BlockContent>,
    order: Seq<u32>,
    rest: Seq<u32>,
) -> bool {
    &&& exists|n: int| 0 <= n <= order.len() && rest == #[trigger] order.skip(n)
    &&& forall|i: int|
        0 <= i < ebt0.len() ==> #[trigger] untouched(before, after, ebt0, ebt1, i) || (among(order, i)
            && !among(rest, i))
}

/// Where only the first `n` blocks of an order without repetition may
/// have changed, only blocks that were handed out have been worked on.
proof fn lemma_worked_on<N: Nand>(
    before: &N,
    after: &N,
    ebt0: Seq<BlockContent>,
    ebt1: Seq<BlockContent>,
    order: Seq<u32>,
    n: int,
)
    requires
        order.no_duplicates(),
        0 <= n <= order.len(),
        forall|i: int|
            0 <= i < ebt0.len() ==> #[trigger] untouched(before, after, ebt0, ebt1, i) || among(
                order.take(n),
                i,
            ),
    ensures
        worked_on(before, after, ebt0, ebt1, order, order.skip(n)),
{
    reveal(worked_on);
    let rest = order.skip(n);
    assert forall|i: int| 0 <= i < ebt0.len() implies #[trigger] untouched(
        before,
        after,
        ebt0,
        ebt1,
        i,
    ) || (among(order, i) && !among(rest, i)) by {
        if !untouched(before, after, ebt0, ebt1, i) {
            assert(among(order.take(n), i));
            let j = choose|j: int| 0 <= j < order.take(n).len() && #[trigger] order.take(n)[j] == i;
            assert(order[j] == i);
            if among(rest, i) {
                let m = choose|m: int| 0 <= m < rest.len() && #[trigger] rest[m] == i;
                assert(order[n + m] == i);
                assert(order[j] == order[n + m]);
            }
        }
    }
}

/// The work on the next block of an order without repetition: the block
/// was as at the start until then, so that it has been kept up with from the
/// start, and so have all others.
proof fn lemma_kept_step<N: Nand>(
    start: &N,
    before: &N,
    after: &N,
    ebt0: Seq<BlockContent>,
    table: Seq<BlockContent>,
    ebt1: Seq<BlockContent>,
    order: Seq<u32>,
    n: int,
    done: bool,
)
    requires
        ebt0.len() == table.len(),
        table.len() == ebt1.len(),
        order.no_duplicates(),
        0 <= n < order.len(),
        order[n] < ebt0.len(),
        forall|i: int|
            0 <= i < ebt0.len() ==> #[trigger] kept_up(start, before, ebt0, table, i, true),
        forall|i: int|
            0 <= i < ebt0.len() ==> #[trigger] untouched(start, before, ebt0, table, i) || among(
                order.take(n),
                i,
            ),
        kept_up(before, after, table, ebt1, order[n] as int, done),
        forall|i: int|
            0 <= i < ebt0.len() && i != order[n] ==> (#[trigger] ebt1[i]) == table[i]
                && after.block_spec(i) == before.block_spec(i),
    ensures
        forall|i: int| 0 <= i < ebt0.len() ==> #[trigger] kept_up(start, after, ebt0, ebt1, i, done),
        forall|i: int| 0 <= i < ebt0.len() ==> #[trigger] kept_up(start, after, ebt0, ebt1, i, false),
        forall|i: int|
            0 <= i < ebt0.len() ==> #[trigger] untouched(start, after, ebt0, ebt1, i) || among(
                order.take(n + 1),
                i,
            ),
{
    reveal(kept_up);
    let b = order[n] as int;
    assert(untouched(start, before, ebt0, table, b)) by {
        if among(order.take(n), b) {
            let j = choose|j: int| 0 <= j < order.take(n).len() && #[trigger] order.take(n)[j] == b;
            assert(order[j] == order[n]);
        }
    }
    assert forall|i: int| 0 <= i < ebt0.len() implies #[trigger] kept_up(
        start,
        after,
        ebt0,
        ebt1,
        i,
        done,
    ) && kept_up(start, after, ebt0, ebt1, i, false) by {
        assert(kept_up(start, before, ebt0, table, i, true));
        if i != b {
            assert(ebt1[i] == table[i]);
        }
    }
    assert forall|i: int| 0 <= i < ebt0.len() implies #[trigger] untouched(
        start,
        after,
        ebt0,
        ebt1,
        i,
    ) || among(order.take(n + 1), i) by {
        if i == b {
            assert(order.take(n + 1)[n] == i);
        } else {
            assert(ebt1[i] == table[i]);
            if !untouched(start, before, ebt0, table, i) {
                assert(among(order.take(n), i));
                let j = choose|j: int|
                    0 <= j < order.take(n).len() && #[trigger] order.take(n)[j] == i;
                assert(order.take(n + 1)[j] == i);
            }
        }
    }
}

/// A block that was handed out and not worked on leaves all as it was.
proof fn lemma_step_over<N: Nand>(
    start: &N,
    now: &N,
    ebt0: Seq<BlockContent>,
    ebt1: Seq<BlockContent>,
    order: Seq<u32>,
    n: int,
)
    requires
        0 <= n < order.len(),
        forall|i: int|
            0 <= i < ebt0.len() ==> #[trigger] untouched(start, now, ebt0, ebt1, i) || among(
                order.take(n),
                i,
            ),
    ensures
        forall|i: int|
            0 <= i < ebt0.len() ==> #[trigger] untouched(start, now, ebt0, ebt1, i) || among(
                order.take(n + 1),
                i,
            ),
{
    assert forall|i: int| 0 <= i < ebt0.len() implies #[trigger] untouched(
        start,
        now,
        ebt0,
        ebt1,
        i,
    ) || among(order.take(n + 1), i) by {
        if !untouched(start, now, ebt0, ebt1, i) {
            assert(among(order.take(n), i));
            let j = choose|j: int| 0 <= j < order.take(n).len() && #[trigger] order.take(n)[j] == i;
            assert(order.take(n + 1)[j] == i);
        }
    }
}

/// What is left of an order without repetition has none, and holds only
/// blocks of that order.
proof fn lemma_rest(order: Seq<u32>, n: int)
    requires
        order.no_duplicates(),
        0 <= n <= order.len(),
    ensures
        order.skip(n).no_duplicates(),
        forall|i: int| #[trigger] among(order.skip(n), i) ==> among(order, i),
{
    let rest = order.skip(n);
    assert forall|m1: int, m2: int|
        0 <= m1 < rest.len() && 0 <= m2 < rest.len() && m1 != m2 implies rest[m1] != rest[m2] by {
        assert(rest[m1] == order[n + m1]);
        assert(rest[m2] == order[n + m2]);
    }
    assert forall|i: int| #[trigger] among(rest, i) implies among(order, i) by {
        let m = choose|m: int| 0 <= m < rest.len() && #[trigger] rest[m] == i;
        assert(order[n + m] == i);
    }
}

/// The blocks that are left after one more logical block was written are
/// as at the start still.
proof fn lemma_reserve_left<N: Nand>(
    start: &N,
    before: &N,
    after: &N,
    ebt0: Seq<BlockContent>,
    table: Seq<BlockContent>,
    ebt1: Seq<BlockContent>,
    order: Seq<u32>,
    rest: Seq<u32>,
)
    requires
        ebt0.len() == table.len(),
        table.len() == ebt1.len(),
        order.no_duplicates(),
        in_reserve(start, before, ebt0, table, order),
        worked_on(before, after, table, ebt1, order, rest),
    ensures
        in_reserve(start, after, ebt0, ebt1, rest),
        rest.no_duplicates(),
{
    reveal(in_reserve);
    reveal(worked_on);
    let n = choose|n: int| 0 <= n <= order.len() && rest == #[trigger] order.skip(n);
    lemma_rest(order, n);
    assert forall|i: int| 0 <= i < ebt0.len() && #[trigger] among(rest, i) implies untouched(
        start,
        after,
        ebt0,
        ebt1,
        i,
    ) by {
        assert(among(order, i));
        assert(untouched(before, after, table, ebt1, i));
        assert(untouched(start, before, ebt0, table, i));
    }
}

/// The writing of one more logical block works only on blocks that were
/// as at the start until then, so that every block has been kept up with
/// from the start.
proof fn lemma_kept_round<N: Nand>(
    start: &N,
    before: &N,
    after: &N,
    ebt0: Seq<BlockContent>,
    table: Seq<BlockContent>,
    ebt1: Seq<BlockContent>,
    order: Seq<u32>,
    rest: Seq<u32>,
    done: bool,
)
    requires
        ebt0.len() == table.len(),
        table.len() == ebt1.len(),
        forall|i: int|
            0 <= i < ebt0.len() ==> #[trigger] kept_up(start, before, ebt0, table, i, true),
        forall|i: int| 0 <= i < ebt0.len() ==> #[trigger] kept_up(before, after, table, ebt1, i, done),
        in_reserve(start, before, ebt0, table, order),
        worked_on(before, after, table, ebt1, order, rest),
    ensures
        forall|i: int| 0 <= i < ebt0.len() ==> #[trigger] kept_up(start, after, ebt0, ebt1, i, done),
        forall|i: int| 0 <= i < ebt0.len() ==> #[trigger] kept_up(start, after, ebt0, ebt1, i, false),
{
    assert forall|i: int| 0 <= i < ebt0.len() implies #[trigger] kept_up(
        start,
        after,
        ebt0,
        ebt1,
        i,
        done,
    ) by {
        lemma_round_one(start, before, after, ebt0, table, ebt1, order, rest, i, done);
    }
    assert forall|i: int| 0 <= i < ebt0.len() implies #[trigger] kept_up(
        start,
        after,
        ebt0,
        ebt1,
        i,
        false,
    ) by {
        lemma_round_one(start, before, after, ebt0, table, ebt1, order, rest, i, done);
    }
}

/// The same of one block.
proof fn lemma_round_one<N: Nand>(
    start: &N,
    before: &N,
    after: &N,
    ebt0: Seq<BlockContent>,
    table: Seq<BlockContent>,
    ebt1: Seq<BlockContent>,
    order: Seq<u32>,
    rest: Seq<u32>,
    i: int,
    done: bool,
)
    requires
        ebt0.len() == table.len(),
        table.len() == ebt1.len(),
        0 <= i < ebt0.len(),
        kept_up(start, before, ebt0, table, i, true),
        kept_up(before, after, table, ebt1, i, done),
        in_reserve(start, before, ebt0, table, order),
        worked_on(before, after, table, ebt1, order, rest),
    ensures
        kept_up(start, after, ebt0, ebt1, i, done),
        kept_up(start, after, ebt0, ebt1, i, false),
{
    assert(untouched(start, before, ebt0, table, i) || untouched(before, after, table, ebt1, i)) by {
        reveal(in_reserve);
        reveal(worked_on);
        if !untouched(before, after, table, ebt1, i) {
            assert(among(order, i));
        }
    }
    lemma_kept_either(start, before, after, ebt0, table, ebt1, i, done);
}

/// A block that was worked on either before or after some point has been
/// kept up with over both times.
proof fn lemma_kept_either<N: Nand>(
    start: &N,
    before: &N,
    after: &N,
    ebt0: Seq<BlockContent>,
    table: Seq<BlockContent>,
    ebt1: Seq<BlockContent>,
    i: int,
    done: bool,
)
    requires
        kept_up(start, before, ebt0, table, i, true),
        kept_up(before, after, table, ebt1, i, done),
        untouched(start, before, ebt0, table, i) || untouched(before, after, table, ebt1, i),
    ensures
        kept_up(start, after, ebt0, ebt1, i, done),
        kept_up(start, after, ebt0, ebt1, i, false),
{
    reveal(kept_up);
}

/// At the start all blocks are in reserve.
proof fn lemma_reserve_start<N: Nand>(nand: &N, ebt: Seq<BlockContent>, order: Seq<u32>)
    ensures
        in_reserve(nand, nand, ebt, ebt, order),
{
    reveal(in_reserve);
}

/// What is asked of the image of a logical block and of the blocks that
/// it may go to: the image is whole pages that open with the VID header, and
/// fits a block behind the page of the EC header.
#[verifier::opaque]
pub open spec fn leb_fits(layout: NandLayout, data: Seq<u8>, vid: Vid) -> bool {
    &&& layout.bytes_per_page >= UBI_VID_HDR_SIZE
    &&& layout.pages_per_block >= 2
    &&& data.len() >= layout.bytes_per_page
    &&& data.len() % (layout.bytes_per_page as nat) == 0
    &&& layout.bytes_per_page + data.len() <= layout.block_len()
    &&& data.take(UBI_VID_HDR_SIZE as int) == vid.image()
}

/// Whether a block is one that a logical block can be written to: the
/// table has it as erased with an EC header whose erase counter has room
/// for an erase, and that is what is on flash.
pub open spec fn candidate<N: Nand>(nand: &N, ebt: Seq<BlockContent>, block: int) -> bool {
    &&& 0 <= block < ebt.len()
    &&& ebt[block] matches BlockContent::EcErased(ec) && ec.ec < u64::MAX
    &&& block_state(&nand.block_spec(block)) == ebt[block]
}

/// Try to write the image of a logical block to block `block_id`, which
/// the table has as erased with the EC header `ec`. `Ok(false)` where the
/// block did not take it and another is to be tried.
///
/// A block that cannot be had is left to be bad. A block that refuses the
/// data is erased, which adds one to its erase counter, and tried once
/// more; if it refuses again, it is marked bad.
fn try_block<N: Nand>(
    nand: &mut N,
    ebt: &mut Ebt,
    block_id: u32,
    ec: Ec,
    data: &[u8],
    vid: Vid,
) -> (r: Result<bool, Error>)
    requires
        valid_nand(old(nand)),
        old(ebt)@.len() == old(nand).layout_spec().blocks,
        block_id < old(ebt)@.len(),
        old(ebt)@[block_id as int] == BlockContent::EcErased(ec),
        leb_fits(old(nand).layout_spec(), data@, vid),
    ensures
        valid_nand(final(nand)),
        final(nand).layout_spec() == old(nand).layout_spec(),
        final(nand).reliable() == old(nand).reliable(),
        final(ebt)@.len() == old(ebt)@.len(),
        forall|i: int|
            0 <= i < old(ebt)@.len() && i != block_id ==> (#[trigger] final(ebt)@[i]) == old(ebt)@[i]
                && final(nand).block_spec(i) == old(nand).block_spec(i),
        kept_up(old(nand), final(nand), old(ebt)@, final(ebt)@, block_id as int, r is Ok),
        r == Ok::<bool, Error>(true) ==> {
            &&& final(ebt)@[block_id as int] matches BlockContent::EcData(_, Some(v)) && v == vid
            &&& window(
                final(nand).block_spec(block_id as int).contents(),
                old(nand).layout_spec().bytes_per_page as int,
                data@.len(),
            ) == data@
        },
        r != Ok::<bool, Error>(true) ==> !(final(ebt)@[block_id as int] is EcData),
        old(nand).reliable() && candidate(old(nand), old(ebt)@, block_id as int) ==> r
            == Ok::<bool, Error>(true),
{
    let ghost b = block_id as int;
    proof {
        reveal(kept_up);
        reveal(leb_fits);
        nand_facts(&*nand, b);
    }
    // Try to write the block; if that fails, erase it and try again.
    match nand.block(block_id) {
        Err(e) => {
            return Err(e);
        },
        Ok(None) => {
            // Guess it went bad? Try another...
            ebt.set(block_id as usize, BlockContent::Bad);
            return Ok(false);
        },
        Ok(Some(block)) => {
            let ghost held = *block;
            if block.program(1, data).is_ok() {
                // Success! This logical block is done.
                proof {
                    lemma_written(&held, &*block, ec, vid, data@);
                }
                ebt.set(block_id as usize, BlockContent::EcData(ec, Some(vid)));
                return Ok(true);
            }
            if ec.ec == u64::MAX {
                return Err(Error::Internal);
            }
            // Erase the block before trying again.
            let ghost refused = *block;
            let mut content = BlockContent::EcErased(ec);
            let action = FormatAction::Erase(ec.inc_ec());
            let res = action.execute(block, &mut content);
            proof {
                assert(!refused.marked_bad());
                if res is Ok {
                    lemma_settled(action, &refused, &*block, content);
                    if content is EcErased {
                        lemma_erased_behind(&refused, &*block, action, content, data@);
                    }
                }
            }
            ebt.set(block_id as usize, content);
            match res {
                Err(e) => {
                    return Err(e);
                },
                Ok(()) => {},
            }
        },
    }
    proof {
        nand_facts(&*nand, b);
    }
    // Get the block back, unless it has been marked bad when it was to be
    // erased.
    let erased_ec = match ebt[block_id as usize] {
        BlockContent::EcErased(ec) => ec,
        _ => {
            return Ok(false);
        },
    };
    match nand.block(block_id) {
        Err(e) => {
            return Err(e);
        },
        Ok(None) => {
            return Ok(false);
        },
        Ok(Some(block)) => {
            let ghost held = *block;
            if block.program(1, data).is_ok() {
                proof {
                    lemma_written(&held, &*block, erased_ec, vid, data@);
                }
                ebt.set(block_id as usize, BlockContent::EcData(erased_ec, Some(vid)));
                return Ok(true);
            }
            // The block just doesn't want to be written; it's bad.
            match block.mark_bad() {
                Err(e) => {
                    return Err(e);
                },
                Ok(()) => {},
            }
        },
    }
    ebt.set(block_id as usize, BlockContent::Bad);
    Ok(false)
}

/// A block that was erased and got an EC header takes whole pages that
/// fit it from page 1 on.
proof fn lemma_erased_behind<B: NandBlock>(
    before: &B,
    after: &B,
    action: FormatAction,
    recorded: BlockContent,
    data: Seq<u8>,
)
    requires
        valid_block(before),
        valid_block(after),
        after.page_count_spec() == before.page_count_spec(),
        after.page_size_spec() == before.page_size_spec(),
        action is Erase,
        recorded is EcErased,
        crate::ubi::format::written_as(
            action,
            before.contents(),
            before.page_size_spec(),
            before.marked_bad(),
            recorded,
            after.contents(),
            after.marked_bad(),
        ),
        data.len() % (before.page_size_spec() as nat) == 0,
        before.page_size_spec() + data.len() <= before.contents().len(),
    ensures
        crate::nand::programmable(
            after.page_count_spec(),
            after.page_size_spec(),
            after.contents(),
            1,
            data.len(),
        ),
{
    reveal(crate::ubi::format::formatted_block);
    reveal(crate::ubi::format::ec_page);
    let ps = before.page_size_spec();
    let pc = before.page_count_spec();
    crate::ubi::headers::lemma_ec_image(recorded->EcErased_0, Seq::empty());
    assert(1 * ps == ps) by (nonlinear_arith);
    assert(1 + data.len() / (ps as nat) <= pc) by (nonlinear_arith)
        requires
            data.len() % (ps as nat) == 0,
            ps + data.len() <= pc * ps,
            ps > 0,
    ;
}

/// A block that took the image of a logical block from page 1 on holds it
/// there; if a scan found it erased with the EC header `ec` before, a scan
/// finds it in use with both headers now.
proof fn lemma_written<B: NandBlock>(before: &B, after: &B, ec: Ec, vid: Vid, data: Seq<u8>)
    requires
        valid_block(before),
        valid_block(after),
        after.page_count_spec() == before.page_count_spec(),
        after.page_size_spec() == before.page_size_spec(),
        after.marked_bad() == before.marked_bad(),
        !before.marked_bad(),
        before.page_size_spec() >= UBI_VID_HDR_SIZE,
        before.page_count_spec() >= 2,
        data.len() >= before.page_size_spec(),
        data.take(UBI_VID_HDR_SIZE as int) == vid.image(),
        pages_in_range(before.page_count_spec(), before.page_size_spec(), 1, data.len()),
        after.contents() == patched(before.contents(), 1 * before.page_size_spec(), data),
    ensures
        window(after.contents(), before.page_size_spec() as int, data.len()) == data,
        block_state(before) == BlockContent::EcErased(ec) ==> block_state(after)
            == BlockContent::EcData(ec, Some(vid)),
{
    let ps = before.page_size_spec();
    let pc = before.page_count_spec();
    assert(1 * ps == ps) by (nonlinear_arith);
    assert(ps + data.len() <= pc * ps) by (nonlinear_arith)
        requires
            data.len() % (ps as nat) == 0,
            1 + data.len() / (ps as nat) <= pc,
            ps > 0,
    ;
    assert(window(after.contents(), ps as int, data.len()) =~= data);
    if block_state(before) == BlockContent::EcErased(ec) {
        assert(data.take(ps as int).take(UBI_VID_HDR_SIZE as int) =~= data.take(
            UBI_VID_HDR_SIZE as int,
        ));
        lemma_vid_page(data.take(ps as int), vid);
        lemma_classify_written(before.contents(), pc, ps, ec, vid, data);
    }
}

/// The blocks that logical blocks are written to, in the order in which
/// they are taken: the erased blocks of the table that carry an EC header,
/// as their erase counters place them.
pub open spec fn candidates(ebt: Seq<BlockContent>) -> Seq<u32> {
    placement_order(buckets_of(ebt, ebt.len()))
}

/// Whether nothing but a lack of blocks can keep the volumes from being
/// written: the device and the sources of the images are reliable, the
/// table shows what is on flash, a page holds a VID header, no erase
/// counter is at its maximum, and the blocks of the image can be counted.
#[verifier::opaque]
pub open spec fn certain<N: Nand, R: ReadExt>(
    nand: &N,
    ebt: Seq<BlockContent>,
    volumes: Seq<BasicVolume<R>>,
) -> bool {
    let eb_size = eb_size_of(nand.layout_spec());
    &&& nand.reliable()
    &&& ebt == scan_spec(nand)
    &&& counters_fit(ebt)
    &&& nand.layout_spec().bytes_per_page >= UBI_VID_HDR_SIZE
    &&& image_of(volume_specs(volumes), eb_size).len() <= u64::MAX
    &&& forall|i: int|
        0 <= i < volumes.len() ==> (#[trigger] volumes[i]).unfailing() && volumes[i]@.countable(
            eb_size,
        )
}

/// Whether the writing is on course on a reliable device: the first `k`
/// candidates hold the logical blocks so far, and the others are as they
/// were.
#[verifier::opaque]
pub open spec fn on_course<N: Nand>(
    nand: &N,
    ebt: Seq<BlockContent>,
    cand: Seq<u32>,
    k: int,
    placed: Seq<u32>,
) -> bool {
    &&& 0 <= k <= cand.len()
    &&& placed == cand.take(k)
    &&& cand.no_duplicates()
    &&& forall|j: int| k <= j < cand.len() ==> candidate(nand, ebt, (#[trigger] cand[j]) as int)
}

/// At the start every candidate is one.
proof fn lemma_course_start<N: Nand>(nand: &N, ebt: Seq<BlockContent>)
    requires
        ebt.len() <= u32::MAX,
        ebt == scan_spec(nand),
        counters_fit(ebt),
    ensures
        on_course(nand, ebt, candidates(ebt), 0, Seq::empty()),
{
    reveal(on_course);
    lemma_placement(ebt);
    let cand = candidates(ebt);
    assert(cand.take(0) =~= Seq::<u32>::empty());
    assert forall|j: int| 0 <= j < cand.len() implies candidate(
        nand,
        ebt,
        (#[trigger] cand[j]) as int,
    ) by {
        assert(ebt[cand[j] as int].ec_of() is Some);
    }
}

/// The next candidate is one.
proof fn lemma_course_head<N: Nand>(
    nand: &N,
    ebt: Seq<BlockContent>,
    cand: Seq<u32>,
    k: int,
    placed: Seq<u32>,
)
    requires
        on_course(nand, ebt, cand, k, placed),
    ensures
        0 <= k <= cand.len(),
        k < cand.len() ==> candidate(nand, ebt, cand[k] as int) && cand.skip(k)[0] == cand[k],
{
    reveal(on_course);
}

/// As many logical blocks have been written as candidates have been used.
proof fn lemma_course_done<N: Nand>(
    nand: &N,
    ebt: Seq<BlockContent>,
    cand: Seq<u32>,
    k: int,
    placed: Seq<u32>,
)
    requires
        on_course(nand, ebt, cand, k, placed),
    ensures
        0 <= k <= cand.len(),
        placed == cand.take(k),
{
    reveal(on_course);
}

/// When the next candidate has taken a logical block and nothing else has
/// changed, the writing is on course still.
proof fn lemma_course_next<N: Nand>(
    before: &N,
    after: &N,
    table: Seq<BlockContent>,
    ebt1: Seq<BlockContent>,
    cand: Seq<u32>,
    k: int,
    placed: Seq<u32>,
)
    requires
        on_course(before, table, cand, k, placed),
        k < cand.len(),
        table.len() == ebt1.len(),
        forall|i: int|
            0 <= i < table.len() && i != cand[k] ==> (#[trigger] ebt1[i]) == table[i]
                && after.block_spec(i) == before.block_spec(i),
    ensures
        on_course(after, ebt1, cand, k + 1, placed.push(cand[k])),
{
    reveal(on_course);
    assert(cand.take(k + 1) =~= cand.take(k).push(cand[k]));
    assert forall|j: int| k + 1 <= j < cand.len() implies candidate(
        after,
        ebt1,
        (#[trigger] cand[j]) as int,
    ) by {
        assert(candidate(before, table, cand[j] as int));
        assert(cand[j] != cand[k]);
        assert(ebt1[cand[j] as int] == table[cand[j] as int]);
    }
}

/// Find a block for the logical block whose image is `data`, and write it
/// there. The blocks are tried in the order in which `picker` hands them
/// out. The result is the block that took the data.
fn place_leb<N: Nand>(
    nand: &mut N,
    ebt: &mut Ebt,
    picker: &mut BlockPicker,
    data: &[u8],
    vid: Vid,
) -> (r: Result<u32, Error>)
    requires
        valid_nand(old(nand)),
        old(picker).wf(),
        old(picker).order().no_duplicates(),
        old(ebt)@.len() == old(nand).layout_spec().blocks,
        leb_fits(old(nand).layout_spec(), data@, vid),
    ensures
        valid_nand(final(nand)),
        final(nand).layout_spec() == old(nand).layout_spec(),
        final(nand).reliable() == old(nand).reliable(),
        final(picker).wf(),
        final(ebt)@.len() == old(ebt)@.len(),
        forall|i: int|
            0 <= i < old(ebt)@.len() ==> #[trigger] kept_up(
                old(nand),
                final(nand),
                old(ebt)@,
                final(ebt)@,
                i,
                r is Ok,
            ),
        worked_on(
            old(nand),
            final(nand),
            old(ebt)@,
            final(ebt)@,
            old(picker).order(),
            final(picker).order(),
        ),
        r matches Ok(block) ==> {
            &&& block < old(ebt)@.len()
            &&& old(ebt)@[block as int] is EcErased
            &&& final(ebt)@[block as int] matches BlockContent::EcData(_, Some(v)) && v == vid
            &&& window(
                final(nand).block_spec(block as int).contents(),
                old(nand).layout_spec().bytes_per_page as int,
                data@.len(),
            ) == data@
            &&& forall|i: int|
                0 <= i < old(ebt)@.len() && i != block && (#[trigger] final(ebt)@[i]) is EcData
                    ==> old(ebt)@[i] is EcData
        },
        r is Err ==> forall|i: int|
            0 <= i < old(ebt)@.len() && (#[trigger] final(ebt)@[i]) is EcData ==> old(ebt)@[i]
                is EcData,
        old(picker).order().len() == 0 ==> r == Err::<u32, Error>(Error::FlashFull),
        old(nand).reliable() && old(picker).order().len() > 0 && candidate(
            old(nand),
            old(ebt)@,
            old(picker).order()[0] as int,
        ) ==> {
            &&& r == Ok::<u32, Error>(old(picker).order()[0])
            &&& final(picker).order() == old(picker).order().drop_first()
            &&& forall|i: int|
                0 <= i < old(ebt)@.len() && i != old(picker).order()[0] ==> (
                #[trigger] final(ebt)@[i]) == old(ebt)@[i] && final(nand).block_spec(i) == old(
                    nand,
                ).block_spec(i)
        },
{
    let ghost ebt0 = ebt@;
    let ghost order0 = picker.order();
    let ghost mut n: int = 0;
    let ghost sure = old(nand).reliable() && old(picker).order().len() > 0 && candidate(
        old(nand),
        old(ebt)@,
        old(picker).order()[0] as int,
    );
    proof {
        lemma_kept_still(&*nand, ebt0);
        assert(order0.skip(0) =~= order0);
    }
    loop
        invariant
            order0 == old(picker).order(),
            order0.no_duplicates(),
            0 <= n <= order0.len(),
            picker.order() == order0.skip(n),
            forall|i: int|
                0 <= i < ebt0.len() ==> #[trigger] untouched(old(nand), &*nand, ebt0, ebt@, i)
                    || among(order0.take(n), i),
            sure == (old(nand).reliable() && old(picker).order().len() > 0 && candidate(
                old(nand),
                old(ebt)@,
                old(picker).order()[0] as int,
            )),
            sure ==> picker.order() == old(picker).order() && ebt@ == ebt0 && forall|i: int|
                0 <= i < ebt0.len() ==> #[trigger] nand.block_spec(i) == old(nand).block_spec(i),
            valid_nand(&*nand),
            nand.layout_spec() == old(nand).layout_spec(),
            nand.reliable() == old(nand).reliable(),
            picker.wf(),
            ebt0 == old(ebt)@,
            ebt@.len() == ebt0.len(),
            ebt@.len() == nand.layout_spec().blocks,
            leb_fits(nand.layout_spec(), data@, vid),
            forall|i: int|
                0 <= i < ebt0.len() ==> #[trigger] kept_up(old(nand), &*nand, ebt0, ebt@, i, true),
            forall|i: int|
                0 <= i < ebt0.len() && (#[trigger] ebt@[i]) is EcData ==> ebt0[i] is EcData,
            picker.order().len() > 0 ==> old(picker).order().len() > 0,
        decreases picker.order().len(),
    {
        // Select the physical block to write into.
        proof {
            lemma_kept_less(old(nand), &*nand, ebt0, ebt@);
        }
        let block_id = match picker.next_block() {
            Some(block_id) => block_id,
            None => {
                proof {
                    assert(picker.order() =~= order0.skip(n));
                    lemma_worked_on(old(nand), &*nand, ebt0, ebt@, order0, n);
                }
                return Err(Error::FlashFull);
            },
        };
        proof {
            assert(order0.skip(n)[0] == order0[n]);
            assert(order0.skip(n).drop_first() =~= order0.skip(n + 1));
        }
        if block_id as usize >= ebt.len() {
            proof {
                lemma_step_over(old(nand), &*nand, ebt0, ebt@, order0, n);
                lemma_worked_on(old(nand), &*nand, ebt0, ebt@, order0, n + 1);
            }
            return Err(Error::Internal);
        }
        let ec = match ebt[block_id as usize] {
            BlockContent::EcErased(ec) => ec,
            _ => {
                proof {
                    lemma_step_over(old(nand), &*nand, ebt0, ebt@, order0, n);
                    lemma_worked_on(old(nand), &*nand, ebt0, ebt@, order0, n + 1);
                }
                return Err(Error::Internal);
            },
        };
        let ghost before = *nand;
        let ghost table = ebt@;
        proof {
            if sure {
                assert(block_id == old(picker).order()[0]);
                assert(before.block_spec(block_id as int) == old(nand).block_spec(block_id as int));
                assert(candidate(&before, table, block_id as int));
            }
        }
        let res = try_block(nand, ebt, block_id, ec, data, vid);
        proof {
            lemma_candidate(old(nand), &before, ebt0, table, block_id as int);
            lemma_kept_step(old(nand), &before, &*nand, ebt0, table, ebt@, order0, n, res is Ok);
            n = n + 1;
            lemma_worked_on(old(nand), &*nand, ebt0, ebt@, order0, n);
            if sure {
                assert(res == Ok::<bool, Error>(true));
                assert(picker.order() == old(picker).order().drop_first());
                assert forall|i: int| 0 <= i < ebt0.len() && i != block_id implies (
                #[trigger] ebt@[i]) == ebt0[i] && nand.block_spec(i) == old(nand).block_spec(i) by {
                    assert(ebt@[i] == table[i]);
                    assert(before.block_spec(i) == old(nand).block_spec(i));
                }
            }
            assert forall|i: int|
                0 <= i < ebt0.len() && i != block_id && (#[trigger] ebt@[i]) is EcData implies ebt0[i]
                is EcData by {
                assert(ebt@[i] == table[i]);
            }
        }
        match res {
            Err(e) => {
                return Err(e);
            },
            Ok(true) => {
                return Ok(block_id);
            },
            Ok(false) => {},
        }
    }
}

/// Write UBI volumes to the flash device: each logical block of the image
/// that the volumes make, with the layout volume last, goes to an erased
/// block of its own, which the erase counters choose.
///
/// The table follows what is done to the flash. On success every logical
/// block of the image is in a block of the table, with its VID header
/// recorded there, and the table shows what is on flash wherever it did
/// before.
///
/// Fails with `FlashFull` where the erased blocks run out, with `BadInput`
/// where a page is too small to hold a VID header, with `Internal` where
/// the table and the device disagree or a counter overflows, and with the
/// device's or the image source's error where one of these fails.
pub fn write_volumes<N: Nand, R: ReadExt>(
    nand: &mut N,
    ebt: &mut Ebt,
    volumes: Vec<BasicVolume<R>>,
) -> (r: Result<(), Error>)
    requires
        valid_nand(old(nand)),
        old(ebt)@.len() == old(nand).layout_spec().blocks,
        leb_geometry(old(nand).layout_spec()),
        volumes@.len() <= table_slots(eb_size_of(old(nand).layout_spec())),
        forall|i: int|
            0 <= i < volumes@.len() ==> (#[trigger] volumes@[i]).fits_spec(
                eb_size_of(old(nand).layout_spec()),
            ),
    ensures
        valid_nand(final(nand)),
        final(nand).layout_spec() == old(nand).layout_spec(),
        final(nand).reliable() == old(nand).reliable(),
        final(ebt)@.len() == old(ebt)@.len(),
        forall|i: int|
            0 <= i < old(ebt)@.len() ==> #[trigger] kept_up(
                old(nand),
                final(nand),
                old(ebt)@,
                final(ebt)@,
                i,
                r is Ok,
            ),
        r is Ok ==> exists|placed: Seq<u32>|
            #[trigger] image_placed(
                old(ebt)@,
                final(ebt)@,
                final(nand),
                image_of(volume_specs(volumes@), eb_size_of(old(nand).layout_spec())),
                placed,
            ),
        old(nand).layout_spec().bytes_per_page < UBI_VID_HDR_SIZE ==> r == Err::<(), Error>(
            Error::BadInput,
        ),
        certain(old(nand), old(ebt)@, volumes@) ==> {
            &&& r is Ok <==> image_of(
                volume_specs(volumes@),
                eb_size_of(old(nand).layout_spec()),
            ).len() <= candidates(old(ebt)@).len()
            &&& r is Err ==> r == Err::<(), Error>(Error::FlashFull)
            &&& r is Ok ==> image_placed(
                old(ebt)@,
                final(ebt)@,
                final(nand),
                image_of(volume_specs(volumes@), eb_size_of(old(nand).layout_spec())),
                candidates(old(ebt)@).take(
                    image_of(
                        volume_specs(volumes@),
                        eb_size_of(old(nand).layout_spec()),
                    ).len() as int,
                ),
            )
        },
{
    // Compute the EB size. This is the full block size, minus the first 2
    // pages (for EC and VID).
    let layout = nand.get_layout();
    let ghost sure = certain(old(nand), old(ebt)@, volumes@);
    let ghost cand = candidates(old(ebt)@);
    proof {
        lemma_kept_still(&*nand, ebt@);
        lemma_placement(ebt@);
        if sure {
            reveal(certain);
            lemma_course_start(&*nand, ebt@);
        }
    }
    if layout.bytes_per_page < UBI_VID_HDR_SIZE {
        return Err(Error::BadInput);
    }
    let vid_size = layout.bytes_per_page;
    let eb_size: u32 = (layout.bytes_per_page * (layout.pages_per_block - 2) as usize) as u32;

    // Sort the erased blocks of the table by a percentile of the erase
    // counters.
    let mut picker = BlockPicker::new(ebt.as_slice());

    // Begin ubinizing volumes.
    let ghost specs = volume_specs(volumes@);
    let ghost image = image_of(specs, eb_size);
    let mut ubinizer = Ubinizer::new(volumes, eb_size);
    let ghost blocks = ubinizer.rest();
    let mut data: Vec<u8> = Vec::new();
    push_zeros(&mut data, vid_size);
    let ghost ebt0 = ebt@;
    let ghost mut placed: Seq<u32> = Seq::empty();
    let ghost mut k: int = 0;
    proof {
        assert(blocks.skip(0) =~= blocks);
        assert(data@ =~= zeros(vid_size as nat));
        assert(image.take(0) =~= Seq::empty());
        assert(layout.bytes_per_page * (layout.pages_per_block - 2) + 2 * layout.bytes_per_page
            == layout.pages_per_block * layout.bytes_per_page) by (nonlinear_arith);
        lemma_kept_still(&*nand, ebt0);
        lemma_reserve_start(&*nand, ebt0, picker.order());
        reveal(image_placed);
        assert(image_placed(ebt0, ebt0, &*nand, image.take(0), placed));
        assert(cand.skip(0) =~= cand);
        assert(cand.take(0) =~= placed);
        if sure {
            reveal(certain);
        }
    }
    // Iterate over all logical blocks provided by the ubinizer.
    loop
        invariant
            valid_nand(&*nand),
            nand.layout_spec() == old(nand).layout_spec(),
            nand.reliable() == old(nand).reliable(),
            layout == nand.layout_spec(),
            layout.wf(),
            layout.pages_per_block > 2,
            vid_size == layout.bytes_per_page,
            vid_size >= UBI_VID_HDR_SIZE,
            eb_size + 2 * vid_size == layout.block_len(),
            eb_size + 2 * vid_size == layout.pages_per_block * vid_size,
            picker.wf(),
            ubinizer.wf(),
            ubinizer.eb_size_spec() == eb_size,
            ebt0 == old(ebt)@,
            ebt@.len() == ebt0.len(),
            ebt@.len() == layout.blocks,
            image == image_of(volume_specs(volumes@), eb_size_of(old(nand).layout_spec())),
            image.len() == blocks.len(),
            forall|j: int|
                0 <= j < blocks.len() ==> (#[trigger] image[j]).0 == blocks[j].0.with_sqnum(
                    (j + 1) as u64,
                ) && image[j].1 == blocks[j].1,
            0 <= k <= blocks.len(),
            ubinizer.rest() == blocks.skip(k),
            ubinizer.sqnum_spec() == k,
            data@ == zeros(vid_size as nat),
            forall|i: int|
                0 <= i < ebt0.len() ==> #[trigger] kept_up(old(nand), &*nand, ebt0, ebt@, i, true),
            image_placed(ebt0, ebt@, &*nand, image.take(k), placed),
            picker.order().no_duplicates(),
            in_reserve(old(nand), &*nand, ebt0, ebt@, picker.order()),
            sure == certain(old(nand), old(ebt)@, volumes@),
            cand == candidates(old(ebt)@),
            sure ==> {
                &&& nand.reliable()
                &&& ubinizer.unfailing()
                &&& ubinizer.countable()
                &&& picker.order() == cand.skip(k)
                &&& on_course(&*nand, ebt@, cand, k, placed)
            },
        decreases blocks.len() - k,
    {
        proof {
            lemma_kept_less(old(nand), &*nand, ebt0, ebt@);
        }
        let vid = match ubinizer.next_block(&mut data) {
            Err(e) => {
                return Err(e);
            },
            Ok(None) => {
                proof {
                    assert(image.take(k) =~= image);
                    if sure {
                        lemma_course_done(&*nand, ebt@, cand, k, placed);
                    }
                }
                return Ok(());
            },
            Ok(Some(vid)) => vid,
        };
        let ghost payload = blocks[k].1;
        proof {
            assert(blocks.skip(k)[0] == blocks[k]);
            assert(blocks.skip(k).drop_first() =~= blocks.skip(k + 1));
            assert(vid == image[k].0);
        }
        seal_leb(&mut data, vid, vid_size, Ghost(payload));
        proof {
            assert((vid_size + eb_size) % (vid_size as int) == 0) by (nonlinear_arith)
                requires
                    eb_size + 2 * vid_size == layout.pages_per_block * vid_size,
                    vid_size > 0,
                    layout.pages_per_block > 2,
            ;
            lemma_pages_below(data@.len() as int, vid_size + eb_size, vid_size as int);
            reveal(leb_fits);
            assert(leb_fits(layout, data@, vid));
        }
        let ghost before = *nand;
        let ghost table = ebt@;
        let ghost order = picker.order();
        proof {
            if sure {
                lemma_course_head(&before, table, cand, k, placed);
            }
        }
        let res = place_leb(nand, ebt, &mut picker, data.as_slice(), vid);
        proof {
            lemma_kept_round(
                old(nand),
                &before,
                &*nand,
                ebt0,
                table,
                ebt@,
                order,
                picker.order(),
                res is Ok,
            );
            lemma_reserve_left(old(nand), &before, &*nand, ebt0, table, ebt@, order, picker.order());
        }
        let block = match res {
            Err(e) => {
                return Err(e);
            },
            Ok(block) => block,
        };
        proof {
            lemma_placed_more(&before, &*nand, ebt0, table, ebt@, image, k, placed, block);
            if sure {
                lemma_course_next(&before, &*nand, table, ebt@, cand, k, placed);
                assert(cand.skip(k).drop_first() =~= cand.skip(k + 1));
            }
            placed = placed.push(block);
            k = k + 1;
        }
        data.clear();
        push_zeros(&mut data, vid_size);
        assert(data@ =~= zeros(vid_size as nat));
    }
}

/// A block that was erased and now holds the next logical block joins the
/// blocks that hold the image so far.
proof fn lemma_placed_more<N: Nand>(
    before: &N,
    after: &N,
    ebt0: Seq<BlockContent>,
    table: Seq<BlockContent>,
    ebt1: Seq<BlockContent>,
    image: Seq<(Vid, Seq<u8>)>,
    k: int,
    placed: Seq<u32>,
    block: u32,
)
    requires
        0 <= k < image.len(),
        ebt0.len() == table.len(),
        table.len() == ebt1.len(),
        after.layout_spec() == before.layout_spec(),
        image_placed(ebt0, table, before, image.take(k), placed),
        forall|i: int|
            0 <= i < table.len() ==> #[trigger] kept_up(before, after, table, ebt1, i, true),
        block < table.len(),
        table[block as int] is EcErased,
        holds_leb(
            ebt1[block as int],
            after.block_spec(block as int).contents(),
            before.layout_spec().bytes_per_page,
            image[k],
        ),
        forall|i: int|
            0 <= i < table.len() && i != block && (#[trigger] ebt1[i]) is EcData ==> table[i]
                is EcData,
    ensures
        image_placed(ebt0, ebt1, after, image.take(k + 1), placed.push(block)),
{
    reveal(image_placed);
    reveal(kept_up);
    let longer = placed.push(block);
    let ps = before.layout_spec().bytes_per_page;
    assert(image.take(k + 1) =~= image.take(k).push(image[k]));
    assert forall|j: int| 0 <= j < longer.len() implies (#[trigger] longer[j]) < ebt1.len()
        && holds_leb(
        ebt1[longer[j] as int],
        after.block_spec(longer[j] as int).contents(),
        ps,
        image.take(k + 1)[j],
    ) by {
        if j < k {
            assert(placed[j] == longer[j]);
            assert(kept_up(before, after, table, ebt1, placed[j] as int, true));
        }
    }
    assert forall|j1: int, j2: int| 0 <= j1 < j2 < longer.len() implies (#[trigger] longer[j1]) != (
    #[trigger] longer[j2]) by {
        assert(placed[j1] == longer[j1]);
        if j2 == k {
            assert(table[placed[j1] as int] is EcData);
        }
    }
    assert forall|i: int|
        0 <= i < ebt1.len() && (#[trigger] ebt1[i]) is EcData && !(ebt0[i] is EcData) implies among(
        longer,
        i,
    ) by {
        if i == block {
            assert(longer[k] == i);
        } else {
            assert(table[i] is EcData);
            assert(among(placed, i));
            let j = choose|j: int| 0 <= j < placed.len() && #[trigger] placed[j] == i;
            assert(longer[j] == i);
        }
    }
}

/// The sequence numbers of the VID headers that were written are strictly
/// increasing in the order in which the logical blocks were written.
pub proof fn lemma_written_sqnums<N: Nand>(
    before: Seq<BlockContent>,
    after: Seq<BlockContent>,
    nand: &N,
    volumes: Seq<VolumeSpec>,
    eb_size: u32,
    placed: Seq<u32>,
    k1: int,
    k2: int,
)
    requires
        image_placed(before, after, nand, image_of(volumes, eb_size), placed),
        0 <= k1 < k2 < image_of(volumes, eb_size).len(),
        image_of(volumes, eb_size).len() <= u64::MAX,
    ensures
        after[placed[k1] as int] is EcData,
        after[placed[k2] as int] is EcData,
        after[placed[k1] as int]->EcData_1->Some_0.sqnum < after[placed[k2] as int]->EcData_1->Some_0.sqnum,
        placed[k1] != placed[k2],
{
    let image = image_of(volumes, eb_size);
    lemma_placed_leb(before, after, nand, image, placed, k1);
    lemma_placed_leb(before, after, nand, image, placed, k2);
    crate::ubi::ubinize::lemma_sqnum_increasing(volumes, eb_size, k1, k2);
}

/// Whether a block holds a logical block of the layout volume.
pub open spec fn in_layout_volume(entry: BlockContent) -> bool {
    entry matches BlockContent::EcData(_, Some(vid)) && vid.vol_id == UBI_LAYOUT_VOLUME_ID
}

/// What `image_placed` says of logical block `k`.
proof fn lemma_placed_leb<N: Nand>(
    before: Seq<BlockContent>,
    after: Seq<BlockContent>,
    nand: &N,
    image: Seq<(Vid, Seq<u8>)>,
    placed: Seq<u32>,
    k: int,
)
    requires
        image_placed(before, after, nand, image, placed),
        0 <= k < image.len(),
    ensures
        placed.len() == image.len(),
        placed[k] < after.len(),
        after[placed[k] as int] matches BlockContent::EcData(_, Some(vid)) && vid == image[k].0,
        forall|m: int| 0 <= m < placed.len() && m != k ==> placed[m] != placed[k],
{
    reveal(image_placed);
    assert(placed[k] < after.len());
}

/// A block that has taken data holds one of the logical blocks.
proof fn lemma_placed_only<N: Nand>(
    before: Seq<BlockContent>,
    after: Seq<BlockContent>,
    nand: &N,
    image: Seq<(Vid, Seq<u8>)>,
    placed: Seq<u32>,
    i: int,
) -> (k: int)
    requires
        image_placed(before, after, nand, image, placed),
        0 <= i < after.len(),
        after[i] is EcData,
        !(before[i] is EcData),
    ensures
        0 <= k < placed.len(),
        placed[k] == i,
{
    reveal(image_placed);
    assert(among(placed, i));
    choose|k: int| 0 <= k < placed.len() && #[trigger] placed[k] == i
}

/// The layout volume comes last in an image, in two blocks with the same
/// payload; no block before them belongs to it.
pub proof fn lemma_image_layout(volumes: Seq<VolumeSpec>, eb_size: u32)
    requires
        volumes.len() <= table_slots(eb_size),
        image_of(volumes, eb_size).len() <= u64::MAX,
    ensures
        image_of(volumes, eb_size).len() >= 2,
        ({
            let image = image_of(volumes, eb_size);
            let n = image.len() as int;
            &&& image[n - 2].0 == layout_vid(0).with_sqnum((n - 1) as u64)
            &&& image[n - 1].0 == layout_vid(1).with_sqnum(n as u64)
            &&& image[n - 2].1 == image[n - 1].1
            &&& forall|k: int| 0 <= k < n - 2 ==> (#[trigger] image[k]).0.vol_id != UBI_LAYOUT_VOLUME_ID
        }),
{
    let table = Seq::new(table_slots(eb_size), |i: int| None::<VolTableRecordView>);
    lemma_empty_table(table_slots(eb_size));
    lemma_layout_last(volumes, table, eb_size);
    let blocks = emit(volumes, table, eb_size);
    let image = image_of(volumes, eb_size);
    assert forall|k: int| 0 <= k < image.len() - 2 implies (#[trigger] image[k]).0.vol_id
        != UBI_LAYOUT_VOLUME_ID by {
        assert(blocks[k].0.vol_id < crate::ubi::ubinize::UBI_MAX_VOLUMES);
    }
}

/// On a table that had no block in use, the layout volume ends up in
/// exactly two blocks, which differ, with the same payload: the last two
/// that were written.
pub proof fn lemma_written_layout<N: Nand>(
    before: Seq<BlockContent>,
    after: Seq<BlockContent>,
    nand: &N,
    volumes: Seq<VolumeSpec>,
    eb_size: u32,
    placed: Seq<u32>,
)
    requires
        image_placed(before, after, nand, image_of(volumes, eb_size), placed),
        volumes.len() <= table_slots(eb_size),
        image_of(volumes, eb_size).len() <= u64::MAX,
        before.len() == after.len(),
        forall|i: int| 0 <= i < before.len() ==> !((#[trigger] before[i]) is EcData),
    ensures
        placed.len() == image_of(volumes, eb_size).len(),
        placed.len() >= 2,
        placed[placed.len() - 2] != placed[placed.len() - 1],
        in_layout_volume(after[placed[placed.len() - 2] as int]),
        in_layout_volume(after[placed[placed.len() - 1] as int]),
        image_of(volumes, eb_size)[placed.len() - 2].1 == image_of(volumes, eb_size)[placed.len()
            - 1].1,
        forall|i: int|
            0 <= i < after.len() && in_layout_volume(#[trigger] after[i]) ==> i == placed[placed.len()
                - 2] || i == placed[placed.len() - 1],
{
    let image = image_of(volumes, eb_size);
    lemma_image_layout(volumes, eb_size);
    let n = image.len() as int;
    lemma_placed_leb(before, after, nand, image, placed, n - 2);
    lemma_placed_leb(before, after, nand, image, placed, n - 1);
    assert forall|i: int| 0 <= i < after.len() && in_layout_volume(#[trigger] after[i]) implies i
        == placed[n - 2] || i == placed[n - 1] by {
        assert(!(before[i] is EcData));
        let k = lemma_placed_only(before, after, nand, image, placed, i);
        lemma_placed_leb(before, after, nand, image, placed, k);
    }
}

} // verus!
