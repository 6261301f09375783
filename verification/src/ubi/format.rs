//! Reformatting the UBI partition: the prototype EC header, the action that
//! brings each block to a clean state, and the order in which the actions
//! run.

use crate::error::Error;
use crate::nand::{
    all_erased, erased_bytes, erased_from, nand_facts, patched, valid_block, valid_nand, Nand,
    NandBlock, NandLayout,
};
use crate::ubi::bytes::{push_zeros, zeros};
use crate::ubi::headers::{
    lemma_ec_decode_encode, lemma_ec_image, lemma_magic_apart, Ec, Vid, UBI_EC_HDR_SIZE,
};
use crate::ubi::scan::{
    block_state, classify, lemma_first_used_page_is, page_of, scan_spec, BlockContent, Ebt,
    SCAN_PAGE_CHUNKS,
};
use std::collections::HashMap;
use std::collections::VecDeque;
use vstd::prelude::*;

verus! {

broadcast use vstd::std_specs::hash::group_hash_axioms;

/// The actions that may be taken on a block to bring it to a clean state.
#[derive(Debug, Eq, PartialEq, Copy, Clone)]
pub enum FormatAction {
    /// Do nothing.
    Ignore,
    /// Write an EC header; only valid for `Erased` blocks.
    Write(Ec),
    /// Erase the block, then write an EC header.
    Erase(Ec),
}

/// The action that erases a block in state `content`.
///
/// A bad block is left alone, and so is an empty block whose EC header
/// already has the prototype's layout fields. A fully erased block gets the
/// prototype written, with no erase first. A block with a known erase
/// counter is erased and gets that counter plus one; any other block is
/// erased and gets the prototype, which holds the mean erase counter.
pub open spec fn erase_plan(content: BlockContent, ec_proto: Ec) -> FormatAction {
    match content {
        BlockContent::Bad => FormatAction::Ignore,
        BlockContent::Erased => FormatAction::Write(ec_proto),
        BlockContent::EcErased(x) => if x == ec_proto.with_ec(x.ec) {
            FormatAction::Ignore
        } else {
            FormatAction::Erase(ec_proto.with_ec((x.ec + 1) as u64))
        },
        BlockContent::EcData(x, _) => FormatAction::Erase(ec_proto.with_ec((x.ec + 1) as u64)),
        BlockContent::RawVid(_) => FormatAction::Erase(ec_proto),
        BlockContent::Garbage => FormatAction::Erase(ec_proto),
    }
}

/// Whether the erase counter that `erase_plan` would increment has room
/// for it.
pub open spec fn erase_plan_fits(content: BlockContent, ec_proto: Ec) -> bool {
    match content {
        BlockContent::EcErased(x) => x == ec_proto.with_ec(x.ec) || x.ec < u64::MAX,
        BlockContent::EcData(x, _) => x.ec < u64::MAX,
        _ => true,
    }
}

/// The action on the odd block of a superblock pair.
///
/// Where the odd block carries an EC header of its own, it is treated as
/// in `erase_plan`. Where it does not, the erase counter of the even block
/// is copied to it, so that the pair's wear history is kept; only where the
/// even block has none either does the prototype stand in.
pub open spec fn odd_plan(even: BlockContent, odd: BlockContent, ec_proto: Ec) -> FormatAction {
    match odd {
        BlockContent::Bad => FormatAction::Ignore,
        BlockContent::EcErased(x) => if x == ec_proto.with_ec(x.ec) {
            FormatAction::Ignore
        } else {
            FormatAction::Erase(ec_proto.with_ec((x.ec + 1) as u64))
        },
        BlockContent::EcData(x, _) => FormatAction::Erase(ec_proto.with_ec((x.ec + 1) as u64)),
        BlockContent::Erased => match even.ec_of() {
            Some(x) => FormatAction::Write(ec_proto.with_ec(x.ec)),
            None => FormatAction::Write(ec_proto),
        },
        _ => match even.ec_of() {
            Some(x) => FormatAction::Erase(ec_proto.with_ec((x.ec + 1) as u64)),
            None => FormatAction::Erase(ec_proto),
        },
    }
}

/// Whether the erase counter that `odd_plan` would increment has room for
/// it.
pub open spec fn odd_plan_fits(even: BlockContent, odd: BlockContent, ec_proto: Ec) -> bool {
    match odd {
        BlockContent::Bad => true,
        BlockContent::Erased => true,
        BlockContent::EcErased(x) => x == ec_proto.with_ec(x.ec) || x.ec < u64::MAX,
        BlockContent::EcData(x, _) => x.ec < u64::MAX,
        _ => match even.ec_of() {
            Some(x) => x.ec < u64::MAX,
            None => true,
        },
    }
}

/// Determine what formatting action needs to be taken to erase a block in
/// a given state.
pub fn erase_action(content: BlockContent, ec_proto: Ec) -> (r: FormatAction)
    requires
        erase_plan_fits(content, ec_proto),
    ensures
        r == erase_plan(content, ec_proto),
{
    match content {
        // Bad blocks can't have anything done with them.
        BlockContent::Bad => FormatAction::Ignore,
        // Fully-erased blocks should have the prototypical EC written in,
        // no erase needed first.
        BlockContent::Erased => FormatAction::Write(ec_proto),
        BlockContent::EcErased(x) => {
            // Empty blocks with ECs that already match the prototype's
            // layout fields can be ignored.
            if x == ec_proto.ec(x.ec) {
                FormatAction::Ignore
            } else {
                FormatAction::Erase(ec_proto.ec(x.ec + 1))
            }
        },
        // If we know the EC, erase and use that.
        BlockContent::EcData(x, _) => FormatAction::Erase(ec_proto.ec(x.ec + 1)),
        // Otherwise, just use the prototypical EC, which holds the mean
        // erase count.
        BlockContent::RawVid(_) => FormatAction::Erase(ec_proto),
        BlockContent::Garbage => FormatAction::Erase(ec_proto),
    }
}

/// Determine what actions to take on a pair of blocks, which formed a
/// superblock, to migrate away from the superblock layout.
///
/// Returns the actions for the even and the odd block, in this order.
pub fn migrate_superblock_action(even: BlockContent, odd: BlockContent, ec_proto: Ec) -> (r: [FormatAction; 2])
    requires
        erase_plan_fits(even, ec_proto),
        odd_plan_fits(even, odd, ec_proto),
    ensures
        r@ == seq![erase_plan(even, ec_proto), odd_plan(even, odd, ec_proto)],
{
    // The action to take on the even block is a standard UBI erase.
    let even_action = erase_action(even, ec_proto);
    let even_ec: Option<Ec> = match even {
        BlockContent::EcErased(x) => Some(x),
        BlockContent::EcData(x, _) => Some(x),
        _ => None,
    };
    // The action to take on the odd block depends on the even block.
    let odd_action = match odd {
        // Bad blocks can't have anything done with them.
        BlockContent::Bad => FormatAction::Ignore,
        // If there's already an EC in the odd block, the even block has no
        // say.
        BlockContent::EcErased(x) => {
            if x == ec_proto.ec(x.ec) {
                FormatAction::Ignore
            } else {
                FormatAction::Erase(ec_proto.ec(x.ec + 1))
            }
        },
        BlockContent::EcData(x, _) => FormatAction::Erase(ec_proto.ec(x.ec + 1)),
        // Copy the superblock EC, from the even block, to the odd block;
        // when there is none to copy, use the prototypical EC header.
        BlockContent::Erased => match even_ec {
            Some(x) => FormatAction::Write(ec_proto.ec(x.ec)),
            None => FormatAction::Write(ec_proto),
        },
        _ => match even_ec {
            Some(x) => FormatAction::Erase(ec_proto.ec(x.ec + 1)),
            None => FormatAction::Erase(ec_proto),
        },
    };
    let r = [even_action, odd_action];
    assert(r@ =~= seq![erase_plan(even, ec_proto), odd_plan(even, odd, ec_proto)]);
    r
}

/// The sum of the erase counters of the blocks that carry an EC header.
pub open spec fn ec_total(blocks: Seq<BlockContent>) -> nat
    decreases blocks.len(),
{
    if blocks.len() == 0 {
        0
    } else {
        ec_total(blocks.drop_last()) + match blocks.last().ec_of() {
            Some(x) => x.ec as nat,
            None => 0,
        }
    }
}

/// The number of blocks that carry an EC header.
pub open spec fn ec_census(blocks: Seq<BlockContent>) -> nat
    decreases blocks.len(),
{
    if blocks.len() == 0 {
        0
    } else {
        ec_census(blocks.drop_last()) + match blocks.last().ec_of() {
            Some(_) => 1nat,
            None => 0,
        }
    }
}

/// The number of blocks whose EC header has the image sequence number
/// `image_seq`.
pub open spec fn seq_votes(blocks: Seq<BlockContent>, image_seq: u32) -> nat
    decreases blocks.len(),
{
    if blocks.len() == 0 {
        0
    } else {
        seq_votes(blocks.drop_last(), image_seq) + match blocks.last().ec_of() {
            Some(x) => if x.image_seq == image_seq {
                1nat
            } else {
                0
            },
            None => 0,
        }
    }
}

/// The image sequence number with the most votes among those of the first
/// `n` blocks; of several with the most votes, the one that occurs first.
/// `None` where none of these blocks carries an EC header.
pub open spec fn leading_image_seq(blocks: Seq<BlockContent>, n: nat) -> Option<u32>
    decreases n,
{
    if n == 0 {
        None
    } else {
        let before = leading_image_seq(blocks, (n - 1) as nat);
        match blocks[n - 1].ec_of() {
            Some(x) => match before {
                Some(best) => if seq_votes(blocks, x.image_seq) > seq_votes(blocks, best) {
                    Some(x.image_seq)
                } else {
                    before
                },
                None => Some(x.image_seq),
            },
            None => before,
        }
    }
}

/// The mode of the image sequence numbers of the EC headers in `blocks`;
/// 0 where there is no EC header.
pub open spec fn modal_image_seq(blocks: Seq<BlockContent>) -> u32 {
    match leading_image_seq(blocks, blocks.len()) {
        Some(best) => best,
        None => 0,
    }
}

/// The mean of the erase counters in `blocks`, rounded to the nearest
/// integer; 1 where there is no EC header.
pub open spec fn mean_ec(blocks: Seq<BlockContent>) -> nat {
    if ec_census(blocks) == 0 {
        1
    } else {
        (ec_total(blocks) + ec_census(blocks) / 2) / ec_census(blocks)
    }
}

/// The prototype EC header for a device with `layout` whose blocks are in
/// the states `blocks`: the header that every block of the partition is to
/// carry, but for the erase counter.
pub open spec fn prototype_of(layout: NandLayout, blocks: Seq<BlockContent>) -> Ec {
    Ec {
        ec: mean_ec(blocks) as u64,
        vid_hdr_offset: layout.bytes_per_page as u32,
        data_offset: (2 * layout.bytes_per_page) as u32,
        image_seq: modal_image_seq(blocks),
    }
}

/// Whether the offsets of the prototype for `layout` fit their fields.
pub open spec fn prototype_fits(layout: NandLayout) -> bool {
    2 * layout.bytes_per_page <= u32::MAX
}

/// The census and the total of a prefix, one block longer.
proof fn lemma_census_step(blocks: Seq<BlockContent>, i: int)
    requires
        0 <= i < blocks.len(),
    ensures
        ec_census(blocks.take(i + 1)) == ec_census(blocks.take(i)) + match blocks[i].ec_of() {
            Some(_) => 1nat,
            None => 0,
        },
        ec_total(blocks.take(i + 1)) == ec_total(blocks.take(i)) + match blocks[i].ec_of() {
            Some(x) => x.ec as nat,
            None => 0,
        },
        forall|s: u32|
            seq_votes(blocks.take(i + 1), s) == #[trigger] seq_votes(blocks.take(i), s)
                + match blocks[i].ec_of() {
                Some(x) => if x.image_seq == s {
                    1nat
                } else {
                    0
                },
                None => 0,
            },
{
    assert(blocks.take(i + 1).drop_last() =~= blocks.take(i));
}

/// No erase counter exceeds `u64::MAX`, so neither does their mean.
proof fn lemma_total_bound(blocks: Seq<BlockContent>)
    ensures
        ec_total(blocks) <= ec_census(blocks) * u64::MAX,
        ec_census(blocks) <= blocks.len(),
        forall|s: u32| #[trigger] seq_votes(blocks, s) <= ec_census(blocks),
    decreases blocks.len(),
{
    if blocks.len() > 0 {
        lemma_total_bound(blocks.drop_last());
        assert((ec_census(blocks.drop_last()) + 1) * u64::MAX == ec_census(blocks.drop_last())
            * u64::MAX + u64::MAX) by (nonlinear_arith);
        assert forall|s: u32| #[trigger] seq_votes(blocks, s) <= ec_census(blocks) by {
            assert(seq_votes(blocks.drop_last(), s) <= ec_census(blocks.drop_last()));
        }
    }
}

/// The mean of the erase counters fits a `u64`.
pub proof fn lemma_mean_fits(blocks: Seq<BlockContent>)
    ensures
        mean_ec(blocks) <= u64::MAX,
{
    lemma_total_bound(blocks);
    let c = ec_census(blocks) as int;
    let t = ec_total(blocks) as int;
    if c > 0 {
        assert((t + c / 2) / c <= u64::MAX) by (nonlinear_arith)
            requires
                c > 0,
                0 <= t <= c * u64::MAX,
        ;
    }
}

/// The leader among the first `n` blocks has at least as many votes as the
/// image sequence number of any of these blocks.
proof fn lemma_leading(blocks: Seq<BlockContent>, n: nat)
    requires
        n <= blocks.len(),
    ensures
        leading_image_seq(blocks, n) is None ==> forall|i: int|
            0 <= i < n ==> (#[trigger] blocks[i]).ec_of() is None,
        leading_image_seq(blocks, n) is Some ==> {
            &&& exists|i: int|
                0 <= i < n && (#[trigger] blocks[i]).ec_of() is Some && blocks[i].ec_of()->Some_0.image_seq
                    == leading_image_seq(blocks, n)->Some_0
            &&& forall|i: int|
                0 <= i < n && (#[trigger] blocks[i]).ec_of() is Some ==> seq_votes(
                    blocks,
                    blocks[i].ec_of()->Some_0.image_seq,
                ) <= seq_votes(blocks, leading_image_seq(blocks, n)->Some_0)
        },
    decreases n,
{
    if n > 0 {
        lemma_leading(blocks, (n - 1) as nat);
        let before = leading_image_seq(blocks, (n - 1) as nat);
        if before is Some {
            let w = choose|i: int|
                0 <= i < n - 1 && (#[trigger] blocks[i]).ec_of() is Some && blocks[i].ec_of()->Some_0.image_seq
                    == before->Some_0;
            assert(blocks[w].ec_of() is Some);
        }
        if blocks[n - 1].ec_of() is Some {
            assert(blocks[n - 1].ec_of() is Some);
        }
    }
}

/// An image sequence number that no EC header carries has no votes.
proof fn lemma_no_votes(blocks: Seq<BlockContent>, s: u32)
    requires
        forall|i: int|
            0 <= i < blocks.len() && (#[trigger] blocks[i]).ec_of() is Some
                ==> blocks[i].ec_of()->Some_0.image_seq != s,
    ensures
        seq_votes(blocks, s) == 0,
    decreases blocks.len(),
{
    if blocks.len() > 0 {
        assert(blocks.last() == blocks[blocks.len() - 1]);
        assert forall|i: int|
            0 <= i < blocks.drop_last().len() && (#[trigger] blocks.drop_last()[i]).ec_of()
                is Some implies blocks.drop_last()[i].ec_of()->Some_0.image_seq != s by {
            assert(blocks.drop_last()[i] == blocks[i]);
        }
        lemma_no_votes(blocks.drop_last(), s);
    }
}

/// The image sequence number of the prototype is a mode: where any block
/// carries an EC header, no image sequence number occurs in more EC headers
/// than this one, and this one occurs in at least one.
pub proof fn lemma_modal_image_seq(blocks: Seq<BlockContent>)
    requires
        ec_census(blocks) > 0,
    ensures
        seq_votes(blocks, modal_image_seq(blocks)) > 0,
        forall|s: u32|
            #[trigger] seq_votes(blocks, s) <= seq_votes(blocks, modal_image_seq(blocks)),
{
    lemma_leading(blocks, blocks.len());
    if leading_image_seq(blocks, blocks.len()) is None {
        lemma_census_none(blocks);
    } else {
        let best = modal_image_seq(blocks);
        let w = choose|i: int|
            0 <= i < blocks.len() && (#[trigger] blocks[i]).ec_of() is Some && blocks[i].ec_of()->Some_0.image_seq
                == best;
        assert forall|s: u32| #[trigger] seq_votes(blocks, s) <= seq_votes(blocks, best) by {
            if forall|i: int|
                0 <= i < blocks.len() && (#[trigger] blocks[i]).ec_of() is Some
                    ==> blocks[i].ec_of()->Some_0.image_seq != s {
                lemma_no_votes(blocks, s);
            }
        }
        if seq_votes(blocks, best) == 0 {
            lemma_votes_some(blocks, w);
        }
    }
}

/// Where no block carries an EC header, the census is zero.
proof fn lemma_census_none(blocks: Seq<BlockContent>)
    requires
        forall|i: int| 0 <= i < blocks.len() ==> (#[trigger] blocks[i]).ec_of() is None,
    ensures
        ec_census(blocks) == 0,
        ec_total(blocks) == 0,
    decreases blocks.len(),
{
    if blocks.len() > 0 {
        assert(blocks.last() == blocks[blocks.len() - 1]);
        assert forall|i: int| 0 <= i < blocks.drop_last().len() implies (
        #[trigger] blocks.drop_last()[i]).ec_of() is None by {
            assert(blocks.drop_last()[i] == blocks[i]);
        }
        lemma_census_none(blocks.drop_last());
    }
}

/// The image sequence number of an EC header in `blocks` has a vote.
proof fn lemma_votes_some(blocks: Seq<BlockContent>, i: int)
    requires
        0 <= i < blocks.len(),
        blocks[i].ec_of() is Some,
    ensures
        seq_votes(blocks, blocks[i].ec_of()->Some_0.image_seq) > 0,
        ec_census(blocks) > 0,
    decreases blocks.len(),
{
    if i < blocks.len() - 1 {
        assert(blocks.drop_last()[i] == blocks[i]);
        lemma_votes_some(blocks.drop_last(), i);
    }
}

/// The votes that a tally holds for `image_seq`.
pub open spec fn tally_of(tally: Map<u32, usize>, image_seq: u32) -> nat {
    if tally.contains_key(image_seq) {
        tally[image_seq] as nat
    } else {
        0
    }
}

/// Figure out the prototype EC header: the header that should be written
/// to every block of the UBI partition.
///
/// Fails where the page size is too large for the offsets to fit their
/// fields.
pub fn compute_prototype(layout: NandLayout, blocks: &[BlockContent]) -> (r: Result<Ec, Error>)
    ensures
        r is Ok <==> prototype_fits(layout),
        r is Ok ==> r->Ok_0 == prototype_of(layout, blocks@),
        r is Err ==> r == Err::<Ec, Error>(Error::BadInput),
{
    if layout.bytes_per_page > 0x7FFF_FFFF {
        return Err(Error::BadInput);
    }
    let page_size: u32 = layout.bytes_per_page as u32;

    // Tally the image sequence numbers, so as to find their mode: with it
    // most of the EC headers can be reused without erasing. Add up the
    // erase counters on the way, for their mean.
    let mut image_seq_ctrs: HashMap<u32, usize> = HashMap::new();
    let mut ec_sum: u128 = 0;
    let mut ec_count: usize = 0;
    let mut i: usize = 0;
    while i < blocks.len()
        invariant
            i <= blocks@.len(),
            ec_count == ec_census(blocks@.take(i as int)),
            ec_sum == ec_total(blocks@.take(i as int)),
            forall|s: u32|
                tally_of(image_seq_ctrs@, s) == #[trigger] seq_votes(blocks@.take(i as int), s),
        decreases blocks@.len() - i,
    {
        proof {
            lemma_census_step(blocks@, i as int);
            lemma_total_bound(blocks@.take(i as int));
            lemma_total_bound(blocks@.take(i + 1));
            assert(ec_census(blocks@.take(i + 1)) * u64::MAX <= usize::MAX * u64::MAX)
                by (nonlinear_arith)
                requires
                    ec_census(blocks@.take(i + 1)) <= usize::MAX,
            ;
        }
        let ghost tallied = image_seq_ctrs@;
        let echdr: Option<Ec> = match blocks[i] {
            BlockContent::EcErased(x) => Some(x),
            BlockContent::EcData(x, _) => Some(x),
            _ => None,
        };
        if let Some(x) = echdr {
            let seen: usize = match image_seq_ctrs.get(&x.image_seq) {
                Some(c) => *c,
                None => 0,
            };
            assert(seen == seq_votes(blocks@.take(i as int), x.image_seq));
            image_seq_ctrs.insert(x.image_seq, seen + 1);
            ec_sum = ec_sum + x.ec as u128;
            ec_count = ec_count + 1;
        }
        assert forall|s: u32|
            tally_of(image_seq_ctrs@, s) == #[trigger] seq_votes(blocks@.take(i + 1), s) by {
            assert(tally_of(tallied, s) == seq_votes(blocks@.take(i as int), s));
        }
        i += 1;
    }
    assert(blocks@.take(blocks@.len() as int) =~= blocks@);

    // The mode is the first image sequence number that no other outvotes.
    let mut best: Option<u32> = None;
    let mut best_votes: usize = 0;
    let mut j: usize = 0;
    while j < blocks.len()
        invariant
            j <= blocks@.len(),
            forall|s: u32| tally_of(image_seq_ctrs@, s) == #[trigger] seq_votes(blocks@, s),
            best == leading_image_seq(blocks@, j as nat),
            best is Some ==> best_votes == seq_votes(blocks@, best->Some_0),
        decreases blocks@.len() - j,
    {
        let echdr: Option<Ec> = match blocks[j] {
            BlockContent::EcErased(x) => Some(x),
            BlockContent::EcData(x, _) => Some(x),
            _ => None,
        };
        if let Some(x) = echdr {
            let votes: usize = match image_seq_ctrs.get(&x.image_seq) {
                Some(c) => *c,
                None => 0,
            };
            assert(votes == seq_votes(blocks@, x.image_seq));
            if best.is_none() || votes > best_votes {
                best = Some(x.image_seq);
                best_votes = votes;
            }
        }
        j += 1;
    }
    let image_seq: u32 = match best {
        Some(s) => s,
        None => 0,
    };

    // The mean erase counter, rounded to the nearest integer, or 1 where
    // there is none.
    proof {
        lemma_total_bound(blocks@);
        lemma_mean_fits(blocks@);
        assert(ec_census(blocks@) * u64::MAX <= usize::MAX * u64::MAX) by (nonlinear_arith)
            requires
                ec_census(blocks@) <= usize::MAX,
        ;
    }
    let ec: u64 = if ec_count == 0 {
        1
    } else {
        ((ec_sum + (ec_count / 2) as u128) / (ec_count as u128)) as u64
    };
    Ok(Ec { vid_hdr_offset: page_size, data_offset: page_size * 2, ec, image_seq })
}

/// The first page of a formatted block: the encoded header, then zeros.
#[verifier::opaque]
pub open spec fn ec_page(ec: Ec, page_size: usize) -> Seq<u8> {
    ec.image() + zeros((page_size - UBI_EC_HDR_SIZE) as nat)
}

/// What a block of `len` bytes holds after it was erased and got `ec`
/// written into its first page.
#[verifier::opaque]
pub open spec fn formatted_block(ec: Ec, page_size: usize, len: nat) -> Seq<u8> {
    patched(erased_bytes(len), 0, ec_page(ec, page_size))
}

/// A scan of a block that was erased and got an EC header written finds
/// an erased block with that header.
pub proof fn lemma_classify_formatted(ec: Ec, page_count: u32, page_size: usize)
    requires
        page_size >= UBI_EC_HDR_SIZE,
        page_count > 0,
    ensures
        classify(
            formatted_block(ec, page_size, (page_count * page_size) as nat),
            page_count,
            page_size,
        ) == BlockContent::EcErased(ec),
{
    reveal(ec_page);
    reveal(formatted_block);
    let len = (page_count * page_size) as nat;
    let contents = formatted_block(ec, page_size, len);
    let rest = zeros((page_size - UBI_EC_HDR_SIZE) as nat);
    assert(page_count * page_size >= page_size) by (nonlinear_arith)
        requires
            page_count >= 1,
            page_size >= 0,
    ;
    lemma_ec_image(ec, rest);
    assert(page_of(contents, page_size, 0) =~= ec.image() + rest);
    lemma_ec_decode_encode(ec, rest);
    lemma_magic_apart(ec, Vid::blank(), rest);
    let limit: int = if page_count < SCAN_PAGE_CHUNKS {
        page_count as int
    } else {
        SCAN_PAGE_CHUNKS as int
    };
    assert forall|p: int| 1 <= p < limit implies all_erased(
        #[trigger] page_of(contents, page_size, p),
    ) by {
        assert(p * page_size >= page_size) by (nonlinear_arith)
            requires
                p >= 1,
                page_size >= 0,
        ;
        assert(p * page_size + page_size <= page_count * page_size) by (nonlinear_arith)
            requires
                p < page_count,
                page_size >= 0,
        ;
    }
    lemma_first_used_page_is(contents, page_size, 1, limit, limit);
}

impl FormatAction {
    /// The header that the action writes, if it writes one.
    pub open spec fn header(self) -> Option<Ec> {
        match self {
            FormatAction::Ignore => None,
            FormatAction::Write(ec) => Some(ec),
            FormatAction::Erase(ec) => Some(ec),
        }
    }

    /// Whether `after` is a state in which a run of the action that
    /// reports success may leave a block that was in state `before`: the
    /// block is bad, or it is erased with the action's header; a header
    /// that could not be written without an erase has its counter
    /// incremented for that erase.
    pub open spec fn settles(self, before: BlockContent, after: BlockContent) -> bool {
        match self {
            FormatAction::Ignore => after == before,
            FormatAction::Write(ec) => after == BlockContent::Bad || after
                == BlockContent::EcErased(ec) || after == BlockContent::EcErased(
                ec.with_ec((ec.ec + 1) as u64),
            ),
            FormatAction::Erase(ec) => after == BlockContent::Bad || after
                == BlockContent::EcErased(ec),
        }
    }

    /// The state in which the action leaves a block where nothing fails.
    pub open spec fn aim(self, before: BlockContent) -> BlockContent {
        match self {
            FormatAction::Ignore => before,
            FormatAction::Write(ec) => BlockContent::EcErased(ec),
            FormatAction::Erase(ec) => BlockContent::EcErased(ec),
        }
    }

    /// Write `ec` into the first page of the block. `Ok(false)` where the
    /// device refuses; an error, with nothing written, where a page is too
    /// small to hold the header.
    fn write_header<B: NandBlock>(ec: Ec, block: &mut B) -> (r: Result<bool, Error>)
        requires
            valid_block(old(block)),
        ensures
            valid_block(final(block)),
            final(block).page_count_spec() == old(block).page_count_spec(),
            final(block).page_size_spec() == old(block).page_size_spec(),
            final(block).reliable() == old(block).reliable(),
            final(block).marked_bad() == old(block).marked_bad(),
            r is Err <==> old(block).page_size_spec() < UBI_EC_HDR_SIZE,
            r is Err ==> *final(block) == *old(block),
            r == Ok::<bool, Error>(true) ==> final(block).contents() == patched(
                old(block).contents(),
                0,
                ec_page(ec, old(block).page_size_spec()),
            ),
            old(block).reliable() && old(block).page_size_spec() >= UBI_EC_HDR_SIZE && erased_from(
                old(block).contents(),
                0,
            ) ==> r == Ok::<bool, Error>(true),
    {
        let ps = block.page_size();
        let mut hdr_bytes: Vec<u8> = Vec::new();
        push_zeros(&mut hdr_bytes, ps);
        match ec.encode(hdr_bytes.as_mut_slice()) {
            Err(e) => {
                return Err(e);
            },
            Ok(()) => {},
        }
        proof {
            reveal(ec_page);
            lemma_ec_image(ec, Seq::empty());
            assert(hdr_bytes@ =~= ec_page(ec, ps));
            lemma_header_page(block.page_count_spec(), ps);
        }
        Ok(block.program(0, hdr_bytes.as_slice()).is_ok())
    }

    /// Erase the block and write `ec` into its first page; a block that
    /// fails either step is marked bad.
    fn erase_and_write<B: NandBlock>(ec: Ec, block: &mut B, content: &mut BlockContent) -> (r:
        Result<(), Error>)
        requires
            valid_block(old(block)),
        ensures
            valid_block(final(block)),
            final(block).page_count_spec() == old(block).page_count_spec(),
            final(block).page_size_spec() == old(block).page_size_spec(),
            final(block).reliable() == old(block).reliable(),
            r is Ok ==> *final(content) == BlockContent::Bad || *final(content)
                == BlockContent::EcErased(ec),
            r is Ok && *final(content) == BlockContent::Bad ==> final(block).marked_bad(),
            r is Ok && *final(content) == BlockContent::EcErased(ec) ==> {
                &&& final(block).marked_bad() == old(block).marked_bad()
                &&& final(block).page_size_spec() >= UBI_EC_HDR_SIZE
                &&& final(block).contents() == formatted_block(
                    ec,
                    old(block).page_size_spec(),
                    old(block).contents().len(),
                )
            },
            r is Err ==> *final(content) == BlockContent::Bad || (*final(content) == *old(content)
                && old(block).page_size_spec() < UBI_EC_HDR_SIZE),
            old(block).reliable() ==> (r is Ok <==> old(block).page_size_spec()
                >= UBI_EC_HDR_SIZE),
            old(block).reliable() && r is Ok ==> *final(content) == BlockContent::EcErased(ec),
    {
        if block.erase().is_err() {
            // An error when trying to erase means the block is definitely
            // bad.
            *content = BlockContent::Bad;
            return block.mark_bad();
        }
        proof {
            reveal(formatted_block);
        }
        match Self::write_header(ec, block) {
            Err(e) => Err(e),
            Ok(false) => {
                // An error after an erase is a sign of a bad block.
                *content = BlockContent::Bad;
                block.mark_bad()
            },
            Ok(true) => {
                // Success means the block is erased.
                *content = BlockContent::EcErased(ec);
                Ok(())
            },
        }
    }

    /// Run the action on the specified NAND block, and record in `content`
    /// the state in which it leaves the block.
    ///
    /// An error means that the block could not be marked bad, or that a
    /// page is too small to hold an EC header.
    pub fn execute<B: NandBlock>(self, block: &mut B, content: &mut BlockContent) -> (r: Result<
        (),
        Error,
    >)
        requires
            valid_block(old(block)),
            self matches FormatAction::Write(ec) ==> ec.ec < u64::MAX,
        ensures
            valid_block(final(block)),
            final(block).page_count_spec() == old(block).page_count_spec(),
            final(block).page_size_spec() == old(block).page_size_spec(),
            final(block).reliable() == old(block).reliable(),
            self is Ignore ==> r is Ok && *final(block) == *old(block),
            r is Ok ==> self.settles(*old(content), *final(content)),
            r is Ok && !(self is Ignore) ==> written_as(
                self,
                old(block).contents(),
                old(block).page_size_spec(),
                old(block).marked_bad(),
                *final(content),
                final(block).contents(),
                final(block).marked_bad(),
            ),
            r is Err ==> *final(content) == BlockContent::Bad || (*final(content) == *old(content)
                && old(block).page_size_spec() < UBI_EC_HDR_SIZE),
            old(block).reliable() && !(self is Ignore) ==> (r is Ok <==> old(block).page_size_spec()
                >= UBI_EC_HDR_SIZE),
            old(block).reliable() && r is Ok && (self is Write ==> erased_from(
                old(block).contents(),
                0,
            )) ==> *final(content) == self.aim(*old(content)),
    {
        let ec = match self {
            FormatAction::Ignore => {
                return Ok(());
            },
            FormatAction::Erase(x) => {
                return Self::erase_and_write(x, block, content);
            },
            FormatAction::Write(x) => x,
        };
        match Self::write_header(ec, block) {
            Err(e) => Err(e),
            Ok(false) => {
                // An error when we weren't trying to erase is probably
                // from the block being in an unclean state; promote this
                // to an `Erase` and try again.
                Self::erase_and_write(ec.inc_ec(), block, content)
            },
            Ok(true) => {
                // Success means the block is erased.
                *content = BlockContent::EcErased(ec);
                Ok(())
            },
        }
    }
}

/// What a run of `action` that reports success has left on the flash, for
/// the state `after` that it recorded: a bad block is marked bad; an erased
/// block with a header holds that header in its first page, and erased
/// bytes behind it unless the header was written without an erase.
pub open spec fn written_as(
    action: FormatAction,
    contents_before: Seq<u8>,
    page_size: usize,
    bad_before: bool,
    after: BlockContent,
    contents_after: Seq<u8>,
    bad_after: bool,
) -> bool {
    match after {
        BlockContent::Bad => bad_after,
        BlockContent::EcErased(ec) => {
            &&& bad_after == bad_before
            &&& page_size >= UBI_EC_HDR_SIZE
            &&& {
                ||| contents_after == formatted_block(ec, page_size, contents_before.len())
                ||| action == FormatAction::Write(ec) && contents_after == patched(
                    contents_before,
                    0,
                    ec_page(ec, page_size),
                )
            }
        },
        _ => false,
    }
}

/// One page at the start of a block is whole pages in range.
proof fn lemma_header_page(page_count: u32, page_size: usize)
    requires
        page_count > 0,
        page_size > 0,
    ensures
        crate::nand::pages_in_range(page_count, page_size, 0, page_size as nat),
        0 * page_size == 0,
{
    assert(page_size as nat % page_size as nat == 0 && page_size as nat / page_size as nat == 1)
        by (nonlinear_arith)
        requires
            page_size > 0,
    ;
}

/// Whether any block shows the superblock layout, so that the partition
/// has to be migrated.
pub open spec fn needs_migration(ebt: Seq<BlockContent>) -> bool {
    exists|i: int| 0 <= i < ebt.len() && (#[trigger] ebt[i]) is RawVid
}

/// The other block of the superblock pair that block `i` belongs to.
pub open spec fn sibling(i: int) -> int {
    if i % 2 == 0 {
        i + 1
    } else {
        i - 1
    }
}

/// Whether block `i`, or the other block of its pair, shows the superblock
/// layout.
pub open spec fn touches_raw_vid(ebt: Seq<BlockContent>, i: int) -> bool {
    ebt[i] is RawVid || (sibling(i) < ebt.len() && ebt[sibling(i)] is RawVid)
}

/// No erase counter in the table is at its maximum, so that each can be
/// incremented for an erase.
pub open spec fn counters_fit(ebt: Seq<BlockContent>) -> bool {
    forall|i: int|
        0 <= i < ebt.len() && (#[trigger] ebt[i]).ec_of() is Some ==> ebt[i].ec_of()->Some_0.ec
            < u64::MAX
}

/// The action that a reformat takes on block `i`.
///
/// Without a migration every block is erased on its own. In a migration
/// the blocks are taken as superblock pairs: the even block of a pair is
/// treated as without a migration, and so is a last block without a
/// partner; the odd block is treated with regard to the even one.
pub open spec fn planned_action(ebt: Seq<BlockContent>, ec_proto: Ec, i: int) -> FormatAction {
    if !needs_migration(ebt) || i % 2 == 0 {
        erase_plan(ebt[i], ec_proto)
    } else {
        odd_plan(ebt[i - 1], ebt[i], ec_proto)
    }
}

/// The work of a reformat on the first `n` blocks, in the order in which
/// it is carried out.
///
/// In a migration, the work on a block that shows the superblock layout,
/// by itself or by its partner, is put behind all other work, so that an
/// interrupted migration is seen to be incomplete at the next scan; the
/// other blocks are taken from the last to the first.
pub open spec fn work_list(ebt: Seq<BlockContent>, ec_proto: Ec, n: nat) -> Seq<
    (u32, FormatAction),
>
    decreases n,
{
    if n == 0 {
        Seq::empty()
    } else {
        let before = work_list(ebt, ec_proto, (n - 1) as nat);
        let action = planned_action(ebt, ec_proto, n - 1);
        if action is Ignore {
            before
        } else if needs_migration(ebt) && !touches_raw_vid(ebt, n - 1) {
            seq![((n - 1) as u32, action)] + before
        } else {
            before + seq![((n - 1) as u32, action)]
        }
    }
}

/// What the work list holds: one item for each block with something to do,
/// and in a migration no item for a block that shows the superblock layout
/// before an item for a block that does not.
pub proof fn lemma_work_list(ebt: Seq<BlockContent>, ec_proto: Ec, n: nat)
    requires
        n <= ebt.len(),
        n <= u32::MAX,
    ensures
        forall|k: int|
            0 <= k < work_list(ebt, ec_proto, n).len() ==> {
                &&& (#[trigger] work_list(ebt, ec_proto, n)[k]).0 < n
                &&& work_list(ebt, ec_proto, n)[k].1 == planned_action(
                    ebt,
                    ec_proto,
                    work_list(ebt, ec_proto, n)[k].0 as int,
                )
                &&& !(work_list(ebt, ec_proto, n)[k].1 is Ignore)
            },
        forall|k1: int, k2: int|
            0 <= k1 < k2 < work_list(ebt, ec_proto, n).len() ==> (#[trigger] work_list(
                ebt,
                ec_proto,
                n,
            )[k1]).0 != (#[trigger] work_list(ebt, ec_proto, n)[k2]).0,
        forall|i: int|
            0 <= i < n && !(#[trigger] planned_action(ebt, ec_proto, i) is Ignore) ==> exists|
                k: int,
            |
                0 <= k < work_list(ebt, ec_proto, n).len() && (#[trigger] work_list(
                    ebt,
                    ec_proto,
                    n,
                )[k]).0 == i,
        needs_migration(ebt) ==> forall|k1: int, k2: int|
            0 <= k1 < k2 < work_list(ebt, ec_proto, n).len() && touches_raw_vid(
                ebt,
                (#[trigger] work_list(ebt, ec_proto, n)[k1]).0 as int,
            ) ==> touches_raw_vid(ebt, (#[trigger] work_list(ebt, ec_proto, n)[k2]).0 as int),
    decreases n,
{
    if n > 0 {
        lemma_work_list(ebt, ec_proto, (n - 1) as nat);
        let before = work_list(ebt, ec_proto, (n - 1) as nat);
        let now = work_list(ebt, ec_proto, n);
        let action = planned_action(ebt, ec_proto, n - 1);
        let item = ((n - 1) as u32, action);
        if action is Ignore {
            assert(now == before);
        } else if needs_migration(ebt) && !touches_raw_vid(ebt, n - 1) {
            assert(now == seq![item] + before);
            assert(now[0] == item);
            assert forall|k: int| 1 <= k < now.len() implies #[trigger] now[k] == before[k - 1] by {}
            assert forall|i: int|
                0 <= i < n && !(#[trigger] planned_action(ebt, ec_proto, i) is Ignore) implies exists|
                k: int,
            | 0 <= k < now.len() && (#[trigger] now[k]).0 == i by {
                if i == n - 1 {
                    assert(now[0].0 == i);
                } else {
                    let k0 = choose|k: int| 0 <= k < before.len() && (#[trigger] before[k]).0 == i;
                    assert(now[k0 + 1].0 == i);
                }
            }
        } else {
            assert(now == before + seq![item]);
            assert(now[now.len() - 1] == item);
            assert forall|k: int| 0 <= k < now.len() - 1 implies #[trigger] now[k] == before[k] by {}
            assert forall|i: int|
                0 <= i < n && !(#[trigger] planned_action(ebt, ec_proto, i) is Ignore) implies exists|
                k: int,
            | 0 <= k < now.len() && (#[trigger] now[k]).0 == i by {
                if i == n - 1 {
                    assert(now[now.len() - 1].0 == i);
                } else {
                    let k0 = choose|k: int| 0 <= k < before.len() && (#[trigger] before[k]).0 == i;
                    assert(now[k0].0 == i);
                }
            }
        }
    }
}

/// Where no erase counter is at its maximum, neither is their mean.
pub proof fn lemma_mean_has_room(ebt: Seq<BlockContent>)
    requires
        counters_fit(ebt),
    ensures
        mean_ec(ebt) < u64::MAX,
{
    lemma_total_room(ebt);
    let c = ec_census(ebt) as int;
    let t = ec_total(ebt) as int;
    if c > 0 {
        assert((t + c / 2) / c <= u64::MAX - 1) by (nonlinear_arith)
            requires
                c > 0,
                0 <= t <= c * (u64::MAX - 1),
        ;
    }
}

proof fn lemma_total_room(ebt: Seq<BlockContent>)
    requires
        counters_fit(ebt),
    ensures
        ec_total(ebt) <= ec_census(ebt) * (u64::MAX - 1),
    decreases ebt.len(),
{
    if ebt.len() > 0 {
        assert(ebt.last() == ebt[ebt.len() - 1]);
        assert forall|i: int|
            0 <= i < ebt.drop_last().len() && (#[trigger] ebt.drop_last()[i]).ec_of()
                is Some implies ebt.drop_last()[i].ec_of()->Some_0.ec < u64::MAX by {
            assert(ebt.drop_last()[i] == ebt[i]);
        }
        lemma_total_room(ebt.drop_last());
        assert((ec_census(ebt.drop_last()) + 1) * (u64::MAX - 1) == ec_census(ebt.drop_last()) * (
        u64::MAX - 1) + (u64::MAX - 1)) by (nonlinear_arith);
    }
}

/// Whether an erase counter in the table is at its maximum, which leaves a
/// reformat no room to count its erase.
pub fn counters_in_range(ebt: &[BlockContent]) -> (r: bool)
    ensures
        r == counters_fit(ebt@),
{
    let mut i: usize = 0;
    while i < ebt.len()
        invariant
            i <= ebt@.len(),
            forall|j: int|
                0 <= j < i && (#[trigger] ebt@[j]).ec_of() is Some ==> ebt@[j].ec_of()->Some_0.ec
                    < u64::MAX,
        decreases ebt@.len() - i,
    {
        let full = match ebt[i] {
            BlockContent::EcErased(x) => x.ec == u64::MAX,
            BlockContent::EcData(x, _) => x.ec == u64::MAX,
            _ => false,
        };
        if full {
            return false;
        }
        i += 1;
    }
    true
}

/// Whether any block of the table shows the superblock layout.
fn detect_migration(ebt: &[BlockContent]) -> (r: bool)
    ensures
        r == needs_migration(ebt@),
{
    let mut i: usize = 0;
    while i < ebt.len()
        invariant
            i <= ebt@.len(),
            forall|j: int| 0 <= j < i ==> !((#[trigger] ebt@[j]) is RawVid),
        decreases ebt@.len() - i,
    {
        if let BlockContent::RawVid(_) = ebt[i] {
            return true;
        }
        i += 1;
    }
    false
}

/// Work out what a reformat does to each block, and in which order.
pub fn plan_format(ebt: &[BlockContent], ec_proto: Ec) -> (work: VecDeque<(u32, FormatAction)>)
    requires
        ebt@.len() <= u32::MAX,
        counters_fit(ebt@),
    ensures
        work@ == work_list(ebt@, ec_proto, ebt@.len()),
{
    let migrate = detect_migration(ebt);
    let mut work: VecDeque<(u32, FormatAction)> = VecDeque::new();
    let mut i: usize = 0;
    assert(work@ =~= work_list(ebt@, ec_proto, 0));
    while i < ebt.len()
        invariant
            i <= ebt@.len(),
            ebt@.len() <= u32::MAX,
            counters_fit(ebt@),
            migrate == needs_migration(ebt@),
            work@ == work_list(ebt@, ec_proto, i as nat),
        decreases ebt@.len() - i,
    {
        let partner: usize = if i % 2 == 0 {
            i + 1
        } else {
            i - 1
        };
        let action = if !migrate {
            erase_action(ebt[i], ec_proto)
        } else if partner >= ebt.len() {
            erase_action(ebt[i], ec_proto)
        } else if i % 2 == 0 {
            migrate_superblock_action(ebt[i], ebt[partner], ec_proto)[0]
        } else {
            migrate_superblock_action(ebt[partner], ebt[i], ec_proto)[1]
        };
        assert(action == planned_action(ebt@, ec_proto, i as int));
        match action {
            FormatAction::Ignore => {},
            _ => {
                // Is this one of the superblocks that make the migration
                // necessary? If so, handle it last, so that after an
                // interruption, such as a power loss, the right operation
                // is resumed.
                let is_vid = migrate && (is_raw_vid(&ebt[i]) || (partner < ebt.len()
                    && is_raw_vid(&ebt[partner])));
                if migrate && !is_vid {
                    work.push_front((i as u32, action));
                } else {
                    work.push_back((i as u32, action));
                }
            },
        }
        assert(work@ =~= work_list(ebt@, ec_proto, (i + 1) as nat));
        i += 1;
    }
    work
}

/// Whether a block shows the superblock layout.
fn is_raw_vid(content: &BlockContent) -> (r: bool)
    ensures
        r == (*content is RawVid),
{
    match content {
        BlockContent::RawVid(_) => true,
        _ => false,
    }
}

/// A block that scans as fully erased holds erased bytes only.
pub proof fn lemma_classify_erased(contents: Seq<u8>, page_count: u32, page_size: usize)
    requires
        page_size > 0,
        contents.len() == page_count * page_size,
        classify(contents, page_count, page_size) == BlockContent::Erased,
    ensures
        erased_from(contents, 0),
{
    crate::ubi::scan::lemma_first_used_page(contents, page_size, 0, page_count as int);
    assert forall|i: int| 0 <= i < contents.len() implies contents[i] == 0xFFu8 by {
        let p = i / (page_size as int);
        let k = i % (page_size as int);
        assert(i == p * page_size + k && 0 <= k < page_size && 0 <= p < page_count)
            by (nonlinear_arith)
            requires
                p == i / (page_size as int),
                k == i % (page_size as int),
                0 <= i < page_count * page_size,
                page_size > 0,
        ;
        assert(all_erased(page_of(contents, page_size, p)));
        assert(page_of(contents, page_size, p)[k] == contents[i]);
    }
}

/// After a run of an action that reports success, a scan of the block
/// finds the state that the run recorded, provided that a header was
/// written without an erase only into an erased block.
pub proof fn lemma_settled<B: NandBlock>(
    action: FormatAction,
    before: &B,
    after: &B,
    recorded: BlockContent,
)
    requires
        valid_block(before),
        valid_block(after),
        after.page_count_spec() == before.page_count_spec(),
        after.page_size_spec() == before.page_size_spec(),
        !before.marked_bad(),
        action is Write ==> erased_from(before.contents(), 0),
        written_as(
            action,
            before.contents(),
            before.page_size_spec(),
            before.marked_bad(),
            recorded,
            after.contents(),
            after.marked_bad(),
        ),
    ensures
        block_state(after) == recorded,
{
    match recorded {
        BlockContent::EcErased(ec) => {
            let ps = before.page_size_spec();
            let len = before.contents().len();
            lemma_classify_formatted(ec, before.page_count_spec(), ps);
            if after.contents() != formatted_block(ec, ps, len) {
                reveal(formatted_block);
                assert(before.contents() =~= erased_bytes(len));
            }
        },
        _ => {},
    }
}

/// What a reformat does to block `i`, where `ebt0` and `ebt1` are the
/// table before and after, and `done` tells whether the reformat went
/// through.
///
/// A block with nothing to do is left as it was, on flash and in the
/// table. Any other block is left in a state in which its action may leave
/// it, unless an error cut the run short; its entry is never left in any
/// other state than these. Where the entry showed what was on flash, it
/// does so again after a run that succeeded, and on a reliable device the
/// block is then in the very state that the action aims at.
pub open spec fn reformatted<N: Nand>(
    before: &N,
    after: &N,
    ebt0: Seq<BlockContent>,
    ebt1: Seq<BlockContent>,
    i: int,
    done: bool,
) -> bool {
    let action = planned_action(ebt0, prototype_of(before.layout_spec(), ebt0), i);
    let coherent = block_state(&before.block_spec(i)) == ebt0[i];
    &&& action is Ignore ==> ebt1[i] == ebt0[i] && after.block_spec(i) == before.block_spec(i)
    &&& ebt1[i] == ebt0[i] || action.settles(ebt0[i], ebt1[i])
    &&& done ==> action.settles(ebt0[i], ebt1[i])
    &&& done && coherent ==> block_state(&after.block_spec(i)) == ebt1[i]
    &&& done && coherent && before.reliable() ==> ebt1[i] == action.aim(ebt0[i])
}

/// Whether a reformat has left block `i` as it was, on flash and in the
/// table.
pub open spec fn untouched<N: Nand>(
    before: &N,
    after: &N,
    ebt0: Seq<BlockContent>,
    ebt1: Seq<BlockContent>,
    i: int,
) -> bool {
    ebt1[i] == ebt0[i] && after.block_spec(i) == before.block_spec(i)
}

/// The order of a migration, as the state in which a reformat leaves the
/// device shows it, whether it succeeded or not: where a block that shows
/// the superblock layout, by itself or by its partner, is no longer as it
/// was, every block that does not show it is through with its action.
/// While any work is left on the others, all blocks that tell of the
/// superblock layout still do so.
pub open spec fn in_order<N: Nand>(
    before: &N,
    after: &N,
    ebt0: Seq<BlockContent>,
    ebt1: Seq<BlockContent>,
) -> bool {
    forall|i: int, j: int|
        0 <= i < ebt0.len() && 0 <= j < ebt0.len() && touches_raw_vid(ebt0, i) && !touches_raw_vid(
            ebt0,
            j,
        ) && !#[trigger] untouched(before, after, ebt0, ebt1, i) ==> #[trigger] reformatted(
            before,
            after,
            ebt0,
            ebt1,
            j,
            true,
        )
}

/// A header that is to be written without an erase has room for the erase
/// that a refusal makes necessary.
proof fn lemma_planned_room(ebt: Seq<BlockContent>, layout: NandLayout, i: int)
    requires
        counters_fit(ebt),
        0 <= i < ebt.len(),
    ensures
        planned_action(ebt, prototype_of(layout, ebt), i) matches FormatAction::Write(ec)
            ==> ec.ec < u64::MAX,
{
    lemma_mean_has_room(ebt);
    if i > 0 {
        assert(ebt[i - 1].ec_of() is Some ==> ebt[i - 1].ec_of()->Some_0.ec < u64::MAX);
    }
}

/// Reformat the UBI partition: by a migration away from the superblock
/// layout where a block shows that layout, else by a regular UBI erase.
///
/// This does not write the layout volume, so it is not sufficient for UBI
/// to accept the partition.
///
/// An error comes from the device, or says that a block which the table
/// holds for good has been marked bad (`Internal`), or that a page is too
/// small, or too large, for the header and its offsets (`BadInput`).
///
/// In a migration the blocks that tell of the superblock layout are worked
/// on last: however the run ends, none of them has changed while another
/// block still awaits its action.
pub fn format<N: Nand>(nand: &mut N, ebt: &mut Ebt) -> (r: Result<(), Error>)
    requires
        valid_nand(old(nand)),
        old(ebt)@.len() == old(nand).layout_spec().blocks,
        counters_fit(old(ebt)@),
    ensures
        valid_nand(final(nand)),
        final(nand).layout_spec() == old(nand).layout_spec(),
        final(nand).reliable() == old(nand).reliable(),
        final(ebt)@.len() == old(ebt)@.len(),
        forall|i: int|
            0 <= i < old(ebt)@.len() ==> #[trigger] reformatted(
                old(nand),
                final(nand),
                old(ebt)@,
                final(ebt)@,
                i,
                r is Ok,
            ),
        needs_migration(old(ebt)@) ==> in_order(old(nand), final(nand), old(ebt)@, final(ebt)@),
        !prototype_fits(old(nand).layout_spec()) ==> r == Err::<(), Error>(Error::BadInput)
            && final(ebt)@ == old(ebt)@ && forall|i: int|
            0 <= i < old(ebt)@.len() ==> #[trigger] final(nand).block_spec(i) == old(
                nand,
            ).block_spec(i),
        prototype_fits(old(nand).layout_spec()) && work_list(
            old(ebt)@,
            prototype_of(old(nand).layout_spec(), old(ebt)@),
            old(ebt)@.len(),
        ).len() == 0 ==> r is Ok,
        old(nand).reliable() && old(ebt)@ == scan_spec(old(nand)) ==> (r is Ok <==> prototype_fits(
            old(nand).layout_spec(),
        ) && (old(nand).layout_spec().bytes_per_page >= UBI_EC_HDR_SIZE || work_list(
            old(ebt)@,
            prototype_of(old(nand).layout_spec(), old(ebt)@),
            old(ebt)@.len(),
        ).len() == 0)),
{
    let layout = nand.get_layout();
    let proto = match compute_prototype(layout, ebt.as_slice()) {
        Ok(proto) => proto,
        Err(e) => {
            return Err(e);
        },
    };
    let mut work = plan_format(ebt.as_slice(), proto);
    let ghost ebt0 = ebt@;
    let ghost full = work@;
    let ghost n = ebt@.len() as int;
    let ghost mut done: Seq<bool> = Seq::new(ebt@.len(), |i: int| false);
    let ghost mut k: int = 0;
    proof {
        lemma_work_list(ebt0, proto, ebt0.len());
        assert(work@ =~= full.subrange(0, full.len() as int));
    }
    while work.len() > 0
        invariant
            valid_nand(&*nand),
            nand.layout_spec() == old(nand).layout_spec(),
            nand.reliable() == old(nand).reliable(),
            layout == nand.layout_spec(),
            prototype_fits(layout),
            proto == prototype_of(layout, ebt0),
            ebt0 == old(ebt)@,
            counters_fit(ebt0),
            n == ebt0.len(),
            n == layout.blocks,
            ebt@.len() == n,
            done.len() == n,
            full == work_list(ebt0, proto, ebt0.len()),
            0 <= k <= full.len(),
            work@ == full.subrange(k, full.len() as int),
            forall|j: int| 0 <= j < k ==> done[(#[trigger] full[j]).0 as int],
            forall|j: int| k <= j < full.len() ==> !done[(#[trigger] full[j]).0 as int],
            forall|i: int|
                0 <= i < n && !done[i] ==> (#[trigger] ebt@[i]) == ebt0[i] && nand.block_spec(i)
                    == old(nand).block_spec(i),
            forall|i: int|
                0 <= i < n && done[i] ==> #[trigger] reformatted(
                    old(nand),
                    &*nand,
                    ebt0,
                    ebt@,
                    i,
                    true,
                ),
            old(nand).reliable() && ebt0 == scan_spec(old(nand)) && k > 0
                ==> layout.bytes_per_page >= UBI_EC_HDR_SIZE,
        decreases work@.len(),
    {
        let (block_index, action) = match work.pop_front() {
            Some(item) => item,
            None => {
                return Err(Error::Internal);
            },
        };
        let ghost b = block_index as int;
        let ghost before = *nand;
        let ghost table = ebt@;
        proof {
            lemma_work_list(ebt0, proto, ebt0.len());
            assert(full[k] == (block_index, action));
            assert(work@ =~= full.subrange(k + 1, full.len() as int));
            assert(!done[b]);
            lemma_planned_room(ebt0, layout, b);
            assert(table[b] == ebt0[b]);
            assert(before.block_spec(b) == old(nand).block_spec(b));
        }
        let outcome = reformat_block(nand, ebt, block_index, action);
        proof {
            assert(table.len() == n && ebt@.len() == n);
            assert forall|i: int| 0 <= i < n && i != b implies (#[trigger] ebt@[i]) == table[i]
                && nand.block_spec(i) == before.block_spec(i) by {
                assert(i != block_index);
            }
            lemma_reformatted_more(
                old(nand),
                &before,
                &*nand,
                ebt0,
                table,
                ebt@,
                done,
                b,
                outcome is Ok,
            );
        }
        match outcome {
            Err(e) => {
                proof {
                    lemma_migration_order(old(nand), &*nand, ebt0, ebt@, done, full, k);
                }
                return Err(e);
            },
            Ok(()) => {},
        }
        proof {
            done = done.update(b, true);
            k = k + 1;
        }
    }
    proof {
        lemma_work_list(ebt0, proto, ebt0.len());
        lemma_reformatted_all(old(nand), &*nand, ebt0, ebt@, done, full);
    }
    Ok(())
}

/// Whether block `b` is as the run of its action leaves it; `done` tells
/// whether the run went through.
pub open spec fn block_reformatted<N: Nand>(
    before: &N,
    after: &N,
    entry0: BlockContent,
    entry1: BlockContent,
    action: FormatAction,
    b: int,
    done: bool,
) -> bool {
    let coherent = block_state(&before.block_spec(b)) == entry0;
    &&& entry1 == entry0 || action.settles(entry0, entry1)
    &&& done ==> action.settles(entry0, entry1)
    &&& done && coherent ==> block_state(&after.block_spec(b)) == entry1
    &&& done && coherent && before.reliable() ==> entry1 == action.aim(entry0)
}

/// Run the action that was planned for a block on it, and record in the
/// table the state in which it leaves the block.
fn reformat_block<N: Nand>(nand: &mut N, ebt: &mut Ebt, block_index: u32, action: FormatAction) -> (r:
    Result<(), Error>)
    requires
        valid_nand(old(nand)),
        old(ebt)@.len() == old(nand).layout_spec().blocks,
        block_index < old(ebt)@.len(),
        !(action is Ignore),
        action matches FormatAction::Write(ec) ==> ec.ec < u64::MAX,
        action is Write ==> old(ebt)@[block_index as int] is Erased,
        !(old(ebt)@[block_index as int] is Bad),
    ensures
        valid_nand(final(nand)),
        final(nand).layout_spec() == old(nand).layout_spec(),
        final(nand).reliable() == old(nand).reliable(),
        final(ebt)@.len() == old(ebt)@.len(),
        forall|i: int|
            0 <= i < old(ebt)@.len() && i != block_index ==> (#[trigger] final(ebt)@[i]) == old(
                ebt,
            )@[i] && final(nand).block_spec(i) == old(nand).block_spec(i),
        block_reformatted(
            old(nand),
            final(nand),
            old(ebt)@[block_index as int],
            final(ebt)@[block_index as int],
            action,
            block_index as int,
            r is Ok,
        ),
        old(nand).reliable() && block_state(&old(nand).block_spec(block_index as int)) == old(
            ebt,
        )@[block_index as int] ==> (r is Ok <==> old(nand).layout_spec().bytes_per_page
            >= UBI_EC_HDR_SIZE),
{
    let ghost b = block_index as int;
    let ghost entry = ebt@[b];
    proof {
        nand_facts(&*nand, b);
    }
    let mut content = ebt[block_index as usize];
    let outcome = match nand.block(block_index) {
        Err(e) => Err(e),
        Ok(None) => Err(Error::Internal),
        Ok(Some(block)) => {
            let ghost held = *block;
            let res = action.execute(block, &mut content);
            proof {
                if res is Ok && block_state(&held) == entry {
                    if action is Write {
                        lemma_classify_erased(
                            held.contents(),
                            held.page_count_spec(),
                            held.page_size_spec(),
                        );
                    }
                    lemma_settled(action, &held, &*block, content);
                }
            }
            res
        },
    };
    ebt.set(block_index as usize, content);
    outcome
}

/// After the work on block `b`, the blocks that were done before are done
/// still, block `b` is as its action leaves it, and the others are as they
/// were.
proof fn lemma_reformatted_more<N: Nand>(
    start: &N,
    before: &N,
    after: &N,
    ebt0: Seq<BlockContent>,
    table: Seq<BlockContent>,
    ebt1: Seq<BlockContent>,
    done: Seq<bool>,
    b: int,
    went: bool,
)
    requires
        ebt0.len() == table.len(),
        table.len() == ebt1.len(),
        done.len() == ebt0.len(),
        0 <= b < ebt0.len(),
        !done[b],
        before.layout_spec() == start.layout_spec(),
        before.reliable() == start.reliable(),
        !(planned_action(ebt0, prototype_of(start.layout_spec(), ebt0), b) is Ignore),
        forall|i: int|
            0 <= i < ebt0.len() && !done[i] ==> (#[trigger] table[i]) == ebt0[i]
                && before.block_spec(i) == start.block_spec(i),
        forall|i: int|
            0 <= i < ebt0.len() && done[i] ==> #[trigger] reformatted(
                start,
                before,
                ebt0,
                table,
                i,
                true,
            ),
        forall|i: int|
            0 <= i < ebt0.len() && i != b ==> (#[trigger] ebt1[i]) == table[i] && after.block_spec(i)
                == before.block_spec(i),
        block_reformatted(
            before,
            after,
            table[b],
            ebt1[b],
            planned_action(ebt0, prototype_of(start.layout_spec(), ebt0), b),
            b,
            went,
        ),
    ensures
        forall|i: int|
            0 <= i < ebt0.len() && !done.update(b, true)[i] ==> (#[trigger] ebt1[i]) == ebt0[i]
                && after.block_spec(i) == start.block_spec(i),
        forall|i: int|
            0 <= i < ebt0.len() && done.update(b, true)[i] ==> #[trigger] reformatted(
                start,
                after,
                ebt0,
                ebt1,
                i,
                went,
            ),
        forall|i: int| 0 <= i < ebt0.len() ==> #[trigger] reformatted(start, after, ebt0, ebt1, i, false),
        forall|i: int|
            0 <= i < ebt0.len() && done[i] ==> #[trigger] reformatted(start, after, ebt0, ebt1, i, true),
{
    assert(table[b] == ebt0[b]);
    assert(before.block_spec(b) == start.block_spec(b));
    assert forall|i: int| 0 <= i < ebt0.len() && !done.update(b, true)[i] implies (
    #[trigger] ebt1[i]) == ebt0[i] && after.block_spec(i) == start.block_spec(i) by {
        assert(i != b);
        assert(!done[i]);
        assert(ebt1[i] == table[i]);
        assert(table[i] == ebt0[i]);
    }
    assert forall|i: int| 0 <= i < ebt0.len() implies #[trigger] reformatted(
        start,
        after,
        ebt0,
        ebt1,
        i,
        false,
    ) && (done.update(b, true)[i] ==> reformatted(start, after, ebt0, ebt1, i, went)) by {
        if i != b {
            assert(ebt1[i] == table[i]);
            if done[i] {
                assert(reformatted(start, before, ebt0, table, i, true));
            } else {
                assert(table[i] == ebt0[i]);
            }
        }
    }
    assert forall|i: int| 0 <= i < ebt0.len() && done[i] implies #[trigger] reformatted(
        start,
        after,
        ebt0,
        ebt1,
        i,
        true,
    ) by {
        assert(i != b);
        assert(ebt1[i] == table[i]);
        assert(after.block_spec(i) == before.block_spec(i));
        assert(reformatted(start, before, ebt0, table, i, true));
    }
}

/// Where the work on item `k` of a migration's work list was cut short,
/// the order of the migration shows in what is left.
proof fn lemma_migration_order<N: Nand>(
    start: &N,
    after: &N,
    ebt0: Seq<BlockContent>,
    ebt1: Seq<BlockContent>,
    done: Seq<bool>,
    full: Seq<(u32, FormatAction)>,
    k: int,
)
    requires
        ebt0.len() == ebt1.len(),
        ebt0.len() <= u32::MAX,
        done.len() == ebt0.len(),
        full == work_list(ebt0, prototype_of(start.layout_spec(), ebt0), ebt0.len()),
        0 <= k < full.len(),
        forall|j: int| 0 <= j < k ==> done[(#[trigger] full[j]).0 as int],
        forall|j: int| k <= j < full.len() ==> !done[(#[trigger] full[j]).0 as int],
        forall|i: int|
            0 <= i < ebt0.len() && !done[i] && i != full[k].0 ==> #[trigger] untouched(
                start,
                after,
                ebt0,
                ebt1,
                i,
            ),
        forall|i: int|
            0 <= i < ebt0.len() && done[i] ==> #[trigger] reformatted(start, after, ebt0, ebt1, i, true),
        forall|i: int| 0 <= i < ebt0.len() ==> #[trigger] reformatted(start, after, ebt0, ebt1, i, false),
    ensures
        needs_migration(ebt0) ==> in_order(start, after, ebt0, ebt1),
{
    let proto = prototype_of(start.layout_spec(), ebt0);
    lemma_work_list(ebt0, proto, ebt0.len());
    if needs_migration(ebt0) {
        assert forall|i: int, j: int|
            0 <= i < ebt0.len() && 0 <= j < ebt0.len() && touches_raw_vid(ebt0, i)
                && !touches_raw_vid(ebt0, j) && !#[trigger] untouched(
                start,
                after,
                ebt0,
                ebt1,
                i,
            ) implies #[trigger] reformatted(start, after, ebt0, ebt1, j, true) by {
            assert(reformatted(start, after, ebt0, ebt1, i, false));
            assert(reformatted(start, after, ebt0, ebt1, j, false));
            assert(!(planned_action(ebt0, proto, i) is Ignore));
            let k1 = choose|w: int| 0 <= w < full.len() && (#[trigger] full[w]).0 == i;
            assert(full[k1].0 == i);
            if k1 > k {
                assert(!done[full[k1].0 as int]);
                assert(full[k].0 != full[k1].0);
                assert(untouched(start, after, ebt0, ebt1, i));
            }
            if !(planned_action(ebt0, proto, j) is Ignore) {
                let k2 = choose|w: int| 0 <= w < full.len() && (#[trigger] full[w]).0 == j;
                assert(full[k2].0 == j);
                if k2 > k1 {
                    assert(touches_raw_vid(ebt0, full[k2].0 as int));
                }
                assert(k2 < k);
                assert(done[full[k2].0 as int]);
            }
        }
    }
}

/// When all work is done, every block is as a reformat leaves it.
proof fn lemma_reformatted_all<N: Nand>(
    start: &N,
    after: &N,
    ebt0: Seq<BlockContent>,
    ebt1: Seq<BlockContent>,
    done: Seq<bool>,
    full: Seq<(u32, FormatAction)>,
)
    requires
        ebt0.len() == ebt1.len(),
        ebt0.len() <= u32::MAX,
        done.len() == ebt0.len(),
        full == work_list(ebt0, prototype_of(start.layout_spec(), ebt0), ebt0.len()),
        forall|j: int| 0 <= j < full.len() ==> done[(#[trigger] full[j]).0 as int],
        forall|i: int|
            0 <= i < ebt0.len() && !done[i] ==> (#[trigger] ebt1[i]) == ebt0[i] && after.block_spec(i)
                == start.block_spec(i),
        forall|i: int|
            0 <= i < ebt0.len() && done[i] ==> #[trigger] reformatted(
                start,
                after,
                ebt0,
                ebt1,
                i,
                true,
            ),
    ensures
        forall|i: int| 0 <= i < ebt0.len() ==> #[trigger] reformatted(start, after, ebt0, ebt1, i, true),
{
    let proto = prototype_of(start.layout_spec(), ebt0);
    lemma_work_list(ebt0, proto, ebt0.len());
    assert forall|i: int| 0 <= i < ebt0.len() implies #[trigger] reformatted(
        start,
        after,
        ebt0,
        ebt1,
        i,
        true,
    ) by {
        if !done[i] {
            if !(planned_action(ebt0, proto, i) is Ignore) {
                let w = choose|w: int| 0 <= w < full.len() && (#[trigger] full[w]).0 == i;
                assert(done[full[w].0 as int]);
            }
            assert(ebt1[i] == ebt0[i]);
        }
    }
}

/// Whether a block is in a state in which a reformat with the prototype
/// `ec_proto` leaves nothing to do: bad, or erased with a header that has
/// the prototype's layout fields.
pub open spec fn is_clean(content: BlockContent, ec_proto: Ec) -> bool {
    match content {
        BlockContent::Bad => true,
        BlockContent::EcErased(x) => x.same_layout(ec_proto),
        _ => false,
    }
}

/// After a reformat that succeeded, no block shows the superblock layout
/// or garbage: each is bad, or erased with a header that has the layout
/// fields of the prototype.
pub proof fn lemma_format_clean<N: Nand>(
    before: &N,
    after: &N,
    ebt0: Seq<BlockContent>,
    ebt1: Seq<BlockContent>,
    i: int,
)
    requires
        0 <= i < ebt0.len(),
        reformatted(before, after, ebt0, ebt1, i, true),
    ensures
        is_clean(ebt1[i], prototype_of(before.layout_spec(), ebt0)),
        !(ebt1[i] is RawVid),
        !(ebt1[i] is Garbage),
{
}

/// A reformat does not touch a block that was erased with a header that
/// already had the layout fields of the prototype, nor a bad block: such a
/// block is the same on flash afterwards, and so is its entry.
pub proof fn lemma_format_keeps_clean<N: Nand>(
    before: &N,
    after: &N,
    ebt0: Seq<BlockContent>,
    ebt1: Seq<BlockContent>,
    i: int,
    done: bool,
)
    requires
        0 <= i < ebt0.len(),
        reformatted(before, after, ebt0, ebt1, i, done),
        is_clean(ebt0[i], prototype_of(before.layout_spec(), ebt0)),
    ensures
        after.block_spec(i) == before.block_spec(i),
        ebt1[i] == ebt0[i],
{
}

/// In a migration on a reliable device, an odd block that was erased gets
/// the erase counter of the even block of its pair, where that block
/// carried one.
pub proof fn lemma_format_copies_ec<N: Nand>(
    before: &N,
    after: &N,
    ebt0: Seq<BlockContent>,
    ebt1: Seq<BlockContent>,
    i: int,
)
    requires
        0 < i < ebt0.len(),
        i % 2 == 1,
        needs_migration(ebt0),
        before.reliable(),
        block_state(&before.block_spec(i)) == ebt0[i],
        reformatted(before, after, ebt0, ebt1, i, true),
        ebt0[i] == BlockContent::Erased,
        ebt0[i - 1].ec_of() is Some,
    ensures
        ebt1[i] == BlockContent::EcErased(
            prototype_of(before.layout_spec(), ebt0).with_ec(ebt0[i - 1].ec_of()->Some_0.ec),
        ),
{
}

/// Where every EC header in the table has the same image sequence number,
/// that number is the mode.
proof fn lemma_single_image_seq(ebt: Seq<BlockContent>, image_seq: u32)
    requires
        ec_census(ebt) > 0,
        forall|i: int|
            0 <= i < ebt.len() && (#[trigger] ebt[i]).ec_of() is Some
                ==> ebt[i].ec_of()->Some_0.image_seq == image_seq,
    ensures
        modal_image_seq(ebt) == image_seq,
{
    lemma_modal_image_seq(ebt);
    if modal_image_seq(ebt) != image_seq {
        lemma_no_votes(ebt, modal_image_seq(ebt));
    }
}

/// A table whose blocks are all clean leaves a reformat nothing to do.
pub proof fn lemma_clean_needs_no_work(layout: NandLayout, ebt: Seq<BlockContent>, ec_proto: Ec)
    requires
        ebt.len() <= u32::MAX,
        prototype_fits(layout),
        ec_proto.vid_hdr_offset == layout.bytes_per_page,
        ec_proto.data_offset == 2 * layout.bytes_per_page,
        forall|i: int| 0 <= i < ebt.len() ==> is_clean(#[trigger] ebt[i], ec_proto),
    ensures
        forall|i: int|
            0 <= i < ebt.len() ==> #[trigger] planned_action(
                ebt,
                prototype_of(layout, ebt),
                i,
            ) is Ignore,
        work_list(ebt, prototype_of(layout, ebt), ebt.len()).len() == 0,
{
    let proto = prototype_of(layout, ebt);
    assert(!needs_migration(ebt));
    assert forall|i: int| 0 <= i < ebt.len() implies #[trigger] planned_action(ebt, proto, i)
        is Ignore by {
        assert(is_clean(ebt[i], ec_proto));
        if ebt[i].ec_of() is Some {
            lemma_votes_some(ebt, i);
            lemma_single_image_seq(ebt, ec_proto.image_seq);
        }
    }
    lemma_no_work(ebt, proto, ebt.len());
}

/// Where every planned action is to do nothing, the work list is empty.
proof fn lemma_no_work(ebt: Seq<BlockContent>, ec_proto: Ec, n: nat)
    requires
        n <= ebt.len(),
        forall|i: int| 0 <= i < n ==> #[trigger] planned_action(ebt, ec_proto, i) is Ignore,
    ensures
        work_list(ebt, ec_proto, n).len() == 0,
    decreases n,
{
    if n > 0 {
        lemma_no_work(ebt, ec_proto, (n - 1) as nat);
        assert(planned_action(ebt, ec_proto, n - 1) is Ignore);
    }
}

/// Reformatting is idempotent.
///
/// Take a device whose table `ebt0` shows what is on flash, a reformat of
/// it that succeeded, and then a second reformat. After the first, the table `ebt1` again shows what is on
/// flash. The second changes neither the table nor the flash, so that a
/// scan after it finds what a scan before it found.
pub proof fn lemma_format_twice<N: Nand>(
    nand0: &N,
    nand1: &N,
    nand2: &N,
    ebt0: Seq<BlockContent>,
    ebt1: Seq<BlockContent>,
    ebt2: Seq<BlockContent>,
    done: bool,
)
    requires
        prototype_fits(nand0.layout_spec()),
        nand1.layout_spec() == nand0.layout_spec(),
        nand2.layout_spec() == nand0.layout_spec(),
        ebt0 == scan_spec(nand0),
        ebt1.len() == ebt0.len(),
        ebt2.len() == ebt0.len(),
        forall|i: int|
            0 <= i < ebt0.len() ==> #[trigger] reformatted(nand0, nand1, ebt0, ebt1, i, true),
        forall|i: int|
            0 <= i < ebt0.len() ==> #[trigger] reformatted(nand1, nand2, ebt1, ebt2, i, done),
    ensures
        ebt1 == scan_spec(nand1),
        ebt2 == ebt1,
        scan_spec(nand2) == scan_spec(nand1),
{
    let layout = nand0.layout_spec();
    let proto = prototype_of(layout, ebt0);
    assert forall|i: int| 0 <= i < ebt0.len() implies is_clean(#[trigger] ebt1[i], proto) by {
        assert(reformatted(nand0, nand1, ebt0, ebt1, i, true));
    }
    assert(ebt1 =~= scan_spec(nand1)) by {
        assert forall|i: int| 0 <= i < ebt0.len() implies ebt1[i] == scan_spec(nand1)[i] by {
            assert(reformatted(nand0, nand1, ebt0, ebt1, i, true));
        }
    }
    lemma_clean_needs_no_work(layout, ebt1, proto);
    assert forall|i: int| 0 <= i < ebt0.len() implies ebt2[i] == ebt1[i] && nand2.block_spec(i)
        == nand1.block_spec(i) by {
        assert(reformatted(nand1, nand2, ebt1, ebt2, i, done));
        assert(planned_action(ebt1, prototype_of(layout, ebt1), i) is Ignore);
    }
    assert(ebt2 =~= ebt1);
    assert(scan_spec(nand2) =~= scan_spec(nand1));
}

} // verus!
