//! Choosing the physical blocks that an image is written to.
//!
//! The erased blocks are sorted into buckets by their erase counters, and
//! the buckets are used up in an order that a percentile of the erase
//! counters gives. A percentile, rather than the lowest counter, keeps the
//! wear level decent without crowding blocks that are likely static onto
//! the least worn blocks, from which UBI's own wear leveling would soon move
//! them anyway.

use crate::ubi::keys::{lemma_rising_same, lemma_walk, rising};
use crate::ubi::scan::BlockContent;
use std::collections::BTreeMap;
use vstd::multiset::Multiset;
use vstd::prelude::*;
use vstd::std_specs::iter::IteratorSpec;

verus! {

/// The percentile of the erase counters at which blocks are picked.
pub const PERCENTILE: u64 = 25;

/// The blocks that share an erase counter, in rising order, with that
/// counter.
pub type BucketSpec = (u64, Seq<u32>);

/// The index of the first bucket from `from` on whose erase counter is not
/// below `ec`.
pub open spec fn lower_bound(buckets: Seq<BucketSpec>, ec: u64, from: int) -> int
    decreases buckets.len() - from,
{
    if from >= buckets.len() {
        buckets.len() as int
    } else if buckets[from].0 >= ec {
        from
    } else {
        lower_bound(buckets, ec, from + 1)
    }
}

/// The buckets with `block` added to the bucket of `ec`; a bucket that was
/// not there yet takes its place in the order of the erase counters.
pub open spec fn with_block(buckets: Seq<BucketSpec>, ec: u64, block: u32) -> Seq<BucketSpec> {
    let at = lower_bound(buckets, ec, 0);
    if at < buckets.len() && buckets[at].0 == ec {
        buckets.update(at, (ec, buckets[at].1.push(block)))
    } else {
        buckets.insert(at, (ec, seq![block]))
    }
}

/// The buckets of the erased blocks with an EC header among the first `n`
/// blocks of the table.
pub open spec fn buckets_of(ebt: Seq<BlockContent>, n: nat) -> Seq<BucketSpec>
    decreases n,
{
    if n == 0 {
        Seq::empty()
    } else {
        match ebt[n - 1] {
            BlockContent::EcErased(ec) => with_block(
                buckets_of(ebt, (n - 1) as nat),
                ec.ec,
                (n - 1) as u32,
            ),
            _ => buckets_of(ebt, (n - 1) as nat),
        }
    }
}

/// The number of blocks in the buckets from `from` on.
pub open spec fn blocks_in(buckets: Seq<BucketSpec>, from: int) -> nat
    decreases buckets.len() - from,
{
    if from >= buckets.len() {
        0
    } else {
        buckets[from].1.len() + blocks_in(buckets, from + 1)
    }
}

/// The first bucket from `from` on that holds at least `threshold` blocks,
/// where `threshold` goes down by the size of each bucket that is passed
/// over.
pub open spec fn bucket_at(buckets: Seq<BucketSpec>, from: int, threshold: int) -> int
    decreases buckets.len() - from,
{
    if from >= buckets.len() {
        buckets.len() as int
    } else if buckets[from].1.len() >= threshold {
        from
    } else {
        bucket_at(buckets, from + 1, threshold - buckets[from].1.len())
    }
}

/// The bucket that is picked: the one in which the percentile of the
/// erase counters of all blocks in the buckets lies.
pub open spec fn picked(buckets: Seq<BucketSpec>) -> int {
    bucket_at(buckets, 0, blocks_in(buckets, 0) * PERCENTILE as int / 100)
}

/// The buckets but the one at `at`.
pub open spec fn without(buckets: Seq<BucketSpec>, at: int) -> Seq<BucketSpec> {
    buckets.take(at) + buckets.skip(at + 1)
}

/// The order in which the blocks of the buckets are used: those of the
/// picked bucket, then those of the bucket picked among the others, and so
/// on. The percentile is taken anew at each pick.
pub open spec fn placement_order(buckets: Seq<BucketSpec>) -> Seq<u32>
    decreases buckets.len(),
{
    if buckets.len() == 0 || picked(buckets) < 0 || picked(buckets) >= buckets.len() {
        Seq::empty()
    } else {
        buckets[picked(buckets)].1 + placement_order(without(buckets, picked(buckets)))
    }
}

/// A threshold that is no more than the number of blocks from `from` on
/// is met by one of these buckets.
pub proof fn lemma_bucket_at(buckets: Seq<BucketSpec>, from: int, threshold: int)
    requires
        0 <= from < buckets.len(),
        threshold <= blocks_in(buckets, from),
    ensures
        from <= bucket_at(buckets, from, threshold) < buckets.len(),
    decreases buckets.len() - from,
{
    if buckets[from].1.len() < threshold {
        if from + 1 < buckets.len() {
            lemma_bucket_at(buckets, from + 1, threshold - buckets[from].1.len());
        } else {
            assert(blocks_in(buckets, from + 1) == 0);
        }
    }
}

/// Where there is a bucket, one is picked.
pub proof fn lemma_picked(buckets: Seq<BucketSpec>)
    requires
        buckets.len() > 0,
    ensures
        0 <= picked(buckets) < buckets.len(),
{
    let total = blocks_in(buckets, 0) as int;
    assert(total * PERCENTILE as int / 100 <= total) by (nonlinear_arith)
        requires
            total >= 0,
            PERCENTILE == 25,
    ;
    lemma_bucket_at(buckets, 0, total * PERCENTILE as int / 100);
}

/// The buckets of the erased blocks of a table, by their erase counters,
/// and the place in them that has been reached.
pub struct BlockPicker {
    buckets: BTreeMap<u64, Vec<u32>>,
    listing: Ghost<Seq<BucketSpec>>,
    current: Vec<u32>,
    next: usize,
}

/// Whether `listing` lists the buckets of `map` in the order of their
/// erase counters.
spec fn listed(map: Map<u64, Vec<u32>>, listing: Seq<BucketSpec>) -> bool {
    &&& forall|i: int, j: int|
        0 <= i < j < listing.len() ==> (#[trigger] listing[i]).0 < (#[trigger] listing[j]).0
    &&& forall|i: int|
        0 <= i < listing.len() ==> map.contains_key((#[trigger] listing[i]).0)
            && map[listing[i].0]@ == listing[i].1
    &&& forall|ec: u64| #[trigger]
        map.contains_key(ec) ==> exists|i: int|
            0 <= i < listing.len() && (#[trigger] listing[i]).0 == ec
}

impl BlockPicker {
    /// The blocks that are still to be handed out, in their order.
    pub closed spec fn order(&self) -> Seq<u32> {
        self.current@.skip(self.next as int) + placement_order(self.listing@)
    }

    /// The representation invariant.
    pub closed spec fn wf(&self) -> bool {
        &&& self.next <= self.current@.len()
        &&& blocks_in(self.listing@, 0) <= u32::MAX
        &&& listed(self.buckets@, self.listing@)
    }

    /// Sort the erased blocks of the table that carry an EC header into
    /// buckets.
    pub fn new(ebt: &[BlockContent]) -> (r: Self)
        requires
            ebt@.len() <= u32::MAX,
        ensures
            r.wf(),
            r.order() == placement_order(buckets_of(ebt@, ebt@.len())),
    {
        let mut buckets: BTreeMap<u64, Vec<u32>> = BTreeMap::new();
        let ghost mut listing: Seq<BucketSpec> = Seq::empty();
        let mut i: usize = 0;
        while i < ebt.len()
            invariant
                i <= ebt@.len(),
                ebt@.len() <= u32::MAX,
                listed(buckets@, listing),
                listing == buckets_of(ebt@, i as nat),
                blocks_in(listing, 0) <= i,
            decreases ebt@.len() - i,
        {
            if let BlockContent::EcErased(ec) = ebt[i] {
                add_block(&mut buckets, ec.ec, i as u32, Ghost(listing));
                proof {
                    lemma_with_block_count(listing, ec.ec, i as u32);
                    listing = with_block(listing, ec.ec, i as u32);
                }
            }
            i += 1;
        }
        let r = Self { buckets, listing: Ghost(listing), current: Vec::new(), next: 0 };
        assert(r.current@.skip(0) =~= Seq::empty());
        assert(r.order() =~= placement_order(buckets_of(ebt@, ebt@.len())));
        r
    }

    /// The next block to try, or `None` when all have been handed out.
    pub fn next_block(&mut self) -> (r: Option<u32>)
        requires
            old(self).wf(),
        ensures
            final(self).wf(),
            match r {
                Some(block) => old(self).order().len() > 0 && block == old(self).order()[0]
                    && final(self).order() == old(self).order().drop_first(),
                None => old(self).order().len() == 0 && final(self).order().len() == 0,
            },
    {
        loop
            invariant
                self.wf(),
                self.order() == old(self).order(),
            decreases self.listing@.len() + 1 - (if self.next < self.current@.len() {
                1nat
            } else {
                0
            }),
        {
            if self.next < self.current.len() {
                let block = self.current[self.next];
                proof {
                    assert(self.current@.skip(self.next as int + 1) =~= self.current@.skip(
                        self.next as int,
                    ).drop_first());
                    assert((self.current@.skip(self.next as int + 1) + placement_order(
                        self.listing@,
                    )) =~= self.order().drop_first());
                }
                self.next = self.next + 1;
                return Some(block);
            }
            let ghost specs = self.listing@;
            let ghost at = picked(specs);
            proof {
                assert(self.current@.skip(self.next as int) =~= Seq::empty());
            }
            let ec = match pick_bucket(&self.buckets, Ghost(specs)) {
                Some(ec) => ec,
                None => {
                    return None;
                },
            };
            proof {
                lemma_picked(specs);
                lemma_listed_less(self.buckets@, specs, at);
            }
            let blocks = match self.buckets.remove(&ec) {
                Some(blocks) => blocks,
                None => Vec::new(),
            };
            self.listing = Ghost(without(specs, at));
            proof {
                lemma_remove_count(specs, at, 0);
                assert(blocks@.skip(0) =~= blocks@);
            }
            self.current = blocks;
            self.next = 0;
            if self.current.len() == 0 {
                assert(self.order() =~= old(self).order());
            }
        }
    }
}

/// The lower bound parts the buckets: those before it have a lower erase
/// counter, and the one at it has none.
proof fn lemma_bound_parts(buckets: Seq<BucketSpec>, ec: u64, from: int)
    requires
        0 <= from <= buckets.len(),
    ensures
        from <= lower_bound(buckets, ec, from) <= buckets.len(),
        forall|i: int| from <= i < lower_bound(buckets, ec, from) ==> (#[trigger] buckets[i]).0 < ec,
        lower_bound(buckets, ec, from) < buckets.len() ==> buckets[lower_bound(
            buckets,
            ec,
            from,
        )].0 >= ec,
    decreases buckets.len() - from,
{
    if from < buckets.len() && buckets[from].0 < ec {
        lemma_bound_parts(buckets, ec, from + 1);
    }
}

/// A map that has taken a block into the bucket of `ec` is listed by the
/// buckets with that block.
proof fn lemma_listed_more(
    map: Map<u64, Vec<u32>>,
    after: Map<u64, Vec<u32>>,
    listing: Seq<BucketSpec>,
    ec: u64,
    block: u32,
)
    requires
        listed(map, listing),
        after.contains_key(ec),
        after[ec]@ == (if map.contains_key(ec) {
            map[ec]@
        } else {
            Seq::empty()
        }).push(block),
        forall|k: u64| k != ec ==> (after.contains_key(k) <==> map.contains_key(k)),
        forall|k: u64| k != ec && map.contains_key(k) ==> after[k] == map[k],
    ensures
        listed(after, with_block(listing, ec, block)),
{
    lemma_bound_parts(listing, ec, 0);
    let at = lower_bound(listing, ec, 0);
    let longer = with_block(listing, ec, block);
    if at < listing.len() && listing[at].0 == ec {
        assert(longer == listing.update(at, (ec, listing[at].1.push(block))));
        assert forall|i: int| 0 <= i < longer.len() implies (#[trigger] longer[i]).0
            == listing[i].0 by {}
        assert forall|i: int, j: int| 0 <= i < j < longer.len() implies (#[trigger] longer[i]).0 < (
        #[trigger] longer[j]).0 by {
            assert(listing[i].0 < listing[j].0);
        }
        assert forall|i: int| 0 <= i < longer.len() implies after.contains_key(
            (#[trigger] longer[i]).0,
        ) && after[longer[i].0]@ == longer[i].1 by {
            assert(map.contains_key(listing[i].0));
            if i != at {
                if i < at {
                    assert(listing[i].0 < listing[at].0);
                } else {
                    assert(listing[at].0 < listing[i].0);
                }
            }
        }
        assert forall|k: u64| #[trigger] after.contains_key(k) implies exists|i: int|
            0 <= i < longer.len() && (#[trigger] longer[i]).0 == k by {
            if k == ec {
                assert(longer[at].0 == k);
            } else {
                assert(map.contains_key(k));
                let i = choose|i: int| 0 <= i < listing.len() && (#[trigger] listing[i]).0 == k;
                assert(longer[i].0 == k);
            }
        }
    } else {
        assert(longer == listing.insert(at, (ec, seq![block])));
        if map.contains_key(ec) {
            let i = choose|i: int| 0 <= i < listing.len() && (#[trigger] listing[i]).0 == ec;
            if i > at {
                assert(listing[at].0 < listing[i].0);
            }
        }
        assert(after[ec]@ =~= seq![block]);
        assert forall|i: int| 0 <= i < longer.len() implies #[trigger] longer[i] == (if i < at {
            listing[i]
        } else if i == at {
            (ec, seq![block])
        } else {
            listing[i - 1]
        }) by {}
        assert forall|i: int| at <= i < listing.len() implies ec < (#[trigger] listing[i]).0 by {
            if at < i {
                assert(listing[at].0 < listing[i].0);
            }
        }
        assert forall|i: int, j: int| 0 <= i < j < longer.len() implies (#[trigger] longer[i]).0 < (
        #[trigger] longer[j]).0 by {
            if j < at {
                assert(listing[i].0 < listing[j].0);
            } else if j == at {
                assert(listing[i].0 < ec);
            } else if i < at {
                assert(listing[i].0 < ec);
                assert(ec < listing[j - 1].0);
            } else if i == at {
                assert(ec < listing[j - 1].0);
            } else {
                assert(listing[i - 1].0 < listing[j - 1].0);
            }
        }
        assert forall|i: int| 0 <= i < longer.len() implies after.contains_key(
            (#[trigger] longer[i]).0,
        ) && after[longer[i].0]@ == longer[i].1 by {
            if i < at {
                assert(listing[i].0 < ec);
                assert(map.contains_key(listing[i].0));
            } else if i > at {
                assert(ec < listing[i - 1].0);
                assert(map.contains_key(listing[i - 1].0));
            }
        }
        assert forall|k: u64| #[trigger] after.contains_key(k) implies exists|i: int|
            0 <= i < longer.len() && (#[trigger] longer[i]).0 == k by {
            if k == ec {
                assert(longer[at].0 == k);
            } else {
                assert(map.contains_key(k));
                let i = choose|i: int| 0 <= i < listing.len() && (#[trigger] listing[i]).0 == k;
                if i < at {
                    assert(longer[i].0 == k);
                } else {
                    assert(longer[i + 1].0 == k);
                }
            }
        }
    }
}

/// A map that has given up the bucket at `at` is listed by the other
/// buckets.
proof fn lemma_listed_less(map: Map<u64, Vec<u32>>, listing: Seq<BucketSpec>, at: int)
    requires
        listed(map, listing),
        0 <= at < listing.len(),
    ensures
        map.contains_key(listing[at].0),
        map[listing[at].0]@ == listing[at].1,
        listed(map.remove(listing[at].0), without(listing, at)),
{
    let ec = listing[at].0;
    let after = map.remove(ec);
    let fewer = without(listing, at);
    assert forall|i: int| 0 <= i < fewer.len() implies #[trigger] fewer[i] == (if i < at {
        listing[i]
    } else {
        listing[i + 1]
    }) by {}
    assert forall|i: int, j: int| 0 <= i < j < fewer.len() implies (#[trigger] fewer[i]).0 < (
    #[trigger] fewer[j]).0 by {
        if j < at {
            assert(listing[i].0 < listing[j].0);
        } else if i < at {
            assert(listing[i].0 < listing[j + 1].0);
        } else {
            assert(listing[i + 1].0 < listing[j + 1].0);
        }
    }
    assert forall|i: int| 0 <= i < fewer.len() implies after.contains_key((#[trigger] fewer[i]).0)
        && after[fewer[i].0]@ == fewer[i].1 by {
        if i < at {
            assert(listing[i].0 < listing[at].0);
            assert(map.contains_key(listing[i].0));
        } else {
            assert(listing[at].0 < listing[i + 1].0);
            assert(map.contains_key(listing[i + 1].0));
        }
    }
    assert forall|k: u64| #[trigger] after.contains_key(k) implies exists|i: int|
        0 <= i < fewer.len() && (#[trigger] fewer[i]).0 == k by {
        assert(map.contains_key(k));
        let i = choose|i: int| 0 <= i < listing.len() && (#[trigger] listing[i]).0 == k;
        if i < at {
            assert(fewer[i].0 == k);
        } else {
            assert(fewer[i - 1].0 == k);
        }
    }
}

/// A walk over the map finds the erase counters of the buckets, one after
/// the other.
proof fn lemma_walk_listed(map: &BTreeMap<u64, Vec<u32>>, listing: Seq<BucketSpec>)
    requires
        listed(map@, listing),
    ensures
        map.keys().remaining().unref().len() == listing.len(),
        forall|i: int|
            0 <= i < listing.len() ==> (#[trigger] map.keys().remaining().unref()[i])
                == listing[i].0,
{
    let keys = map.keys().remaining().unref();
    let counters = Seq::new(listing.len(), |i: int| listing[i].0);
    lemma_walk(map);
    assert(rising(counters)) by {
        assert forall|i: int, j: int| 0 <= i < j < counters.len() implies counters[i]
            < counters[j] by {
            assert(listing[i].0 < listing[j].0);
        }
    }
    assert forall|x: u64| keys.contains(x) <==> counters.contains(x) by {
        if keys.contains(x) {
            assert(keys.to_set().contains(x));
            assert(map@.contains_key(x));
            let i = choose|i: int| 0 <= i < listing.len() && (#[trigger] listing[i]).0 == x;
            assert(counters[i] == x);
        }
        if counters.contains(x) {
            let i = choose|i: int| 0 <= i < counters.len() && counters[i] == x;
            assert(map@.contains_key(listing[i].0));
            assert(map@.dom().contains(x));
            assert(keys.to_set().contains(x));
        }
    }
    lemma_rising_same(keys, counters);
}

/// The number of blocks after a bucket was taken out.
proof fn lemma_remove_count(buckets: Seq<BucketSpec>, at: int, from: int)
    requires
        0 <= from <= at < buckets.len(),
    ensures
        blocks_in(without(buckets, at), from) + buckets[at].1.len() == blocks_in(buckets, from),
    decreases buckets.len() - from,
{
    if from < at {
        lemma_remove_count(buckets, at, from + 1);
        assert(without(buckets, at)[from] == buckets[from]);
    } else {
        assert(without(buckets, at).skip(from) =~= buckets.skip(from + 1));
        lemma_same_tail(without(buckets, at), buckets, from, from + 1);
    }
}

/// Buckets that agree from some place on hold the same number of blocks
/// from there on.
proof fn lemma_same_tail(a: Seq<BucketSpec>, b: Seq<BucketSpec>, from_a: int, from_b: int)
    requires
        0 <= from_a <= a.len(),
        0 <= from_b <= b.len(),
        a.skip(from_a) == b.skip(from_b),
    ensures
        blocks_in(a, from_a) == blocks_in(b, from_b),
    decreases a.len() - from_a,
{
    assert(a.skip(from_a).len() == a.len() - from_a);
    assert(b.skip(from_b).len() == b.len() - from_b);
    if from_a < a.len() {
        assert(a[from_a] == a.skip(from_a)[0]);
        assert(b[from_b] == b.skip(from_b)[0]);
        assert(a.skip(from_a + 1) =~= a.skip(from_a).skip(1));
        assert(b.skip(from_b + 1) =~= b.skip(from_b).skip(1));
        lemma_same_tail(a, b, from_a + 1, from_b + 1);
    }
}

/// Adding a block adds one to the number of blocks.
proof fn lemma_with_block_count(buckets: Seq<BucketSpec>, ec: u64, block: u32)
    ensures
        blocks_in(with_block(buckets, ec, block), 0) == blocks_in(buckets, 0) + 1,
{
    lemma_bound_parts(buckets, ec, 0);
    let at = lower_bound(buckets, ec, 0);
    lemma_count_at(buckets, ec, block, at, 0);
}

proof fn lemma_count_at(buckets: Seq<BucketSpec>, ec: u64, block: u32, at: int, from: int)
    requires
        0 <= from <= at <= buckets.len(),
    ensures
        at < buckets.len() ==> blocks_in(
            buckets.update(at, (ec, buckets[at].1.push(block))),
            from,
        ) == blocks_in(buckets, from) + 1,
        blocks_in(buckets.insert(at, (ec, seq![block])), from) == blocks_in(buckets, from) + 1,
    decreases buckets.len() - from,
{
    let grown = buckets.update(at, (ec, buckets[at].1.push(block)));
    let wider = buckets.insert(at, (ec, seq![block]));
    if from < at {
        lemma_count_at(buckets, ec, block, at, from + 1);
        assert(wider[from] == buckets[from]);
    } else {
        if at < buckets.len() {
            assert(grown.skip(from + 1) =~= buckets.skip(from + 1));
            lemma_same_tail(grown, buckets, from + 1, from + 1);
        }
        assert(wider[from] == (ec, seq![block]));
        assert(wider.skip(from + 1) =~= buckets.skip(from));
        lemma_same_tail(wider, buckets, from + 1, from);
    }
}

/// Add `block` to the bucket of `ec`, which is made where it is not there.
fn add_block(
    buckets: &mut BTreeMap<u64, Vec<u32>>,
    ec: u64,
    block: u32,
    Ghost(listing): Ghost<Seq<BucketSpec>>,
)
    requires
        listed(old(buckets)@, listing),
    ensures
        listed(final(buckets)@, with_block(listing, ec, block)),
{
    let mut blocks = match buckets.remove(&ec) {
        Some(blocks) => blocks,
        None => Vec::new(),
    };
    blocks.push(block);
    buckets.insert(ec, blocks);
    proof {
        lemma_listed_more(old(buckets)@, buckets@, listing, ec, block);
    }
}

/// Count the blocks in the buckets.
fn count_blocks(buckets: &BTreeMap<u64, Vec<u32>>, Ghost(listing): Ghost<Seq<BucketSpec>>) -> (r:
    u64)
    requires
        listed(buckets@, listing),
        blocks_in(listing, 0) <= u32::MAX,
    ensures
        r == blocks_in(listing, 0),
{
    let ghost keys = buckets.keys().remaining().unref();
    proof {
        lemma_walk_listed(buckets, listing);
    }
    let mut sum: u64 = 0;
    for ec in it: buckets.keys()
        invariant
            it.seq().unref() == keys,
            keys.len() == listing.len(),
            forall|i: int| 0 <= i < listing.len() ==> (#[trigger] keys[i]) == listing[i].0,
            listed(buckets@, listing),
            blocks_in(listing, 0) <= u32::MAX,
            sum + blocks_in(listing, it.index()) == blocks_in(listing, 0),
    {
        assert(*ec == keys[it.index()]);
        assert(buckets@.contains_key(listing[it.index()].0));
        match buckets.get(ec) {
            Some(blocks) => {
                sum = sum + blocks.len() as u64;
            },
            None => {},
        }
    }
    sum
}

/// Find the bucket in which the percentile lies, by its erase counter.
fn pick_bucket(buckets: &BTreeMap<u64, Vec<u32>>, Ghost(listing): Ghost<Seq<BucketSpec>>) -> (r:
    Option<u64>)
    requires
        listed(buckets@, listing),
        blocks_in(listing, 0) <= u32::MAX,
    ensures
        listing.len() == 0 ==> r is None,
        listing.len() > 0 ==> r == Some(listing[picked(listing)].0),
{
    let sum = count_blocks(buckets, Ghost(listing));
    let mut threshold: u64 = sum * PERCENTILE / 100;
    let ghost keys = buckets.keys().remaining().unref();
    proof {
        lemma_walk_listed(buckets, listing);
        if listing.len() > 0 {
            lemma_picked(listing);
        }
    }
    for ec in it: buckets.keys()
        invariant
            it.seq().unref() == keys,
            keys.len() == listing.len(),
            forall|i: int| 0 <= i < listing.len() ==> (#[trigger] keys[i]) == listing[i].0,
            listed(buckets@, listing),
            listing.len() > 0 ==> 0 <= picked(listing) < listing.len(),
            picked(listing) == bucket_at(listing, it.index(), threshold as int),
    {
        assert(*ec == keys[it.index()]);
        assert(buckets@.contains_key(listing[it.index()].0));
        match buckets.get(ec) {
            Some(blocks) => {
                if blocks.len() as u64 >= threshold {
                    return Some(*ec);
                }
                threshold = threshold - blocks.len() as u64;
            },
            None => {},
        }
    }
    None
}

/// The blocks in the buckets, each as often as it occurs.
pub open spec fn pool(buckets: Seq<BucketSpec>) -> Multiset<u32>
    decreases buckets.len(),
{
    if buckets.len() == 0 {
        Multiset::empty()
    } else {
        pool(buckets.drop_last()).add(buckets.last().1.to_multiset())
    }
}

/// The erased blocks with an EC header among the first `n` blocks of the
/// table.
pub open spec fn erased_pool(ebt: Seq<BlockContent>, n: nat) -> Multiset<u32>
    decreases n,
{
    if n == 0 {
        Multiset::empty()
    } else if ebt[n - 1] is EcErased {
        erased_pool(ebt, (n - 1) as nat).insert((n - 1) as u32)
    } else {
        erased_pool(ebt, (n - 1) as nat)
    }
}

/// The pool of buckets that are put one behind the other.
proof fn lemma_pool_concat(a: Seq<BucketSpec>, b: Seq<BucketSpec>)
    ensures
        pool(a + b) == pool(a).add(pool(b)),
    decreases b.len(),
{
    broadcast use vstd::multiset::group_multiset_axioms;

    if b.len() == 0 {
        assert(a + b =~= a);
        assert(pool(a).add(pool(b)) =~= pool(a));
    } else {
        assert((a + b).drop_last() =~= a + b.drop_last());
        assert((a + b).last() == b.last());
        lemma_pool_concat(a, b.drop_last());
        assert(pool(a + b) =~= pool(a).add(pool(b)));
    }
}

/// The pool of a single bucket.
proof fn lemma_pool_one(bucket: BucketSpec)
    ensures
        pool(seq![bucket]) == bucket.1.to_multiset(),
{
    broadcast use vstd::multiset::group_multiset_axioms;

    assert(seq![bucket].drop_last() =~= Seq::<BucketSpec>::empty());
    assert(seq![bucket].last() == bucket);
    assert(pool(seq![bucket].drop_last()) =~= Multiset::<u32>::empty());
    assert(pool(seq![bucket]) =~= bucket.1.to_multiset());
}

/// Taking a bucket out takes its blocks from the pool.
proof fn lemma_pool_without(buckets: Seq<BucketSpec>, at: int)
    requires
        0 <= at < buckets.len(),
    ensures
        pool(buckets) == pool(without(buckets, at)).add(buckets[at].1.to_multiset()),
{
    broadcast use vstd::multiset::group_multiset_axioms;

    let head = buckets.take(at);
    let tail = buckets.skip(at + 1);
    assert(buckets =~= head + seq![buckets[at]] + tail);
    lemma_pool_concat(head + seq![buckets[at]], tail);
    lemma_pool_concat(head, seq![buckets[at]]);
    lemma_pool_one(buckets[at]);
    lemma_pool_concat(head, tail);
    assert(pool(buckets) =~= pool(without(buckets, at)).add(buckets[at].1.to_multiset()));
}

/// The blocks come out of the buckets in some order: each as often as it
/// is in them.
pub proof fn lemma_order_pool(buckets: Seq<BucketSpec>)
    ensures
        placement_order(buckets).to_multiset() == pool(buckets),
    decreases buckets.len(),
{
    broadcast use vstd::multiset::group_multiset_axioms;

    if buckets.len() == 0 {
        let order = placement_order(buckets);
        order.to_multiset_ensures();
        vstd::multiset::lemma_multiset_empty_len(order.to_multiset());
        assert(order.to_multiset() =~= pool(buckets));
    } else {
        lemma_picked(buckets);
        let at = picked(buckets);
        lemma_order_pool(without(buckets, at));
        lemma_pool_without(buckets, at);
        vstd::seq_lib::lemma_multiset_commutative(
            buckets[at].1,
            placement_order(without(buckets, at)),
        );
        assert(placement_order(buckets).to_multiset() =~= pool(buckets));
    }
}

/// A block that is added to the buckets is added to the pool.
proof fn lemma_pool_with_block(buckets: Seq<BucketSpec>, ec: u64, block: u32)
    ensures
        pool(with_block(buckets, ec, block)) == pool(buckets).insert(block),
{
    broadcast use vstd::multiset::group_multiset_axioms;

    lemma_bound_parts(buckets, ec, 0);
    let at = lower_bound(buckets, ec, 0);
    let head = buckets.take(at);
    if at < buckets.len() && buckets[at].0 == ec {
        let tail = buckets.skip(at + 1);
        let grown = (ec, buckets[at].1.push(block));
        assert(with_block(buckets, ec, block) =~= head + seq![grown] + tail);
        assert(buckets =~= head + seq![buckets[at]] + tail);
        lemma_pool_concat(head + seq![grown], tail);
        lemma_pool_concat(head, seq![grown]);
        lemma_pool_one(grown);
        lemma_pool_concat(head + seq![buckets[at]], tail);
        lemma_pool_concat(head, seq![buckets[at]]);
        lemma_pool_one(buckets[at]);
        vstd::seq_lib::to_multiset_build(buckets[at].1, block);
        assert(pool(with_block(buckets, ec, block)) =~= pool(buckets).insert(block));
    } else {
        let tail = buckets.skip(at);
        let fresh = (ec, seq![block]);
        assert(with_block(buckets, ec, block) =~= head + seq![fresh] + tail);
        assert(buckets =~= head + tail);
        lemma_pool_concat(head + seq![fresh], tail);
        lemma_pool_concat(head, seq![fresh]);
        lemma_pool_one(fresh);
        lemma_pool_concat(head, tail);
        assert(seq![block] =~= Seq::<u32>::empty().push(block));
        vstd::seq_lib::to_multiset_build(Seq::<u32>::empty(), block);
        assert(Seq::<u32>::empty().to_multiset() =~= Multiset::<u32>::empty()) by {
            Seq::<u32>::empty().to_multiset_ensures();
        }
        assert(pool(with_block(buckets, ec, block)) =~= pool(buckets).insert(block));
    }
}

/// The buckets hold the erased blocks with an EC header.
proof fn lemma_buckets_pool(ebt: Seq<BlockContent>, n: nat)
    ensures
        pool(buckets_of(ebt, n)) == erased_pool(ebt, n),
    decreases n,
{
    if n > 0 {
        lemma_buckets_pool(ebt, (n - 1) as nat);
        match ebt[n - 1] {
            BlockContent::EcErased(ec) => {
                lemma_pool_with_block(buckets_of(ebt, (n - 1) as nat), ec.ec, (n - 1) as u32);
            },
            _ => {},
        }
    }
}

/// Each erased block with an EC header among the first `n` blocks is in
/// the pool once, and nothing else is.
proof fn lemma_erased_pool(ebt: Seq<BlockContent>, n: nat, block: u32)
    requires
        n <= ebt.len(),
        n <= u32::MAX,
    ensures
        erased_pool(ebt, n).count(block) == if block < n && ebt[block as int] is EcErased {
            1nat
        } else {
            0
        },
    decreases n,
{
    broadcast use vstd::multiset::group_multiset_axioms;

    if n > 0 {
        lemma_erased_pool(ebt, (n - 1) as nat, block);
    }
}

/// The blocks that are handed out for a table are its erased blocks with
/// an EC header, each once.
pub proof fn lemma_placement(ebt: Seq<BlockContent>)
    requires
        ebt.len() <= u32::MAX,
    ensures
        placement_order(buckets_of(ebt, ebt.len())).no_duplicates(),
        forall|j: int|
            0 <= j < placement_order(buckets_of(ebt, ebt.len())).len() ==> (
            #[trigger] placement_order(buckets_of(ebt, ebt.len()))[j]) < ebt.len()
                && ebt[placement_order(buckets_of(ebt, ebt.len()))[j] as int] is EcErased,
        forall|i: int|
            0 <= i < ebt.len() && (#[trigger] ebt[i]) is EcErased ==> placement_order(
                buckets_of(ebt, ebt.len()),
            ).contains(i as u32),
{
    broadcast use vstd::multiset::group_multiset_axioms;

    let order = placement_order(buckets_of(ebt, ebt.len()));
    lemma_order_pool(buckets_of(ebt, ebt.len()));
    lemma_buckets_pool(ebt, ebt.len());
    order.to_multiset_ensures();
    assert forall|x: u32| order.to_multiset().count(x) <= 1 by {
        lemma_erased_pool(ebt, ebt.len(), x);
    }
    order.lemma_multiset_has_no_duplicates_conv();
    assert forall|j: int| 0 <= j < order.len() implies (#[trigger] order[j]) < ebt.len()
        && ebt[order[j] as int] is EcErased by {
        assert(order.contains(order[j]));
        lemma_erased_pool(ebt, ebt.len(), order[j]);
    }
    assert forall|i: int| 0 <= i < ebt.len() && (#[trigger] ebt[i]) is EcErased implies order.contains(
        i as u32,
    ) by {
        lemma_erased_pool(ebt, ebt.len(), i as u32);
    }
}

} // verus!
