//! A cache of device blocks, bounded in size, that forgets the oldest first.

use std::collections::{HashMap, VecDeque};
use std::sync::Arc;
use vstd::prelude::*;

verus! {

broadcast use vstd::std_specs::hash::group_hash_axioms;

/// Number of independent parts of a shared cache.
pub const SHARDS: usize = 16;

/// Blocks under their device offsets, in the order in which they came.
pub struct BlockCacheInner {
    map: HashMap<u64, Arc<Vec<u8>>>,
    /// Offsets in the order of insertion.
    order: VecDeque<u64>,
    capacity: usize,
    block: usize,
}

/// What a cache holds.
pub struct Cached {
    /// Offsets, the oldest first.
    pub order: Seq<u64>,
    pub blocks: Map<u64, Seq<u8>>,
}

impl Cached {
    /// The offsets are those of the blocks, none twice; there are no more than
    /// fit, and all blocks have the same length.
    pub open spec fn wf(self, capacity: nat, block: nat) -> bool {
        &&& self.order.no_duplicates()
        &&& forall|k: u64| #[trigger]
            self.blocks.contains_key(k) <==> self.order.contains(k)
        &&& self.order.len() <= capacity || self.order.len() <= 1
        &&& forall|k: u64| #[trigger]
            self.blocks.contains_key(k) ==> self.blocks[k].len() == block
    }

    /// What remains when room is made for one more block.
    pub open spec fn with_room(self, capacity: nat) -> Cached {
        if self.order.len() > 0 && self.order.len() >= capacity {
            Cached {
                order: self.order.drop_first(),
                blocks: self.blocks.remove(self.order[0]),
            }
        } else {
            self
        }
    }

    /// What a cache holds after a block was offered: it is taken in if it has
    /// the right length and nothing is held for its offset yet.
    pub open spec fn after_put(self, capacity: nat, block: nat, off: u64, data: Seq<u8>) -> Cached {
        if data.len() != block || self.blocks.contains_key(off) {
            self
        } else {
            let kept = self.with_room(capacity);
            Cached { order: kept.order.push(off), blocks: kept.blocks.insert(off, data) }
        }
    }

    /// Whether every block held is what the device has at its offset.
    pub open spec fn agrees_with(self, device: Seq<u8>, block: nat) -> bool {
        forall|k: u64| #[trigger]
            self.blocks.contains_key(k) ==> k + block <= device.len() && self.blocks[k]
                == device.subrange(k as int, k + block)
    }
}

impl View for BlockCacheInner {
    type V = Cached;

    closed spec fn view(&self) -> Cached {
        Cached {
            order: self.order@,
            blocks: Map::new(|k: u64| self.map@.contains_key(k), |k: u64| self.map@[k]@),
        }
    }
}

impl BlockCacheInner {
    pub closed spec fn capacity(&self) -> nat {
        self.capacity as nat
    }

    pub closed spec fn block(&self) -> nat {
        self.block as nat
    }

    pub open spec fn wf(&self) -> bool {
        self@.wf(self.capacity(), self.block())
    }

    pub fn new(capacity: usize, block: usize) -> (c: Self)
        ensures
            c.wf(),
            c.capacity() == capacity,
            c.block() == block,
            c@.order == Seq::<u64>::empty(),
            c@.blocks == Map::<u64, Seq<u8>>::empty(),
    {
        let c = BlockCacheInner {
            map: HashMap::with_capacity(capacity),
            order: VecDeque::with_capacity(capacity),
            capacity,
            block,
        };
        assert(c@.blocks =~= Map::<u64, Seq<u8>>::empty());
        c
    }

    /// The block at an offset, if it is held.
    pub fn get(&self, off: u64) -> (r: Option<Arc<Vec<u8>>>)
        ensures
            r is Some <==> self@.blocks.contains_key(off),
            r is Some ==> r->0@ == self@.blocks[off],
    {
        match self.map.get(&off) {
            Some(b) => Some(Arc::clone(b)),
            None => None,
        }
    }

    /// Takes in a block, unless its length is wrong or one is held already.
    pub fn put(&mut self, off: u64, data: &[u8])
        requires
            old(self).wf(),
        ensures
            final(self).wf(),
            final(self).capacity() == old(self).capacity(),
            final(self).block() == old(self).block(),
            final(self)@ == old(self)@.after_put(
                old(self).capacity(),
                old(self).block(),
                off,
                data@,
            ),
    {
        let ghost before = self@;
        if data.len() != self.block {
            return;
        }
        if self.map.contains_key(&off) {
            return;
        }
        if self.order.len() > 0 && self.order.len() >= self.capacity {
            let oldest = self.order.pop_front();
            if let Some(k) = oldest {
                self.map.remove(&k);
            }
        }
        let ghost kept = before.with_room(self.capacity as nat);
        assert(self@.order =~= kept.order);
        assert(self@.blocks =~= kept.blocks);
        let mut copy: Vec<u8> = Vec::new();
        copy.extend_from_slice(data);
        assert(copy@ =~= data@);
        self.map.insert(off, Arc::new(copy));
        self.order.push_back(off);
        assert(self@.blocks =~= kept.blocks.insert(off, data@));
        proof {
            lemma_put_keeps_wf(before, self.capacity as nat, self.block as nat, off, data@);
        }
    }
}

proof fn lemma_put_keeps_wf(c: Cached, capacity: nat, block: nat, off: u64, data: Seq<u8>)
    requires
        c.wf(capacity, block),
        data.len() == block,
        !c.blocks.contains_key(off),
    ensures
        c.after_put(capacity, block, off, data).wf(capacity, block),
{
    let kept = c.with_room(capacity);
    assert forall|k: u64| #[trigger] kept.blocks.contains_key(k) <==> kept.order.contains(k) by {
        if kept.order.contains(k) {
            let i = choose|i: int| 0 <= i < kept.order.len() && kept.order[i] == k;
            if kept.order.len() < c.order.len() {
                assert(c.order[i + 1] == k);
                assert(c.order[0] != k);
            }
            assert(c.order.contains(k));
        }
        if kept.blocks.contains_key(k) {
            assert(c.order.contains(k));
            let i = choose|i: int| 0 <= i < c.order.len() && c.order[i] == k;
            if kept.order.len() < c.order.len() {
                assert(kept.order[i - 1] == k);
            }
        }
    }
    let after = c.after_put(capacity, block, off, data);
    assert(!kept.order.contains(off)) by {
        assert(!kept.blocks.contains_key(off));
    }
    assert forall|k: u64| #[trigger] after.blocks.contains_key(k) <==> after.order.contains(k) by {
        if after.order.contains(k) {
            let i = choose|i: int| 0 <= i < after.order.len() && after.order[i] == k;
            if i < kept.order.len() {
                assert(kept.order.contains(kept.order[i]));
            }
        }
        if after.blocks.contains_key(k) {
            if k == off {
                assert(after.order[kept.order.len() as int] == off);
            } else {
                assert(kept.order.contains(k));
                let i = choose|i: int| 0 <= i < kept.order.len() && kept.order[i] == k;
                assert(after.order[i] == k);
            }
        }
    }
}

/// A block that was taken in is held, and one that was held for its offset
/// stays.
pub proof fn law_put_then_get(c: Cached, capacity: nat, block: nat, off: u64, data: Seq<u8>)
    requires
        c.wf(capacity, block),
        data.len() == block,
    ensures
        ({
            let after = c.after_put(capacity, block, off, data);
            after.blocks.contains_key(off) && after.blocks[off] == if c.blocks.contains_key(off) {
                c.blocks[off]
            } else {
                data
            }
        }),
{
}

/// Taking in a block forgets the oldest one at most, and that only when the
/// cache is full.
pub proof fn law_put_forgets_oldest_only(
    c: Cached,
    capacity: nat,
    block: nat,
    off: u64,
    data: Seq<u8>,
    other: u64,
)
    requires
        c.wf(capacity, block),
        c.blocks.contains_key(other),
        c.order.len() < capacity || other != c.order[0],
    ensures
        c.after_put(capacity, block, off, data).blocks.contains_key(other),
        c.after_put(capacity, block, off, data).blocks[other] == c.blocks[other],
{
}

/// A cache that agrees with the device still does after a block of the device
/// was offered.
pub proof fn law_put_keeps_agreement(
    c: Cached,
    capacity: nat,
    block: nat,
    off: u64,
    data: Seq<u8>,
    device: Seq<u8>,
)
    requires
        c.agrees_with(device, block),
        off + block <= device.len(),
        data == device.subrange(off as int, off + block),
    ensures
        c.after_put(capacity, block, off, data).agrees_with(device, block),
{
}

/// A cache in `SHARDS` parts, so that work on one part does not hold up work
/// on another. The offset of a block decides its part.
pub struct SharedBlockCache {
    pub shards: Vec<BlockCacheInner>,
    /// Bits of an offset that do not differ between blocks.
    pub block_shift: u32,
}

/// The part that holds the block at an offset.
pub open spec fn shard_of(off: u64, block_shift: u32, shards: nat) -> int {
    (off >> block_shift) as int % shards as int
}

/// Number of the part that holds the block at an offset.
pub fn shard_index(off: u64, block_shift: u32, shards: usize) -> (i: usize)
    requires
        block_shift < 64,
        shards > 0,
    ensures
        i == shard_of(off, block_shift, shards as nat),
        i < shards,
{
    ((off >> block_shift) % (shards as u64)) as usize
}

impl SharedBlockCache {
    pub open spec fn wf(&self) -> bool {
        &&& self.shards@.len() > 0
        &&& self.block_shift < 64
        &&& forall|i: int| 0 <= i < self.shards@.len() ==> (#[trigger] self.shards@[i]).wf()
    }

    /// The part that holds the block at an offset.
    pub open spec fn shard(&self, off: u64) -> BlockCacheInner {
        self.shards@[shard_of(off, self.block_shift, self.shards@.len())]
    }

    pub fn get(&self, off: u64) -> (r: Option<Arc<Vec<u8>>>)
        requires
            self.wf(),
        ensures
            r is Some <==> self.shard(off)@.blocks.contains_key(off),
            r is Some ==> r->0@ == self.shard(off)@.blocks[off],
    {
        let i: usize = shard_index(off, self.block_shift, self.shards.len());
        self.shards[i].get(off)
    }

    pub fn put(&mut self, off: u64, data: &[u8])
        requires
            old(self).wf(),
        ensures
            final(self).wf(),
            final(self).block_shift == old(self).block_shift,
            final(self).shards@.len() == old(self).shards@.len(),
            final(self).shard(off)@ == old(self).shard(off)@.after_put(
                old(self).shard(off).capacity(),
                old(self).shard(off).block(),
                off,
                data@,
            ),
            final(self).shard(off).capacity() == old(self).shard(off).capacity(),
            final(self).shard(off).block() == old(self).shard(off).block(),
            forall|i: int|
                0 <= i < old(self).shards@.len() && i != shard_of(
                    off,
                    old(self).block_shift,
                    old(self).shards@.len(),
                ) ==> #[trigger] final(self).shards@[i] == old(self).shards@[i],
    {
        let i: usize = shard_index(off, self.block_shift, self.shards.len());
        self.shards[i].put(off, data);
    }
}

/// An empty cache for about `total_capacity_blocks` blocks.
pub fn new_shared_block_cache(total_capacity_blocks: usize, block_size: usize) -> (c:
    SharedBlockCache)
    ensures
        c.wf(),
        c.shards@.len() == 16,
        c.block_shift == vstd::std_specs::bits::u32_trailing_zeros(
            (block_size as u64 % 0x1_0000_0000) as u32,
        ),
        forall|i: int|
            0 <= i < 16 ==> (#[trigger] c.shards@[i])@.order.len() == 0 && c.shards@[i].block()
                == block_size && c.shards@[i].capacity() == (if total_capacity_blocks < 16 {
                1
            } else {
                total_capacity_blocks as int / 16
            }),
{
    let per_shard: usize = if total_capacity_blocks < SHARDS {
        1
    } else {
        total_capacity_blocks / SHARDS
    };
    let mut shards: Vec<BlockCacheInner> = Vec::new();
    while shards.len() < SHARDS
        invariant
            shards@.len() <= SHARDS,
            forall|i: int|
                0 <= i < shards@.len() ==> (#[trigger] shards@[i]).wf() && shards@[i]@.order.len()
                    == 0 && shards@[i].block() == block_size && shards@[i].capacity() == per_shard,
        decreases SHARDS - shards@.len(),
    {
        shards.push(BlockCacheInner::new(per_shard, block_size));
    }
    let low: u32 = (block_size as u64 % 0x1_0000_0000) as u32;
    proof {
        vstd::std_specs::bits::axiom_u32_trailing_zeros(low);
    }
    SharedBlockCache { shards, block_shift: low.trailing_zeros() }
}

/// What a cache holds after a block was offered: the same where the block has
/// another length or is held already. Otherwise the block stands last in the
/// order, and the oldest block has gone where the cache was full; everything
/// else stays.
pub proof fn law_put_changes_one_block(
    c: Cached,
    capacity: nat,
    block: nat,
    off: u64,
    data: Seq<u8>,
    k: u64,
)
    requires
        c.wf(capacity, block),
    ensures
        ({
            let after = c.after_put(capacity, block, off, data);
            let new = data.len() == block && !c.order.contains(off);
            let full = c.order.len() > 0 && c.order.len() >= capacity;
            &&& !new ==> after == c
            &&& new && full ==> after.order == c.order.subrange(1, c.order.len() as int).push(off)
            &&& new && !full ==> after.order == c.order.push(off)
            &&& new ==> after.blocks.contains_key(off) && after.blocks[off] == data
            &&& new && k != off ==> (after.blocks.contains_key(k) <==> c.blocks.contains_key(k) && !(
            full && k == c.order[0]))
            &&& new && k != off && after.blocks.contains_key(k) ==> after.blocks[k] == c.blocks[k]
        }),
{
    let after = c.after_put(capacity, block, off, data);
    if c.order.len() > 0 {
        assert(c.order.drop_first() =~= c.order.subrange(1, c.order.len() as int));
    }
    assert(c.blocks.contains_key(off) <==> c.order.contains(off));
}

/// The part of an offset: its block's number, counted round the parts.
pub proof fn law_shards_take_turns(off: u64, block_shift: u32, shards: nat)
    requires
        block_shift < 64,
        shards > 0,
    ensures
        shard_of(off, block_shift, shards) == off as int / vstd::arithmetic::power2::pow2(
            block_shift as nat,
        ) as int % shards as int,
        0 <= shard_of(off, block_shift, shards) < shards,
{
    vstd::bits::lemma_u64_shr_is_div(off, block_shift as u64);
    let a = off >> block_shift;
    let b = off >> (block_shift as u64);
    assert(a == b);
    vstd::arithmetic::power2::lemma_pow2_pos(block_shift as nat);
}

/// The part that holds an offset, counted from the first.
pub proof fn law_shard_of_an_offset(c: SharedBlockCache, off: u64)
    ensures
        c.shard(off) == c.shards@[shard_of(off, c.block_shift, c.shards@.len())],
{
}

} // verus!
