//! Byte-wise reading from a device that can only be read in whole blocks.
//!
//! A read is planned first. Then either a cached block serves it, or bytes are
//! read from the device at the planned place; whole blocks among them may be
//! cached when the read was widened for that purpose.

use vstd::prelude::*;

#[allow(unused_imports)]
use crate::block_cache::Cached;

verus! {

/// Small reads are widened to this many bytes.
pub const READ_AHEAD: u64 = 262_144;

/// A position on a device with blocks of `block` bytes.
pub struct AlignedRawReader {
    pub pos: u64,
    pub block: u64,
}

/// How a read is carried out.
#[derive(Copy, Clone, Debug, PartialEq, Eq, Structural)]
pub struct ReadPlan {
    /// Where the device is read: the start of the block of the position.
    pub aligned_start: u64,
    /// Bytes between there and the end of the last block that is asked for.
    pub needed: u64,
    /// Bytes to read from the device.
    pub phys_len: u64,
    /// Whether more is read than is asked for, and the blocks are kept.
    pub widen: bool,
    /// Whether one cached block can serve the read.
    pub single_block: bool,
    /// Distance of the position from `aligned_start`.
    pub skip: u64,
    /// Bytes that are asked for.
    pub want: u64,
}

/// Where a seek goes.
#[derive(Copy, Clone, Debug, PartialEq, Eq, Structural)]
pub enum SeekTo {
    Start(u64),
    Current(i64),
}

/// The lesser of two numbers.
pub open spec fn least(a: int, b: int) -> int {
    if a < b {
        a
    } else {
        b
    }
}

/// The end of the last block that holds a byte before `end`, where that can
/// be expressed; `end` itself otherwise.
pub open spec fn block_end(end: int, block: int) -> int {
    if end + (block - 1) > u64::MAX {
        end
    } else {
        (end + (block - 1)) / block * block
    }
}

/// The plan for reading `want` bytes at `pos`.
pub open spec fn planned(pos: u64, block: u64, want: usize) -> ReadPlan {
    let start = pos - pos % block;
    let needed = block_end(least(pos + want, u64::MAX as int), block as int) - start;
    ReadPlan {
        aligned_start: start as u64,
        needed: needed as u64,
        phys_len: if needed < READ_AHEAD {
            READ_AHEAD
        } else {
            needed as u64
        },
        widen: needed < READ_AHEAD,
        single_block: needed == block,
        skip: (pos % block) as u64,
        want: want as u64,
    }
}

/// How many bytes a read gets out of `got` bytes from `aligned_start` on.
pub open spec fn served(plan: ReadPlan, got: int) -> int {
    if got < plan.skip {
        0
    } else {
        least(plan.want as int, got - plan.skip)
    }
}

/// Number of whole blocks among `got` bytes that are cached.
pub open spec fn cached_count(plan: ReadPlan, got: int, block: int) -> int {
    if plan.widen {
        got / block
    } else {
        0
    }
}

impl AlignedRawReader {
    pub open spec fn wf(&self) -> bool {
        self.block > 0
    }

    pub fn new(block: u64) -> (r: Self)
        ensures
            r.pos == 0,
            r.block == block,
    {
        AlignedRawReader { pos: 0, block }
    }

    /// Plans a read of `want` bytes; none is needed for an empty one.
    pub fn plan(&self, want: usize) -> (r: Option<ReadPlan>)
        requires
            self.wf(),
        ensures
            want == 0 <==> r is None,
            r is Some ==> r->0 == planned(self.pos, self.block, want),
    {
        if want == 0 {
            return None;
        }
        let start: u64 = self.pos;
        let want64: u64 = want as u64;
        let end: u64 = if want64 > u64::MAX - start {
            u64::MAX
        } else {
            start + want64
        };
        let skip: u64 = start % self.block;
        proof {
            lemma_remainder(start as int, self.block as int);
        }
        let aligned_start: u64 = start - skip;
        let aligned_end: u64 = if end > u64::MAX - (self.block - 1) {
            end
        } else {
            let e: u64 = end + (self.block - 1);
            proof {
                lemma_rounded(end as int, self.block as int);
            }
            e / self.block * self.block
        };
        assert(aligned_end >= end);
        let needed: u64 = aligned_end - aligned_start;
        let widen = needed < READ_AHEAD;
        let phys_len: u64 = if widen {
            READ_AHEAD
        } else {
            needed
        };
        Some(
            ReadPlan {
                aligned_start,
                needed,
                phys_len,
                widen,
                single_block: needed == self.block,
                skip,
                want: want64,
            },
        )
    }

    /// Hands out what a read asked for, from bytes that the device or the
    /// cache has from the start of the plan on, and moves on.
    pub fn serve(&mut self, plan: &ReadPlan, data: &[u8], out: &mut [u8]) -> (n: usize)
        requires
            old(self).wf(),
            old(out)@.len() > 0,
            *plan == planned(old(self).pos, old(self).block, old(out)@.len() as usize),
            plan.aligned_start + data@.len() <= u64::MAX,
        ensures
            n == served(*plan, data@.len() as int),
            final(self).block == old(self).block,
            final(self).pos == old(self).pos + n,
            final(out)@.len() == old(out)@.len(),
            final(out)@ == data@.subrange(plan.skip as int, plan.skip + n) + old(out)@.skip(
                n as int,
            ) || n == 0,
            n == 0 ==> final(out)@ == old(out)@,
    {
        let skip: u64 = plan.skip;
        let len: usize = data.len();
        let want: usize = out.len();
        if (len as u64) < skip {
            return 0;
        }
        let off: usize = skip as usize;
        let avail: usize = len - off;
        let n: usize = if want < avail {
            want
        } else {
            avail
        };
        let ghost before = out@;
        let mut i: usize = 0;
        while i < n
            invariant
                i <= n,
                n <= want,
                n <= avail,
                avail == len - off,
                len == data@.len(),
                off <= len,
                want == out@.len(),
                before.len() == out@.len(),
                forall|j: int| 0 <= j < i ==> out@[j] == data@[off + j],
                forall|j: int| i <= j < out@.len() ==> out@[j] == before[j],
            decreases n - i,
        {
            let b: u8 = data[off + i];
            out[i] = b;
            i = i + 1;
        }
        assert(out@ =~= data@.subrange(off as int, off + n) + before.skip(n as int));
        assert(n == 0 ==> out@ =~= before);
        self.pos = self.pos + n as u64;
        n
    }

    /// The blocks among `got` bytes read by a plan that are to be cached: for
    /// each its device offset and its place among the bytes.
    pub fn cacheable(&self, plan: &ReadPlan, got: usize) -> (r: Vec<(u64, usize)>)
        requires
            self.wf(),
            plan.aligned_start + got <= u64::MAX,
        ensures
            r@.len() == cached_count(*plan, got as int, self.block as int),
            forall|i: int|
                0 <= i < r@.len() ==> (#[trigger] r@[i]).0 == plan.aligned_start + i * self.block
                    && r@[i].1 == i * self.block && r@[i].1 + self.block <= got,
    {
        let mut r: Vec<(u64, usize)> = Vec::new();
        if !plan.widen {
            return r;
        }
        let block: u64 = self.block;
        let mut off: u64 = 0;
        proof {
            lemma_blocks(0, got as int, block as int);
        }
        while block <= got as u64 - off
            invariant
                block == self.block,
                block > 0,
                plan.aligned_start + got <= u64::MAX,
                off == r@.len() * block,
                off <= got,
                r@.len() + (got - off) / block as int == got as int / block as int,
                forall|i: int|
                    0 <= i < r@.len() ==> (#[trigger] r@[i]).0 == plan.aligned_start + i * block
                        && r@[i].1 == i * block && r@[i].1 + block <= got,
            decreases got - off,
        {
            proof {
                lemma_blocks(off as int, got as int, block as int);
            }
            let ghost n = r@.len() as int;
            r.push((plan.aligned_start + off, off as usize));
            off = off + block;
            assert((n + 1) * block == n * block + block) by (nonlinear_arith);
        }
        assert((got - off) / block as int == 0) by (nonlinear_arith)
            requires
                0 <= got - off < block,
        ;
        r
    }

    /// Moves the position. From the current one, distances wrap around as
    /// 64-bit numbers do.
    pub fn seek(&mut self, to: SeekTo) -> (r: u64)
        ensures
            final(self).block == old(self).block,
            final(self).pos == r,
            match to {
                SeekTo::Start(o) => r == o,
                SeekTo::Current(d) => r == (old(self).pos + d) % 0x1_0000_0000_0000_0000,
            },
    {
        match to {
            SeekTo::Start(o) => {
                self.pos = o;
            },
            SeekTo::Current(d) => {
                let target: i128 = self.pos as i128 + d as i128;
                self.pos = if target < 0 {
                    (target + 0x1_0000_0000_0000_0000) as u64
                } else if target >= 0x1_0000_0000_0000_0000 {
                    (target - 0x1_0000_0000_0000_0000) as u64
                } else {
                    target as u64
                };
            },
        }
        self.pos
    }
}

/// Rounding up to whole blocks goes up, by less than a block.
proof fn lemma_rounded(end: int, block: int)
    requires
        block > 0,
        end >= 0,
    ensures
        end <= (end + (block - 1)) / block * block <= end + (block - 1),
{
    let e = end + (block - 1);
    assert(e == block * (e / block) + e % block && 0 <= e % block < block) by (nonlinear_arith)
        requires
            block > 0,
    ;
    assert(e / block * block == block * (e / block)) by (nonlinear_arith);
}

proof fn lemma_remainder(x: int, block: int)
    requires
        block > 0,
        x >= 0,
    ensures
        0 <= x % block < block,
        x % block <= x,
{
    vstd::arithmetic::div_mod::lemma_mod_bound(x, block);
    if x < block {
        vstd::arithmetic::div_mod::lemma_small_mod(x as nat, block as nat);
    }
}

/// Going one block further leaves one block less.
proof fn lemma_blocks(off: int, got: int, block: int)
    requires
        block > 0,
        0 <= off <= got,
    ensures
        got - off >= block ==> (got - off - block) / block + 1 == (got - off) / block,
        (got - off) / block >= 0,
{
    if got - off >= block {
        vstd::arithmetic::div_mod::lemma_div_minus_one(got - off, block);
    }
    vstd::arithmetic::div_mod::lemma_div_pos_is_pos(got - off, block);
}

/// A read returns what the device holds at the position, whether its bytes
/// come from the device or from a cache that agrees with the device.
pub proof fn law_read_returns_device_bytes(
    device: Seq<u8>,
    pos: u64,
    block: u64,
    want: usize,
    got: int,
)
    requires
        block > 0,
        want > 0,
        got >= 0,
        planned(pos, block, want).aligned_start + got <= device.len(),
    ensures
        ({
            let plan = planned(pos, block, want);
            let start = plan.aligned_start as int;
            let data = device.subrange(start, start + got);
            let n = served(plan, got);
            n > 0 ==> data.subrange(plan.skip as int, plan.skip + n) == device.subrange(
                pos as int,
                pos + n,
            )
        }),
{
    let plan = planned(pos, block, want);
    let start = plan.aligned_start as int;
    let data = device.subrange(start, start + got);
    let n = served(plan, got);
    lemma_remainder(pos as int, block as int);
    assert(start + plan.skip == pos);
    if n > 0 {
        assert(data.subrange(plan.skip as int, plan.skip + n) =~= device.subrange(
            pos as int,
            pos + n,
        ));
    }
}

/// A cached block that agrees with the device serves a read in the same way as
/// the device.
pub proof fn law_cached_block_is_device_block(
    cache: Cached,
    device: Seq<u8>,
    pos: u64,
    block: u64,
    want: usize,
)
    requires
        block > 0,
        cache.agrees_with(device, block as nat),
        cache.blocks.contains_key(planned(pos, block, want).aligned_start),
    ensures
        ({
            let start = planned(pos, block, want).aligned_start;
            start + block <= device.len() && cache.blocks[start] == device.subrange(
                start as int,
                start + block,
            )
        }),
{
}

/// Every block that a read leaves for the cache is the device's block at that
/// offset.
pub proof fn law_cacheable_blocks_agree(
    device: Seq<u8>,
    plan: ReadPlan,
    block: u64,
    got: int,
    i: int,
)
    requires
        block > 0,
        got >= 0,
        plan.aligned_start + got <= device.len(),
        0 <= i < cached_count(plan, got, block as int),
    ensures
        ({
            let start = plan.aligned_start as int;
            let data = device.subrange(start, start + got);
            &&& 0 <= i * block
            &&& i * block + block <= got
            &&& data.subrange(i * block, i * block + block) == device.subrange(
                start + i * block,
                start + i * block + block,
            )
        }),
{
    let start = plan.aligned_start as int;
    let data = device.subrange(start, start + got);
    assert(0 <= i * block && i * block + block <= got) by (nonlinear_arith)
        requires
            block > 0,
            got >= 0,
            0 <= i < got / block as int,
    ;
    assert(data.subrange(i * block, i * block + block) =~= device.subrange(
        start + i * block,
        start + i * block + block,
    ));
}

/// A planned read starts at the block that holds the position, and reaches to
/// the end of the block that holds the last byte; it is made at least as long
/// as the read-ahead. What is skipped is what stands before the position.
pub proof fn law_plan_covers_the_request(pos: u64, block: u64, want: usize)
    requires
        block > 0,
        want > 0,
    ensures
        ({
            let plan = planned(pos, block, want);
            let start = plan.aligned_start as int;
            &&& start % (block as int) == 0
            &&& start <= pos < start + block
            &&& plan.skip == pos - start
            &&& plan.want == want
            &&& pos + want + (block - 1) <= u64::MAX ==> {
                &&& plan.needed % block == 0
                &&& pos + want <= start + plan.needed < pos + want + block
            }
            &&& pos + want + (block - 1) > u64::MAX ==> start + plan.needed == (if pos + want
                > u64::MAX {
                u64::MAX as int
            } else {
                pos + want
            })
            &&& plan.needed >= 262_144 ==> plan.phys_len == plan.needed && !plan.widen
            &&& plan.needed < 262_144 ==> plan.phys_len == 262_144 && plan.widen
            &&& plan.single_block <==> plan.needed == block
        }),
{
    let b = block as int;
    let p = pos as int;
    vstd::arithmetic::div_mod::lemma_fundamental_div_mod(p, b);
    vstd::arithmetic::div_mod::lemma_mod_bound(p, b);
    let start = p - p % b;
    let q = p / b;
    assert(start == b * q);
    vstd::arithmetic::div_mod::lemma_mod_multiples_basic(q, b);
    assert((q * b) % b == 0);
    assert(b * q == q * b) by (nonlinear_arith);
    assert(0 <= start <= u64::MAX);
    if pos + want + (block - 1) <= u64::MAX {
        let e = pos + want + (block - 1);
        vstd::arithmetic::div_mod::lemma_fundamental_div_mod(e, b);
        vstd::arithmetic::div_mod::lemma_mod_bound(e, b);
        let r = e / b;
        assert(b * r == r * b) by (nonlinear_arith);
        let needed = r * b - start;
        assert(needed == (r - q) * b) by (nonlinear_arith)
            requires
                needed == r * b - start,
                start == b * q,
        ;
        vstd::arithmetic::div_mod::lemma_mod_multiples_basic(r - q, b);
        assert(needed % b == 0);
        assert(0 <= needed <= u64::MAX);
    } else if block == 1 {
        assert(u64::MAX as int / 1 == u64::MAX as int);
    }
}

/// Everything wanted is served where enough was read, and otherwise what was
/// read behind the position.
pub proof fn law_served_is_what_was_read(plan: ReadPlan, got: int)
    requires
        got >= 0,
    ensures
        got >= plan.skip + plan.want ==> served(plan, got) == plan.want,
        plan.skip <= got < plan.skip + plan.want ==> served(plan, got) == got - plan.skip,
        got < plan.skip ==> served(plan, got) == 0,
{
}

/// A read that was widened leaves all its whole blocks for the cache, another
/// leaves none.
pub proof fn law_whole_blocks_are_cached(plan: ReadPlan, got: int, block: int)
    requires
        got >= 0,
        block > 0,
    ensures
        !plan.widen ==> cached_count(plan, got, block) == 0,
        plan.widen ==> cached_count(plan, got, block) * block <= got < (cached_count(
            plan,
            got,
            block,
        ) + 1) * block,
{
    vstd::arithmetic::div_mod::lemma_fundamental_div_mod(got, block);
    vstd::arithmetic::div_mod::lemma_mod_bound(got, block);
    let q = got / block;
    assert(block * q == q * block) by (nonlinear_arith);
    assert((q + 1) * block == q * block + block) by (nonlinear_arith);
}

} // verus!
