use vstd::prelude::*;
use crate::config::BLOCK_SIZE;

verus! {

/// An absolute byte address on the virtual disk.
#[derive(Debug, PartialEq, Eq, Structural, Clone, Copy)]
pub struct Addr {
    pub addr: u32,
}

impl Addr {
    pub fn new(num: u32) -> (a: Addr)
        ensures
            a.addr == num,
    {
        Addr { addr: num }
    }

    pub fn set_addr(&mut self, num: u32)
        ensures
            final(self).addr == num,
    {
        self.addr = num;
    }

    pub fn get_raw_num(&self) -> (n: u32)
        ensures
            n == self.addr,
    {
        self.addr
    }

    /// The block that holds this address.
    pub fn into_block_addr(&self) -> (b: BlockAddr)
        ensures
            b.addr == self.addr / 1024,
    {
        BlockAddr { addr: self.addr / 1024 }
    }

    /// Sum of two addresses.
    pub fn add(self, rhs: Addr) -> (a: Addr)
        requires
            self.addr + rhs.addr <= u32::MAX,
        ensures
            a.addr == self.addr + rhs.addr,
    {
        Addr { addr: self.addr + rhs.addr }
    }

    /// Distance from `rhs` up to `self`.
    pub fn sub(self, rhs: Addr) -> (n: u32)
        requires
            self.addr >= rhs.addr,
        ensures
            n == self.addr - rhs.addr,
    {
        self.addr - rhs.addr
    }

    /// The first address of a block.
    pub fn from_block(value: BlockAddr) -> (a: Addr)
        requires
            value.addr * 1024 <= u32::MAX,
        ensures
            a.addr == value.addr * 1024,
    {
        Addr { addr: value.addr * 1024 }
    }
}

/// The number of a block on the virtual disk.
#[derive(Debug, PartialEq, Eq, Structural, PartialOrd, Clone, Copy)]
pub struct BlockAddr {
    pub addr: u32,
}

impl BlockAddr {
    pub fn new(num: u32) -> (b: BlockAddr)
        ensures
            b.addr == num,
    {
        BlockAddr { addr: num }
    }

    /// The first byte address of this block.
    pub fn into_addr(&self) -> (a: Addr)
        requires
            self.addr * 1024 <= u32::MAX,
        ensures
            a.addr == self.addr * 1024,
    {
        Addr { addr: self.addr * 1024 }
    }

    pub fn get_raw_num(&self) -> (n: u32)
        ensures
            n == self.addr,
    {
        self.addr
    }

    /// Remainder of the block number, as a count of words.
    pub fn rem(self, rhs: u32) -> (w: WordAddrCount)
        requires
            rhs > 0,
        ensures
            w.num == self.addr % rhs,
    {
        WordAddrCount::new(self.addr % rhs)
    }

    /// Quotient of the block number, as a count of blocks.
    pub fn div(self, rhs: u32) -> (c: BlockCount)
        requires
            rhs > 0,
        ensures
            c.num == self.addr / rhs,
    {
        BlockCount::new(self.addr / rhs)
    }

    /// The block `rhs` places further on.
    pub fn add_num(self, rhs: u32) -> (b: BlockAddr)
        requires
            self.addr + rhs <= u32::MAX,
        ensures
            b.addr == self.addr + rhs,
    {
        BlockAddr { addr: self.addr + rhs }
    }

    /// The address `rhs` bytes into this block.
    pub fn add_addr(self, rhs: Addr) -> (a: Addr)
        requires
            self.addr * 1024 + rhs.addr <= u32::MAX,
        ensures
            a.addr == self.addr * 1024 + rhs.addr,
    {
        Addr { addr: self.addr * BLOCK_SIZE + rhs.addr }
    }

    /// Sum of two block numbers.
    pub fn add(self, rhs: BlockAddr) -> (b: BlockAddr)
        requires
            self.addr + rhs.addr <= u32::MAX,
        ensures
            b.addr == self.addr + rhs.addr,
    {
        BlockAddr { addr: self.addr + rhs.addr }
    }

    /// The block that holds an address.
    pub fn from_addr(value: Addr) -> (b: BlockAddr)
        ensures
            b.addr == value.addr / 1024,
    {
        BlockAddr { addr: value.addr / 1024 }
    }
}

/// The blocks from `start` to `end`, both included.
#[derive(Debug)]
pub struct BlockRange {
    pub start: BlockAddr,
    pub end: BlockAddr,
}

impl BlockRange {
    pub fn new(start: BlockAddr, end: BlockAddr) -> (r: BlockRange)
        ensures
            r.start == start,
            r.end == end,
    {
        BlockRange { start, end }
    }

    pub fn iter(&self) -> (it: BlockRangeIter)
        ensures
            it.current == self.start,
            it.end == self.end,
    {
        BlockRangeIter { current: self.start, end: self.end }
    }
}

/// Walks a `BlockRange` one block at a time.
pub struct BlockRangeIter {
    pub current: BlockAddr,
    pub end: BlockAddr,
}

impl BlockRangeIter {
    /// The next block of the range, or `None` once `end` has been passed.
    pub fn next(&mut self) -> (r: Option<BlockAddr>)
        requires
            old(self).end.addr < u32::MAX,
        ensures
            final(self).end == old(self).end,
            old(self).current.addr <= old(self).end.addr ==> {
                &&& r == Some(old(self).current)
                &&& final(self).current.addr == old(self).current.addr + 1
            },
            old(self).current.addr > old(self).end.addr ==> {
                &&& r.is_none()
                &&& final(self).current == old(self).current
            },
    {
        if self.current.addr <= self.end.addr {
            let ret = self.current;
            self.current = self.current.add(BlockAddr::new(1));
            Some(ret)
        } else {
            None
        }
    }
}

/// What `BlockCount::reduce` does to a count of `n`: whether it took one,
/// and the count left.
pub open spec fn reduce_step(n: u32) -> (bool, u32) {
    if n > 0 { (true, (n - 1) as u32) } else { (false, n) }
}

/// The count left after `k` calls of `BlockCount::reduce` from `n`.
pub open spec fn reduced_count(n: u32, k: nat) -> u32
    decreases k,
{
    if k == 0 { n } else { reduce_step(reduced_count(n, (k - 1) as nat)).1 }
}

/// `k` calls of `reduce` from `n`, no more than `n`, leave `n - k`.
proof fn lemma_reduced_count(n: u32, k: nat)
    requires
        k <= n,
    ensures
        reduced_count(n, k) == n - k,
    decreases k,
{
    if k > 0 {
        lemma_reduced_count(n, (k - 1) as nat);
    }
}

/// A count of `n` is taken down by `n + 1` calls of `reduce`: each of the
/// first `n` takes one, and the last finds zero and leaves it.
pub proof fn law_reduce_runs_out(n: u32)
    ensures
        forall|k: nat| k < n ==> (#[trigger] reduce_step(reduced_count(n, k))).0,
        reduced_count(n, n as nat) == 0,
        reduce_step(reduced_count(n, n as nat)) == (false, 0u32),
{
    assert forall|k: nat| k < n implies (#[trigger] reduce_step(reduced_count(n, k))).0 by {
        lemma_reduced_count(n, k);
    }
    lemma_reduced_count(n, n as nat);
}

/// A number of whole blocks.
#[derive(Debug, Clone, Copy)]
pub struct BlockCount {
    pub num: u32,
}

impl BlockCount {
    pub fn new(num: u32) -> (c: BlockCount)
        ensures
            c.num == num,
    {
        BlockCount { num }
    }

    /// Takes one from the count; `false` when it was already zero.
    pub fn reduce(&mut self) -> (b: bool)
        ensures
            b == (old(self).num > 0),
            b ==> final(self).num == old(self).num - 1,
            !b ==> final(self).num == old(self).num,
            (b, final(self).num) == reduce_step(old(self).num),
    {
        if self.num > 0 {
            self.num = self.num - 1;
            true
        } else {
            false
        }
    }

    /// The address `rhs` bytes into block number `self`.
    pub fn add_word(self, rhs: WordAddrCount) -> (a: Addr)
        requires
            self.num * 1024 + rhs.num <= u32::MAX,
        ensures
            a.addr == self.num * 1024 + rhs.num,
    {
        Addr::new(self.num * BLOCK_SIZE + rhs.num)
    }

    /// The count moved on by a block number.
    pub fn add_block(self, rhs: BlockAddr) -> (c: BlockCount)
        requires
            self.num + rhs.addr <= u32::MAX,
        ensures
            c.num == self.num + rhs.addr,
    {
        BlockCount { num: self.num + rhs.get_raw_num() }
    }
}

/// An address counted in words.
#[derive(Debug)]
pub struct WordAddr {
    pub addr: u32,
}

impl WordAddr {
    pub fn new(num: u32) -> (w: WordAddr)
        ensures
            w.addr == num,
    {
        WordAddr { addr: num }
    }
}

/// A count of words, or of bytes inside a block.
#[derive(Debug, Clone, Copy)]
pub struct WordAddrCount {
    pub num: u32,
}

impl WordAddrCount {
    pub fn new(num: u32) -> (w: WordAddrCount)
        ensures
            w.num == num,
    {
        WordAddrCount { num }
    }

    /// The count multiplied by `rhs`.
    pub fn mul(self, rhs: u32) -> (w: WordAddrCount)
        requires
            self.num * rhs <= u32::MAX,
        ensures
            w.num == self.num * rhs,
    {
        WordAddrCount { num: self.num * rhs }
    }
}

} // verus!
