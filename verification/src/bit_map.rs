use vstd::prelude::*;
use crate::addr::Addr;
use crate::config::{END_NUM, NON_OCCUPY_NUM};
use crate::disk::{u32_at, VirtualDisk};

verus! {

/// Why no free block was found.
#[derive(Debug)]
pub enum FindErr {
    Full,
}

/// The number of whole blocks in `len` bytes, cut to 32 bits.
pub open spec fn spec_block_num(len: u64) -> u32 {
    (len / 1024) as u32
}

/// The number of table blocks the blocks in `len` bytes need: 256
/// entries per block, rounded up.
pub open spec fn spec_bitmap_block_num(len: u64) -> u32 {
    let b = spec_block_num(len);
    if b % 256 == 0 { (b / 256) as u32 } else { (b / 256 + 1) as u32 }
}

/// The number of whole blocks in `btype_num` bytes.
pub fn get_block_num(btype_num: u64) -> (n: u32)
    ensures
        n == spec_block_num(btype_num),
{
    (btype_num / 1024) as u32
}

/// The number of table blocks the blocks in `btype_num` bytes need.
pub fn get_bitmap_block_num(btype_num: u64) -> (n: u32)
    ensures
        n == spec_bitmap_block_num(btype_num),
{
    let block = get_block_num(btype_num);
    if block % 256 == 0 {
        block / 256
    } else {
        block / 256 + 1
    }
}

/// The byte address at which block `block_addr` starts.
pub fn get_block_entry(block_addr: u32) -> (a: u32)
    requires
        block_addr * 1024 <= u32::MAX,
    ensures
        a == block_addr * 1024,
{
    block_addr * 1024
}

/// The entry value that `init` writes for `i`.
pub open spec fn init_value(i: int, occupy_end: int) -> u32 {
    if i < occupy_end { i as u32 } else { NON_OCCUPY_NUM }
}

/// Writing the entry of `i` keeps the entries written before it.
proof fn lemma_init_step(d0: Seq<u8>, d1: Seq<u8>, entry: int, i: int, pos: int, occupy_end: int, value: u32)
    requires
        pos == entry + (i - entry) * 4,
        entry <= i,
        0 <= entry,
        value == init_value(i, occupy_end),
        d1.len() == d0.len(),
        pos + 4 <= d0.len(),
        u32_at(d1, pos as nat) == value,
        forall|a: int| 0 <= a < d0.len() && !(pos <= a < pos + 4) ==> d1[a] == d0[a],
        forall|k: int| entry <= k < i ==> #[trigger] u32_at(d0, (entry + (k - entry) * 4) as nat) == init_value(k, occupy_end),
    ensures
        forall|k: int| entry <= k < i + 1 ==> #[trigger] u32_at(d1, (entry + (k - entry) * 4) as nat) == init_value(k, occupy_end),
{
    assert forall|k: int| entry <= k < i + 1 implies #[trigger] u32_at(d1, (entry + (k - entry) * 4) as nat) == init_value(k, occupy_end) by {
        if k < i {
            let p = entry + (k - entry) * 4;
            assert(p + 4 <= pos);
            assert(d1[p] == d0[p]);
            assert(d1[p + 1] == d0[p + 1]);
            assert(d1[p + 2] == d0[p + 2]);
            assert(d1[p + 3] == d0[p + 3]);
            assert(u32_at(d0, p as nat) == init_value(k, occupy_end));
        }
    }
}

/// A table with one four-byte entry per block of a disk, kept at byte
/// `bitmap_entry` of the disk; the first `reserved_block_num` blocks are
/// taken by the super block and the table itself.
#[derive(Debug)]
pub struct BitMap {
    pub block_num: u32,
    pub bitmap_entry: Addr,
    pub reserved_block_num: u32,
}

impl BitMap {
    /// The byte of the disk where the entry of the block holding byte
    /// `addr` lies.
    pub open spec fn entry_pos(&self, addr: Addr) -> int {
        self.bitmap_entry.addr + (addr.addr / 1024) * 4
    }

    /// The table of a disk of `disk_len` bytes whose first
    /// `super_block_len` blocks hold the super block; the table follows
    /// them.
    pub fn new(disk_len: u64, super_block_len: u32) -> (bm: BitMap)
        requires
            spec_bitmap_block_num(disk_len) + super_block_len <= u32::MAX,
            super_block_len * 1024 <= u32::MAX,
        ensures
            bm.block_num == spec_block_num(disk_len),
            bm.bitmap_entry.addr == super_block_len * 1024,
            bm.reserved_block_num == spec_bitmap_block_num(disk_len) + super_block_len,
    {
        let b_block = get_bitmap_block_num(disk_len) + super_block_len;
        let entry = super_block_len * 1024;
        let all_block = get_block_num(disk_len);
        BitMap { block_num: all_block, bitmap_entry: Addr::new(entry), reserved_block_num: b_block }
    }

    /// Stores `value` as the entry of the block holding byte `addr`.
    pub fn set_value(&self, disk: &mut VirtualDisk, addr: &Addr, value: u32)
        requires
            self.entry_pos(*addr) + 4 <= old(disk)@.len(),
            self.entry_pos(*addr) + 4 <= u32::MAX,
        ensures
            final(disk)@.len() == old(disk)@.len(),
            u32_at(final(disk)@, self.entry_pos(*addr) as nat) == value,
            forall|i: int| 0 <= i < old(disk)@.len() && !(self.entry_pos(*addr) <= i < self.entry_pos(*addr) + 4)
                ==> final(disk)@[i] == old(disk)@[i],
    {
        let block_entry = self.bitmap_entry.get_raw_num() + (addr.get_raw_num() / 1024) * 4;
        disk.write_u32(block_entry, value);
    }

    /// Marks the block holding byte `addr` as free.
    pub fn set_non_occupied(&self, disk: &mut VirtualDisk, addr: &Addr) -> (r: Result<(), ()>)
        requires
            self.entry_pos(*addr) + 4 <= old(disk)@.len(),
            self.entry_pos(*addr) + 4 <= u32::MAX,
        ensures
            r is Ok,
            final(disk)@.len() == old(disk)@.len(),
            u32_at(final(disk)@, self.entry_pos(*addr) as nat) == NON_OCCUPY_NUM,
            forall|i: int| 0 <= i < old(disk)@.len() && !(self.entry_pos(*addr) <= i < self.entry_pos(*addr) + 4)
                ==> final(disk)@[i] == old(disk)@[i],
    {
        self.set_value(disk, addr, NON_OCCUPY_NUM);
        Ok(())
    }

    /// Whether the block holding byte `addr` is marked free.
    pub fn check_non_occupied(&self, disk: &VirtualDisk, addr: &Addr) -> (r: Result<bool, ()>)
        requires
            self.entry_pos(*addr) + 4 <= disk@.len(),
            self.entry_pos(*addr) + 4 <= u32::MAX,
        ensures
            r == Ok::<bool, ()>(u32_at(disk@, self.entry_pos(*addr) as nat) == NON_OCCUPY_NUM),
    {
        let block_entry = self.bitmap_entry.get_raw_num() + (addr.get_raw_num() / 1024) * 4;
        let content = disk.read_u32(block_entry);
        Ok(content == NON_OCCUPY_NUM)
    }

    /// Writes the table: from byte `bitmap_entry` on, one entry for each
    /// `i` from `bitmap_entry` up to a quarter of the bytes the reserved
    /// blocks span past it; entries below `bitmap_entry +
    /// reserved_block_num` hold `i`, the others mark a free block.
    pub fn init(&self, disk: &mut VirtualDisk)
        requires
            (self.bitmap_entry.addr + self.reserved_block_num) * 1024 <= u32::MAX,
            ({
                let end = (self.bitmap_entry.addr + self.reserved_block_num) * 1024 / 4;
                end > self.bitmap_entry.addr ==> self.bitmap_entry.addr + (end - self.bitmap_entry.addr) * 4 <= old(disk)@.len()
            }),
        ensures
            final(disk)@.len() == old(disk)@.len(),
            ({
                let entry = self.bitmap_entry.addr as int;
                let end = (self.bitmap_entry.addr + self.reserved_block_num) * 1024 / 4;
                let occupy_end = self.bitmap_entry.addr + self.reserved_block_num;
                &&& forall|i: int| entry <= i < end ==> #[trigger] u32_at(final(disk)@, (entry + (i - entry) * 4) as nat)
                    == init_value(i, occupy_end)
                &&& forall|a: int| 0 <= a < old(disk)@.len() && !(entry <= a < entry + (end - entry) * 4)
                    ==> final(disk)@[a] == old(disk)@[a]
            }),
    {
        let entry = self.bitmap_entry.get_raw_num();
        let bitmap_end = (entry + self.reserved_block_num) * 1024 / 4;
        let occupy_end = entry + self.reserved_block_num;
        let ghost d0 = disk@;
        assert(bitmap_end * 4 == (entry + self.reserved_block_num) * 1024);
        let mut i = entry;
        while i < bitmap_end
            invariant
                entry == self.bitmap_entry.addr,
                bitmap_end == (self.bitmap_entry.addr + self.reserved_block_num) * 1024 / 4,
                occupy_end == self.bitmap_entry.addr + self.reserved_block_num,
                bitmap_end > entry ==> entry + (bitmap_end - entry) * 4 <= d0.len(),
                entry <= i,
                i <= bitmap_end || bitmap_end <= entry,
                bitmap_end <= entry ==> i == entry,
                bitmap_end * 4 <= u32::MAX,
                disk@.len() == d0.len(),
                forall|k: int| entry <= k < i ==> #[trigger] u32_at(disk@, (entry + (k - entry) * 4) as nat)
                    == init_value(k, occupy_end as int),
                forall|a: int| 0 <= a < d0.len() && !(entry <= a < entry + (i - entry) * 4) ==> disk@[a] == d0[a],
            decreases bitmap_end - i,
        {
            let pos = entry + (i - entry) * 4;
            let value = if i < occupy_end { i } else { NON_OCCUPY_NUM };
            assert(value == init_value(i as int, occupy_end as int));
            let ghost before = disk@;
            disk.write_u32(pos, value);
            proof { lemma_init_step(before, disk@, entry as int, i as int, pos as int, occupy_end as int, value); }
            i = i + 1;
        }
    }

    /// The table word of block `b`.
    pub open spec fn word(&self, d: Seq<u8>, b: nat) -> u32 {
        u32_at(d, (self.bitmap_entry.addr + 4 * b) as nat)
    }

    /// Finds the lowest block whose word marks it free, marks it as the
    /// last block of a chain and gives its number; `Err(Full)`, with
    /// nothing changed, when no block is free.
    pub fn free_block(&self, disk: &mut VirtualDisk) -> (r: Result<u32, FindErr>)
        requires
            self.bitmap_entry.addr + 4 * self.block_num <= old(disk)@.len(),
            self.bitmap_entry.addr + 4 * self.block_num <= u32::MAX,
        ensures
            final(disk)@.len() == old(disk)@.len(),
            match r {
                Ok(b) => {
                    &&& b < self.block_num
                    &&& self.word(old(disk)@, b as nat) == NON_OCCUPY_NUM
                    &&& self.word(final(disk)@, b as nat) == END_NUM
                    &&& forall|c: nat| c < b ==> #[trigger] self.word(old(disk)@, c) != NON_OCCUPY_NUM
                    &&& forall|i: int| 0 <= i < old(disk)@.len()
                        && !(self.bitmap_entry.addr + 4 * b <= i < self.bitmap_entry.addr + 4 * b + 4)
                        ==> final(disk)@[i] == old(disk)@[i]
                },
                Err(e) => {
                    &&& e is Full
                    &&& forall|c: nat| c < self.block_num ==> #[trigger] self.word(old(disk)@, c) != NON_OCCUPY_NUM
                    &&& final(disk)@ == old(disk)@
                },
            },
    {
        let entry = self.bitmap_entry.get_raw_num();
        let ghost d0 = disk@;
        let mut b: u32 = 0;
        while b < self.block_num
            invariant
                disk@ == d0,
                old(disk)@ == d0,
                entry == self.bitmap_entry.addr,
                b <= self.block_num,
                entry + 4 * self.block_num <= disk@.len(),
                entry + 4 * self.block_num <= u32::MAX,
                forall|c: nat| c < b ==> #[trigger] self.word(disk@, c) != NON_OCCUPY_NUM,
            decreases self.block_num - b,
        {
            let w = disk.read_u32(entry + 4 * b);
            if w == NON_OCCUPY_NUM {
                disk.write_u32(entry + 4 * b, END_NUM);
                return Ok(b);
            }
            b = b + 1;
        }
        Err(FindErr::Full)
    }
}

} // verus!
