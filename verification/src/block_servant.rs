use vstd::prelude::*;
use crate::addr::{Addr, BlockAddr};
use crate::bitmap::{lemma_chain_extend, lemma_chain_kept, lemma_fs_wf_entry_write, BlockBitmap};
use crate::config::{BLOCK_SIZE, FAT_ENTRY};
use crate::config::{END_NUM, NON_OCCUPY_NUM};
use crate::disk::{
    chain_block, chain_wf, fat, file_range, free_count, fs_wf, is_data_block, is_free, lemma_fat_in_table, lemma_fs_wf_table_same,
    num_blocks, phys, table_end, VirtualDisk,
};
use crate::file_io::{
    lemma_phys_data, lemma_phys_in_block, lemma_piece, lemma_before_boundary, FileReader,
    FileWriter, IoOption,
};

verus! {

/// Highest offset inside a file that the library handles.
pub const MAX_VADDR: u32 = 0xffff_e000;

/// Rounds `c` up past its block: the start of the next block.
pub open spec fn next_boundary(c: nat) -> nat {
    (c / 1024 + 1) * 1024
}

/// End of the piece that starts at `c` in a range ending at `end`.
pub open spec fn piece_end(c: nat, end: nat) -> nat {
    if next_boundary(c) < end { next_boundary(c) } else { end }
}

/// An offset inside a file, counted from its first byte.
#[derive(Debug, Clone, Copy)]
pub struct VirtualAddr {
    pub addr: u32,
}

impl VirtualAddr {
    pub fn new(num: u32) -> (v: VirtualAddr)
        ensures
            v.addr == num,
    {
        VirtualAddr { addr: num }
    }

    /// The offset modulo `rhs`.
    pub fn rem(self, rhs: u32) -> (n: u32)
        requires
            rhs > 0,
        ensures
            n == self.addr % rhs,
    {
        self.addr % rhs
    }

    /// The offset divided by `rhs`.
    pub fn div(self, rhs: u32) -> (n: u32)
        requires
            rhs > 0,
        ensures
            n == self.addr / rhs,
    {
        self.addr / rhs
    }

    /// The distance from `rhs` up to `self`.
    pub fn sub(self, rhs: VirtualAddr) -> (c: VirtualAddrCount)
        requires
            self.addr >= rhs.addr,
        ensures
            c.num == self.addr - rhs.addr,
    {
        VirtualAddrCount { num: self.addr - rhs.addr }
    }

    /// The disk address of this offset taken inside block `rhs`.
    pub fn add_block(self, rhs: BlockAddr) -> (a: Addr)
        requires
            self.addr + rhs.addr * 1024 <= u32::MAX,
        ensures
            a.addr == self.addr + rhs.addr * 1024,
    {
        Addr::new(self.addr + rhs.get_raw_num() * BLOCK_SIZE)
    }
}

/// A number of bytes inside a file.
#[derive(Debug, Clone, Copy)]
pub struct VirtualAddrCount {
    pub num: u32,
}

impl VirtualAddrCount {
    pub fn new(num: u32) -> (c: VirtualAddrCount)
        ensures
            c.num == num,
    {
        VirtualAddrCount { num }
    }

    pub fn len(&self) -> (n: u32)
        ensures
            n == self.num,
    {
        self.num
    }
}

/// A file offset placed in a given block: turns it into a disk address.
#[derive(Debug, Clone, Copy)]
pub struct BlockServantOffset {
    pub block: BlockAddr,
    pub offset: VirtualAddr,
}

impl BlockServantOffset {
    pub fn new(block: BlockAddr, offset: VirtualAddr) -> (o: BlockServantOffset)
        ensures
            o.block == block,
            o.offset == offset,
    {
        BlockServantOffset { block, offset }
    }

    /// The disk address: the offset counted from the start of the block.
    pub fn to_addr(self) -> (a: Addr)
        requires
            self.offset.addr + self.block.addr * 1024 <= u32::MAX,
        ensures
            a.addr == self.offset.addr + self.block.addr * 1024,
    {
        self.offset.add_block(self.block)
    }
}

/// A range of file offsets `start .. end`, with its length.
#[derive(Debug, Clone, Copy)]
pub struct VirtualRange {
    pub start: VirtualAddr,
    pub end: VirtualAddr,
    pub len: VirtualAddrCount,
}

impl VirtualRange {
    pub fn new(start: VirtualAddr, end: VirtualAddr) -> (r: VirtualRange)
        requires
            start.addr <= end.addr,
        ensures
            r.start == start,
            r.end == end,
            r.len.num == end.addr - start.addr,
    {
        let len = end.sub(start);
        VirtualRange { start, end, len }
    }

    /// Walks the range one block-sized piece at a time.
    pub fn iter(&self) -> (it: VirtualRangeIterator)
        ensures
            it.current == self.start,
            it.end == self.end,
    {
        VirtualRangeIterator::new(self.start, self.end)
    }

    /// The `size` bytes from `start` on.
    pub fn with_size(start: VirtualAddr, size: u32) -> (r: VirtualRange)
        requires
            start.addr + size <= u32::MAX,
        ensures
            r.start == start,
            r.end.addr == start.addr + size,
            r.len.num == size,
    {
        VirtualRange::new(start, VirtualAddr { addr: start.addr + size })
    }

    /// How many whole blocks of the file come before the range.
    pub fn relative_start_block_gap(&self) -> (n: u32)
        ensures
            n == self.start.addr / 1024,
    {
        self.start.addr / BLOCK_SIZE
    }
}

/// Cuts a range of file offsets into pieces that each stay inside one block.
#[derive(Debug)]
pub struct VirtualRangeIterator {
    pub current: VirtualAddr,
    pub end: VirtualAddr,
}

impl VirtualRangeIterator {
    pub fn new(start: VirtualAddr, end: VirtualAddr) -> (it: VirtualRangeIterator)
        ensures
            it.current == start,
            it.end == end,
    {
        VirtualRangeIterator { current: start, end }
    }

    /// The piece that starts at the current offset: up to the next block
    /// boundary or to the end of the range, whichever comes first; `None`
    /// once the end is reached.
    pub fn get_range(&self) -> (r: Option<VirtualRange>)
        requires
            self.end.addr <= MAX_VADDR,
            self.current.addr <= self.end.addr + 1024,
        ensures
            self.current.addr < self.end.addr ==> r == Some(VirtualRange {
                start: self.current,
                end: VirtualAddr { addr: piece_end(self.current.addr as nat, self.end.addr as nat) as u32 },
                len: VirtualAddrCount { num: (piece_end(self.current.addr as nat, self.end.addr as nat) - self.current.addr) as u32 },
            }),
            self.current.addr >= self.end.addr ==> r.is_none(),
    {
        let i = self.current.div(BLOCK_SIZE) + 1;
        let i = i * BLOCK_SIZE;
        if i < self.end.addr {
            Some(VirtualRange::new(self.current, VirtualAddr { addr: i }))
        } else if self.end.addr <= self.current.addr {
            None
        } else {
            Some(VirtualRange::new(self.current, self.end))
        }
    }

    /// Whether the end lies before the next block boundary.
    pub fn terminate(&self) -> (b: bool)
        requires
            self.current.addr <= MAX_VADDR,
        ensures
            b == (next_boundary(self.current.addr as nat) > self.end.addr),
    {
        let i = self.current.div(BLOCK_SIZE) + 1;
        let i = i * BLOCK_SIZE;
        if i > self.end.addr {
            true
        } else {
            false
        }
    }

    /// The current piece, and a move to the next block boundary.
    pub fn next(&mut self) -> (r: Option<VirtualRange>)
        requires
            old(self).end.addr <= MAX_VADDR,
            old(self).current.addr <= old(self).end.addr + 1024,
        ensures
            final(self).end == old(self).end,
            final(self).current.addr == next_boundary(old(self).current.addr as nat),
            old(self).current.addr < old(self).end.addr ==> {
                &&& r == Some(VirtualRange {
                    start: old(self).current,
                    end: VirtualAddr { addr: piece_end(old(self).current.addr as nat, old(self).end.addr as nat) as u32 },
                    len: VirtualAddrCount { num: (piece_end(old(self).current.addr as nat, old(self).end.addr as nat) - old(self).current.addr) as u32 },
                })
                &&& final(self).current.addr <= old(self).end.addr + 1023
            },
            old(self).current.addr >= old(self).end.addr ==> r.is_none(),
    {
        let ans = self.get_range();
        self.current = VirtualAddr::new((self.current.div(BLOCK_SIZE) + 1) * BLOCK_SIZE);
        ans
    }
}

/// The bytes `data[index ..]` to be written into one piece of a file.
#[derive(Debug, Clone, Copy)]
pub struct DataPack<'a> {
    pub write_in: &'a [u8],
    pub index: usize,
    pub len: u32,
}

impl<'a> DataPack<'a> {
    pub fn new(write_in: &'a [u8], index: usize, len: u32) -> (d: DataPack<'a>)
        ensures
            d.write_in == write_in,
            d.index == index,
            d.len == len,
    {
        DataPack { write_in, index, len }
    }
}

/// A piece of a file placed in a given block.
#[derive(Debug, Clone, Copy)]
pub struct BlockServantOffsetRange {
    pub block_entry: BlockAddr,
    pub v_range: VirtualRange,
}

impl BlockServantOffsetRange {
    pub fn new(block_entry: BlockAddr, v_range: VirtualRange) -> (r: BlockServantOffsetRange)
        ensures
            r.block_entry == block_entry,
            r.v_range == v_range,
    {
        BlockServantOffsetRange { block_entry, v_range }
    }

    pub fn get_block_entry(&self) -> (b: BlockAddr)
        ensures
            b == self.block_entry,
    {
        self.block_entry
    }

    pub fn get_start(&self) -> (v: VirtualAddr)
        ensures
            v == self.v_range.start,
    {
        self.v_range.start
    }

    pub fn get_end(&self) -> (v: VirtualAddr)
        ensures
            v == self.v_range.end,
    {
        self.v_range.end
    }

    pub fn get_len(&self) -> (n: u32)
        ensures
            n == self.v_range.len.num,
    {
        self.v_range.len.len()
    }
}

/// A range of disk addresses `start .. end`, with its length.
#[derive(Debug)]
pub struct AddrRange {
    pub start: Addr,
    pub end: Addr,
    pub len: u32,
}

impl AddrRange {
    pub fn new(start: Addr, end: Addr) -> (r: Self)
        requires
            start.addr <= end.addr,
        ensures
            r.start == start,
            r.end == end,
            r.len == end.addr - start.addr,
    {
        let len = end.sub(start);
        AddrRange { start, end, len }
    }

    /// The disk addresses of a piece: its offsets taken inside its block.
    pub fn from_block_servant_range(range: BlockServantOffsetRange) -> (r: Self)
        requires
            range.v_range.start.addr <= range.v_range.end.addr,
            range.v_range.end.addr + range.block_entry.addr * 1024 <= u32::MAX,
        ensures
            r.start.addr == range.v_range.start.addr + range.block_entry.addr * 1024,
            r.end.addr == range.v_range.end.addr + range.block_entry.addr * 1024,
            r.len == range.v_range.end.addr - range.v_range.start.addr,
    {
        let entry = range.get_block_entry();
        let start = range.get_start().add_block(entry);
        let end = range.get_end().add_block(entry);
        AddrRange::new(start, end)
    }
}


/// Address `a` holds one of the bytes `off .. off + size` of the file whose
/// chain starts at `e`.
pub open spec fn written_by(d: Seq<u8>, e: nat, off: nat, size: nat, a: int) -> bool {
    exists|p: nat| off <= p < off + size && #[trigger] phys(d, e, p) == a
}

/// `d1` is `d0` after writing `data[0 .. size]` at offset `off` of the file
/// whose chain starts at `e`: those bytes changed, no other byte did.
pub open spec fn file_write_post(d0: Seq<u8>, d1: Seq<u8>, e: nat, off: nat, data: Seq<u8>, size: nat) -> bool {
    &&& d1.len() == d0.len()
    &&& forall|p: nat| off <= p < off + size ==> d1[#[trigger] phys(d0, e, p) as int] == data[p - off]
    &&& forall|a: int| 0 <= a < d0.len() && !written_by(d0, e, off, size, a) ==> #[trigger] d1[a] == d0[a]
}


/// Number of blocks needed to grow a file of `max_len` allocated bytes so
/// that it holds `want` bytes.
pub open spec fn blocks_needed(max_len: nat, want: nat) -> nat {
    if want <= max_len { 0 } else { ((want - max_len + 1023) / 1024) as nat }
}

/// The lowest free blocks, at most `want` of them, in increasing order.
pub(crate) fn collect_free_blocks(disk: &VirtualDisk, want: u32) -> (v: Vec<BlockAddr>)
    requires
        fs_wf(disk@),
    ensures
        v@.len() <= want,
        forall|k: int| 0 <= k < v@.len() ==> (#[trigger] v@[k]).addr < num_blocks(disk@) && is_free(disk@, v@[k].addr as nat),
        forall|j: int, k: int| 0 <= j < k < v@.len() ==> (#[trigger] v@[j]).addr < (#[trigger] v@[k]).addr,
        v@.len() < want ==> v@.len() == free_count(disk@, num_blocks(disk@)),
        v@.len() <= free_count(disk@, num_blocks(disk@)),
{
    let bit_map = BlockBitmap::new(BlockAddr { addr: FAT_ENTRY }, 256, 2);
    let nb = (disk.len() / 1024) as u32;
    let mut v: Vec<BlockAddr> = Vec::new();
    let mut b: u32 = 0;
    proof { lemma_fat_in_table(disk@, 0); }
    while b < nb && v.len() < want as usize
        invariant
            fs_wf(disk@),
            nb == num_blocks(disk@),
            bit_map.is_file_table(),
            bit_map.entry() == FAT_ENTRY,
            b <= nb,
            v@.len() <= want,
            v@.len() == free_count(disk@, b as nat),
            forall|k: int| 0 <= k < v@.len() ==> (#[trigger] v@[k]).addr < b && is_free(disk@, v@[k].addr as nat),
            forall|j: int, k: int| 0 <= j < k < v@.len() ==> (#[trigger] v@[j]).addr < (#[trigger] v@[k]).addr,
        decreases nb - b,
    {
        if bit_map.check_block_empty(disk, BlockAddr::new(b)) {
            v.push(BlockAddr::new(b));
        }
        b = b + 1;
    }
    proof { crate::disk::lemma_free_count_mono(disk@, b as nat, nb as nat); }
    v
}

/// `1024 * j` stays below `gap` exactly for the `j` under the number of
/// blocks that cover `gap` bytes.
proof fn lemma_blocks_cover(gap: nat, j: nat)
    requires
        gap > 0,
    ensures
        (1024 * j < gap) <==> (j < (gap + 1023) / 1024),
{
    assert((1024 * j < gap) <==> (j < (gap + 1023) / 1024)) by (nonlinear_arith)
        requires gap > 0;
}

/// Reads and writes the bytes of the file whose chain of blocks starts at
/// `entry`.
#[derive(Debug, Clone, Copy)]
pub struct BlockServant {
    pub entry: BlockAddr,
}

impl BlockServant {
    pub fn new(entry: BlockAddr) -> (s: BlockServant)
        ensures
            s.entry == entry,
    {
        BlockServant { entry }
    }

    /// Writes `data[0 .. size]` at offset `offset` of the file.
    pub fn write(&self, disk: &mut VirtualDisk, offset: u32, data: &Vec<u8>, size: u32) -> (r: Result<(), ()>)
        requires
            fs_wf(old(disk)@),
            offset + size <= MAX_VADDR,
            size <= data@.len(),
            exists|n: nat| chain_wf(old(disk)@, self.entry.addr as nat, n) && offset + size <= n * 1024,
        ensures
            r is Ok,
            fs_wf(final(disk)@),
            file_write_post(old(disk)@, final(disk)@, self.entry.addr as nat, offset as nat, data@, size as nat),
            forall|n: nat| chain_wf(old(disk)@, self.entry.addr as nat, n) ==> chain_wf(final(disk)@, self.entry.addr as nat, n),
            forall|b: nat| b < num_blocks(old(disk)@) ==> #[trigger] fat(final(disk)@, b) == fat(old(disk)@, b),
            forall|a: int| 0 <= a < table_end(old(disk)@) ==> final(disk)@[a] == old(disk)@[a],
    {
        let ghost d0 = disk@;
        let ghost e = self.entry.addr as nat;
        let ghost n = choose|n: nat| chain_wf(d0, e, n) && offset + size <= n * 1024;
        let ghost off = offset as nat;
        let ghost end = (offset + size) as nat;
        let mut fw = FileWriter::new(IoOption::Other(BLOCK_SIZE));
        let ptr = data.as_slice();
        let start = VirtualAddr { addr: offset };
        let range = VirtualRange::with_size(start, size);
        let gap = range.relative_start_block_gap();
        let bit_map = BlockBitmap::new(BlockAddr { addr: FAT_ENTRY }, 256, 2);
        proof {
            lemma_fat_in_table(d0, 0);
            assert(gap <= n) by (nonlinear_arith)
                requires gap == off / 1024, off <= end, end <= n * 1024;
        }
        let mut now_block = self.entry;
        let mut i: u32 = 0;
        while i < gap
            invariant
                fs_wf(d0),
                disk@ == d0,
                chain_wf(d0, e, n),
                gap <= n,
                i <= gap,
                bit_map.is_file_table(),
                bit_map.entry() == FAT_ENTRY,
                now_block.addr == chain_block(d0, e, i as nat),
            decreases gap - i,
        {
            proof { crate::file_io::lemma_chain_valid(d0, e, n, i as nat); }
            now_block = bit_map.get_content(disk, now_block);
            i = i + 1;
        }
        let mut index: usize = 0;
        let mut it = range.iter();
        loop
            invariant_except_break
                it.current.addr <= end + 1024,
            invariant
                fs_wf(d0),
                chain_wf(d0, e, n),
                end <= n * 1024,
                end <= MAX_VADDR,
                end == off + size,
                size <= data@.len(),
                ptr@ == data@,
                bit_map.is_file_table(),
                bit_map.entry() == FAT_ENTRY,
                disk@.len() == d0.len(),
                forall|a: int| 0 <= a < table_end(d0) ==> #[trigger] disk@[a] == d0[a],
                it.end.addr == end,
                it.current.addr >= off,
                it.current.addr == off || it.current.addr % 1024 == 0,
                it.current.addr < end ==> now_block.addr == chain_block(d0, e, (it.current.addr / 1024) as nat),
                index == (if it.current.addr < end { it.current.addr as nat } else { end }) - off,
                forall|p: nat| off <= p < (if it.current.addr < end { it.current.addr as nat } else { end }) ==>
                    disk@[#[trigger] phys(d0, e, p) as int] == data@[p - off],
                forall|a: int| 0 <= a < d0.len() && !written_by(d0, e, off, ((if it.current.addr < end { it.current.addr as nat } else { end }) - off) as nat, a)
                    ==> #[trigger] disk@[a] == d0[a],
            ensures
                disk@.len() == d0.len(),
                forall|a: int| 0 <= a < table_end(d0) ==> #[trigger] disk@[a] == d0[a],
                forall|p: nat| off <= p < end ==> disk@[#[trigger] phys(d0, e, p) as int] == data@[p - off],
                forall|a: int| 0 <= a < d0.len() && !written_by(d0, e, off, size as nat, a) ==> #[trigger] disk@[a] == d0[a],
            decreases end + 1024 - it.current.addr,
        {
            let ghost c = it.current.addr as nat;
            match it.next() {
                Some(piece) => {
                    let ghost pe = piece_end(c, end);
                    let ghost d1 = disk@;
                    proof {
                        lemma_piece(c, end);
                        assert(c / 1024 < n) by (nonlinear_arith)
                            requires c < end, end <= n * 1024;
                        crate::file_io::lemma_chain_valid(d0, e, n, c / 1024);
                        lemma_fs_wf_table_same(d0, d1);
                    }
                    let next_block = bit_map.get_content(disk, now_block);
                    let bo_range = BlockServantOffsetRange::new(now_block, piece);
                    let b = now_block;
                    now_block = next_block;
                    let l = bo_range.get_len();
                    let dp = DataPack::new(ptr, index, l);
                    index = index + l as usize;
                    let _ = fw.write(disk, bo_range, dp);
                    proof {
                        let d2 = disk@;
                        let base = b.addr * 1024 + c % 1024;
                        assert(b.addr * 1024 >= table_end(d0));
                        assert forall|p: nat| off <= p < pe implies d2[#[trigger] phys(d0, e, p) as int] == data@[p - off] by {
                            lemma_phys_in_block(d0, e, p);
                            if p < c {
                                lemma_before_boundary(p, c);
                                assert(p / 1024 < n) by (nonlinear_arith)
                                    requires p < end, end <= n * 1024;
                                assert(chain_block(d0, e, p / 1024) != chain_block(d0, e, c / 1024));
                                lemma_phys_data(d0, e, n, p);
                                let q = phys(d0, e, p);
                                assert(q / 1024 != b.addr);
                                assert(!(base <= q < base + (pe - c))) by (nonlinear_arith)
                                    requires q / 1024 != b.addr, base == b.addr * 1024 + c % 1024, c % 1024 + (pe - c) <= 1024;
                            } else {
                                assert(p / 1024 == c / 1024);
                                assert(phys(d0, e, p) == base + (p - c));
                                assert(d2[base + (p - c)] == ptr@[index - l + (p - c)]);
                            }
                        }
                        assert forall|a: int| 0 <= a < d0.len() && !written_by(d0, e, off, (pe - off) as nat, a)
                            implies #[trigger] d2[a] == d0[a] by {
                            if base <= a < base + (pe - c) {
                                let p = (c + (a - base)) as nat;
                                assert(p / 1024 == c / 1024);
                                assert(phys(d0, e, p) == a);
                                assert(written_by(d0, e, off, (pe - off) as nat, a));
                            } else {
                                if written_by(d0, e, off, (c - off) as nat, a) {
                                    let p = choose|p: nat| off <= p < off + (c - off) && #[trigger] phys(d0, e, p) == a;
                                    assert(written_by(d0, e, off, (pe - off) as nat, a));
                                }
                            }
                        }
                        assert forall|a: int| 0 <= a < table_end(d0) implies #[trigger] d2[a] == d0[a] by {
                            assert(!(base <= a < base + (pe - c)));
                        }
                        if pe < end {
                            assert(pe == next_boundary(c));
                        }
                    }
                },
                None => {
                    break;
                },
            }
        }
        proof {
            lemma_fs_wf_table_same(d0, disk@);
            assert forall|m: nat| chain_wf(d0, e, m) implies chain_wf(disk@, e, m) by {
                lemma_chain_kept(d0, disk@, e, m);
            }
        }
        Ok(())
    }

    /// Makes the file hold at least `offset + size` bytes: when
    /// `file_max_len` bytes are too few, appends the lowest free blocks to its
    /// chain and returns the new allocated length; `Err`, with the disk
    /// unchanged, when there are not enough free blocks.
    pub fn write_check(&self, disk: &mut VirtualDisk, file_max_len: u32, offset: u32, size: u32) -> (r: Result<u32, ()>)
        requires
            fs_wf(old(disk)@),
            offset + size <= MAX_VADDR,
            file_max_len % 1024 == 0,
            chain_wf(old(disk)@, self.entry.addr as nat, (file_max_len / 1024) as nat),
        ensures
            fs_wf(final(disk)@),
            final(disk)@.len() == old(disk)@.len(),
            match r {
                Ok(m) => {
                    let n0 = (file_max_len / 1024) as nat;
                    let e = self.entry.addr as nat;
                    &&& m == file_max_len + 1024 * blocks_needed(file_max_len as nat, (offset + size) as nat)
                    &&& (blocks_needed(file_max_len as nat, (offset + size) as nat) == 0 ==> final(disk)@ == old(disk)@)
                    &&& blocks_needed(file_max_len as nat, (offset + size) as nat) <= free_count(old(disk)@, num_blocks(old(disk)@))
                    &&& m >= offset + size
                    &&& m % 1024 == 0
                    &&& chain_wf(final(disk)@, e, (m / 1024) as nat)
                    &&& forall|k: nat| k < n0 ==> #[trigger] chain_block(final(disk)@, e, k) == chain_block(old(disk)@, e, k)
                    &&& forall|k: nat| n0 <= k < m / 1024 ==> is_free(old(disk)@, #[trigger] chain_block(final(disk)@, e, k))
                    &&& forall|c: nat| c < num_blocks(old(disk)@) && !is_free(old(disk)@, c) && c != chain_block(old(disk)@, e, (n0 - 1) as nat)
                        ==> #[trigger] fat(final(disk)@, c) == fat(old(disk)@, c)
                    &&& forall|a: int| 0 <= a < old(disk)@.len() && (a < FAT_ENTRY * 1024 || a >= table_end(old(disk)@))
                        ==> #[trigger] final(disk)@[a] == old(disk)@[a]
                },
                Err(_) => {
                    &&& final(disk)@ == old(disk)@
                    &&& free_count(old(disk)@, num_blocks(old(disk)@)) < blocks_needed(file_max_len as nat, (offset + size) as nat)
                },
            },
    {
        if file_max_len as u64 >= offset as u64 + size as u64 {
            return Ok(file_max_len);
        }
        let ghost d0 = disk@;
        let ghost e = self.entry.addr as nat;
        let ghost n0 = (file_max_len / 1024) as nat;
        let needed = (offset + size - file_max_len + 1023) / 1024;
        let free = collect_free_blocks(disk, needed);
        if free.len() < needed as usize {
            return Err(());
        }
        let bit_map = BlockBitmap::new(BlockAddr { addr: FAT_ENTRY }, 256, 2);
        let mut last_block = match bit_map.find_final_block(disk, self.entry) {
            Ok(b) => b,
            Err(_) => {
                return Err(());
            },
        };
        let mut now_len = file_max_len;
        let mut j: usize = 0;
        proof {
            lemma_fat_in_table(d0, 0);
            crate::bitmap::lemma_chain_entries(d0, e, n0);
            assert(file_max_len == n0 * 1024);
        }
        while now_len < offset + size
            invariant
                fs_wf(disk@),
                fs_wf(d0),
                chain_wf(d0, e, n0),
                n0 >= 1,
                file_max_len == n0 * 1024,
                disk@.len() == d0.len(),
                bit_map.is_file_table(),
                bit_map.entry() == FAT_ENTRY,
                offset + size <= MAX_VADDR,
                needed == blocks_needed(file_max_len as nat, (offset + size) as nat),
                file_max_len < offset + size,
                free@.len() == needed,
                forall|k: int| 0 <= k < free@.len() ==> (#[trigger] free@[k]).addr < num_blocks(d0) && is_free(d0, free@[k].addr as nat),
                forall|i: int, k: int| 0 <= i < k < free@.len() ==> (#[trigger] free@[i]).addr < (#[trigger] free@[k]).addr,
                j <= needed,
                now_len == file_max_len + 1024 * j,
                chain_wf(disk@, e, (n0 + j) as nat),
                last_block.addr == chain_block(disk@, e, (n0 + j - 1) as nat),
                forall|k: nat| k < n0 ==> #[trigger] chain_block(disk@, e, k) == chain_block(d0, e, k),
                forall|k: nat| n0 <= k < n0 + j ==> #[trigger] chain_block(disk@, e, k) == free@[k - n0].addr,
                forall|c: nat| c < num_blocks(d0) && c != chain_block(d0, e, (n0 - 1) as nat)
                    && (forall|k: int| 0 <= k < j ==> free@[k].addr != c) ==> #[trigger] fat(disk@, c) == fat(d0, c),
                forall|a: int| 0 <= a < d0.len() && (a < FAT_ENTRY * 1024 || a >= table_end(d0)) ==> #[trigger] disk@[a] == d0[a],
            decreases needed - j,
        {
            proof {
                lemma_blocks_cover((offset + size - file_max_len) as nat, j as nat);
            }
            let b = free[j];
            let ghost d1 = disk@;
            proof {
                assert(forall|k: int| 0 <= k < j ==> free@[k].addr != b.addr);
                assert(!is_free(d0, chain_block(d0, e, (n0 - 1) as nat)));
                assert(b.addr != chain_block(d0, e, (n0 - 1) as nat));
                assert(fat(d1, b.addr as nat) == fat(d0, b.addr as nat));
                assert(is_free(d1, b.addr as nat));
                crate::bitmap::lemma_chain_entries(d1, e, (n0 + j) as nat);
                assert(!is_free(d1, last_block.addr as nat));
                assert(is_data_block(d1, last_block.addr as nat));
            }
            bit_map.set_value(disk, b, BlockAddr::new(END_NUM));
            let ghost d2 = disk@;
            proof { lemma_fs_wf_entry_write(d1, d2, b.addr as nat, END_NUM); }
            bit_map.set_value(disk, last_block, b);
            let ghost d3 = disk@;
            proof {
                lemma_fs_wf_entry_write(d2, d3, last_block.addr as nat, b.addr);
                lemma_chain_extend(d1, d3, e, (n0 + j) as nat, b.addr as nat);
            }
            last_block = b;
            now_len = now_len + 1024;
            j = j + 1;
            proof {
                assert forall|k: nat| n0 <= k < n0 + j implies #[trigger] chain_block(disk@, e, k) == free@[k - n0].addr by {
                    if k < n0 + j - 1 {
                        assert(chain_block(d1, e, k) == free@[k - n0].addr);
                    }
                }
                assert forall|c: nat| c < num_blocks(d0) && c != chain_block(d0, e, (n0 - 1) as nat)
                    && (forall|k: int| 0 <= k < j ==> free@[k].addr != c) implies #[trigger] fat(disk@, c) == fat(d0, c) by {
                    assert(free@[j - 1].addr != c);
                    if c == chain_block(d1, e, (n0 + j - 2) as nat) {
                        if j >= 2 {
                            assert(chain_block(d1, e, (n0 + j - 2) as nat) == free@[j - 2].addr);
                        }
                    }
                    assert(forall|k: int| 0 <= k < j - 1 ==> free@[k].addr != c);
                }
            }
        }
        proof {
            lemma_blocks_cover((offset + size - file_max_len) as nat, j as nat);
            assert(now_len / 1024 == n0 + j) by (nonlinear_arith)
                requires now_len == n0 * 1024 + 1024 * j;
            assert(now_len % 1024 == 0) by (nonlinear_arith)
                requires now_len == n0 * 1024 + 1024 * j;
            assert forall|k: nat| n0 <= k < now_len / 1024 implies is_free(d0, #[trigger] chain_block(disk@, e, k)) by {
                assert(chain_block(disk@, e, k) == free@[k - n0].addr);
            }
            assert forall|c: nat| c < num_blocks(d0) && !is_free(d0, c) && c != chain_block(d0, e, (n0 - 1) as nat)
                implies #[trigger] fat(disk@, c) == fat(d0, c) by {
                assert forall|k: int| 0 <= k < j implies free@[k].addr != c by {
                    assert(is_free(d0, free@[k].addr as nat));
                }
            }
        }
        Ok(now_len)
    }

    /// Appends bytes `offset .. offset + size` of the file to `data`.
    pub fn read(&self, disk: &VirtualDisk, offset: u32, data: &mut Vec<u8>, size: u32) -> (r: Result<(), ()>)
        requires
            fs_wf(disk@),
            offset + size <= MAX_VADDR,
            exists|n: nat| chain_wf(disk@, self.entry.addr as nat, n) && offset + size <= n * 1024,
        ensures
            r is Ok,
            final(data)@ == old(data)@ + file_range(disk@, self.entry.addr as nat, offset as nat, size as nat),
    {
        let mut fr = FileReader::new(IoOption::Other(BLOCK_SIZE));
        let start = VirtualAddr { addr: offset };
        let range = VirtualRange::with_size(start, size);
        fr.read(disk, range, data, self.entry);
        Ok(())
    }

    /// `Ok` when bytes `offset .. offset + size` lie within the file's length.
    pub fn read_check(&self, file_len: u32, offset: u32, size: u32) -> (r: Result<(), ()>)
        ensures
            r is Ok <==> file_len >= offset + size,
    {
        if file_len as u64 >= offset as u64 + size as u64 {
            Ok(())
        } else {
            Err(())
        }
    }
}

} // verus!
