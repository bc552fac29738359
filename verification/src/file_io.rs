use vstd::prelude::*;
use crate::addr::{Addr, BlockAddr};
use crate::bitmap::{BlockBitmap, BlockOffset};
use crate::block_servant::{
    next_boundary, piece_end, BlockServantOffsetRange, DataPack, VirtualRange, MAX_VADDR,
};
use crate::config::{BLOCK_SIZE, FAT_ENTRY};
use crate::disk::{
    chain_block, chain_wf, fat, file_range, fs_wf, is_data_block, lemma_fat_in_table,
    num_blocks, phys, table_end, u32_at, VirtualDisk,
};

verus! {

/// Facts on a piece `c .. piece_end(c, end)` of a range.
pub proof fn lemma_piece(c: nat, end: nat)
    requires
        c < end,
    ensures
        c < piece_end(c, end) <= end,
        piece_end(c, end) <= next_boundary(c),
        piece_end(c, end) - c <= 1024,
        next_boundary(c) / 1024 == c / 1024 + 1,
        next_boundary(c) % 1024 == 0,
        next_boundary(c) > c,
        c % 1024 + (piece_end(c, end) - c) <= 1024,
        forall|p: nat| c <= p < piece_end(c, end) ==> #[trigger] (p / 1024) == c / 1024 && p % 1024 == c % 1024 + (p - c),
{
    let q = c / 1024;
    assert(c == q * 1024 + c % 1024) by (nonlinear_arith)
        requires q == c / 1024;
    assert(next_boundary(c) == q * 1024 + 1024) by (nonlinear_arith)
        requires q == c / 1024;
    assert(next_boundary(c) / 1024 == q + 1) by (nonlinear_arith)
        requires next_boundary(c) == q * 1024 + 1024;
    assert(next_boundary(c) % 1024 == 0) by (nonlinear_arith)
        requires next_boundary(c) == q * 1024 + 1024;
    assert forall|p: nat| c <= p < piece_end(c, end) implies #[trigger] (p / 1024) == c / 1024 && p % 1024
        == c % 1024 + (p - c) by {
        assert(p == q * 1024 + (c % 1024 + (p - c)));
        assert(c % 1024 + (p - c) < 1024);
        assert(p / 1024 == q && p % 1024 == c % 1024 + (p - c)) by (nonlinear_arith)
            requires p == q * 1024 + (c % 1024 + (p - c)), 0 <= c % 1024 + (p - c) < 1024;
    }
}

/// A disk address inside block `x` at byte `r`.
pub proof fn lemma_block_split(x: nat, r: nat)
    requires
        r < 1024,
    ensures
        (x * 1024 + r) / 1024 == x,
        (x * 1024 + r) % 1024 == r,
{
    assert((x * 1024 + r) / 1024 == x && (x * 1024 + r) % 1024 == r) by (nonlinear_arith)
        requires r < 1024;
}

/// Offsets before a block boundary lie in earlier blocks.
pub proof fn lemma_before_boundary(p: nat, c: nat)
    requires
        p < c,
        c % 1024 == 0,
    ensures
        p / 1024 < c / 1024,
{
    assert(p / 1024 < c / 1024) by (nonlinear_arith)
        requires p < c, c % 1024 == 0;
}

/// Offset `p` of a file lies in block `chain_block(p / 1024)`.
pub proof fn lemma_phys_in_block(d: Seq<u8>, e: nat, p: nat)
    ensures
        phys(d, e, p) / 1024 == chain_block(d, e, p / 1024),
        phys(d, e, p) % 1024 == p % 1024,
{
    lemma_block_split(chain_block(d, e, p / 1024), p % 1024);
}

/// Offsets inside the first `n` blocks of a well-formed chain lie in data
/// blocks, after the allocation table.
pub proof fn lemma_phys_data(d: Seq<u8>, e: nat, n: nat, p: nat)
    requires
        chain_wf(d, e, n),
        p < n * 1024,
    ensures
        is_data_block(d, phys(d, e, p) / 1024),
        phys(d, e, p) >= table_end(d),
        phys(d, e, p) < d.len(),
{
    assert(p / 1024 < n) by (nonlinear_arith)
        requires p < n * 1024;
    lemma_phys_in_block(d, e, p);
    let b = chain_block(d, e, p / 1024);
    assert(is_data_block(d, b));
    assert(b * 1024 + 1024 <= d.len()) by (nonlinear_arith)
        requires b < d.len() / 1024;
}

/// Two offsets in different blocks of a chain lie at different addresses.
pub proof fn lemma_phys_distinct(d: Seq<u8>, e: nat, n: nat, p: nat, q: nat)
    requires
        chain_wf(d, e, n),
        p < n * 1024,
        q < n * 1024,
        p != q,
    ensures
        phys(d, e, p) != phys(d, e, q),
{
    assert(p / 1024 < n && q / 1024 < n) by (nonlinear_arith)
        requires p < n * 1024, q < n * 1024;
    lemma_phys_in_block(d, e, p);
    lemma_phys_in_block(d, e, q);
    if p / 1024 == q / 1024 {
        assert(p % 1024 != q % 1024) by (nonlinear_arith)
            requires p / 1024 == q / 1024, p != q;
    } else if p / 1024 < q / 1024 {
        assert(chain_block(d, e, p / 1024) != chain_block(d, e, q / 1024));
    } else {
        assert(chain_block(d, e, q / 1024) != chain_block(d, e, p / 1024));
    }
}

/// How a file is accessed.
pub enum IoOption {
    Bitmap,
    Other(u32),
}

/// Writes pieces of files, and table entries, onto the disk.
#[derive(Debug)]
pub struct FileWriter {
    pub capacity: u32,
}

impl FileWriter {
    pub fn new(opt: IoOption) -> (w: FileWriter)
        ensures
            w.capacity == match opt {
                IoOption::Bitmap => 4u32,
                IoOption::Other(_) => BLOCK_SIZE,
            },
    {
        match opt {
            IoOption::Bitmap => FileWriter { capacity: 4 },
            IoOption::Other(_) => FileWriter { capacity: BLOCK_SIZE },
        }
    }

    /// Stores `value` at the table position `b_off`.
    pub fn bitmap_write(&mut self, disk: &mut VirtualDisk, b_off: BlockOffset, value: BlockAddr)
        requires
            b_off.b_offset.num * 1024 + b_off.w_offset.num + 4 <= old(disk)@.len(),
            old(disk)@.len() <= u32::MAX,
        ensures
            *final(self) == *old(self),
            final(disk)@.len() == old(disk)@.len(),
            u32_at(final(disk)@, (b_off.b_offset.num * 1024 + b_off.w_offset.num) as nat) == value.addr,
            forall|i: int| 0 <= i < old(disk)@.len() && !(b_off.b_offset.num * 1024 + b_off.w_offset.num <= i
                < b_off.b_offset.num * 1024 + b_off.w_offset.num + 4) ==> final(disk)@[i] == old(disk)@[i],
    {
        let addr = b_off.addr_offset();
        disk.write_u32(addr.get_raw_num(), value.addr);
    }

    /// Length of the disk image in bytes.
    pub fn get_file_len(&self, disk: &VirtualDisk) -> (n: u64)
        ensures
            n == disk@.len(),
    {
        disk.len() as u64
    }

    /// Writes one piece of a file into its block: the bytes of the piece get
    /// `dp.write_in[dp.index ..]`, the rest of the block is kept.
    pub fn write(&mut self, disk: &mut VirtualDisk, br: BlockServantOffsetRange, dp: DataPack) -> (r: Result<(), ()>)
        requires
            br.v_range.start.addr < br.v_range.end.addr,
            br.v_range.end.addr <= next_boundary(br.v_range.start.addr as nat),
            (br.block_entry.addr + 1) * 1024 <= old(disk)@.len(),
            old(disk)@.len() <= u32::MAX,
            dp.index + (br.v_range.end.addr - br.v_range.start.addr) <= dp.write_in@.len(),
        ensures
            *final(self) == *old(self),
            r is Ok,
            final(disk)@.len() == old(disk)@.len(),
            forall|j: int| 0 <= j < br.v_range.end.addr - br.v_range.start.addr ==>
                final(disk)@[br.block_entry.addr * 1024 + br.v_range.start.addr % 1024 + j] == #[trigger] dp.write_in@[dp.index + j],
            forall|i: int| 0 <= i < old(disk)@.len() && !(br.block_entry.addr * 1024 + br.v_range.start.addr % 1024 <= i
                < br.block_entry.addr * 1024 + br.v_range.start.addr % 1024 + (br.v_range.end.addr - br.v_range.start.addr))
                ==> final(disk)@[i] == old(disk)@[i],
    {
        let ptr = dp.write_in;
        let entry = br.get_block_entry().into_addr().get_raw_num();
        let mut block = disk.read_bytes(entry, BLOCK_SIZE);
        let start = br.get_start().rem(BLOCK_SIZE);
        let mut end = br.get_end().rem(BLOCK_SIZE);
        if end == 0 {
            end = BLOCK_SIZE;
        }
        proof {
            lemma_piece(br.v_range.start.addr as nat, br.v_range.end.addr as nat);
            let s = br.v_range.start.addr as nat;
            let t = br.v_range.end.addr as nat;
            if t < next_boundary(s) {
                assert(piece_end(s, t) == t);
                assert(t / 1024 == s / 1024);
                assert(end == t % 1024);
            } else {
                assert(t == next_boundary(s));
            }
            assert(end - start == t - s);
        }
        let mut count = dp.index;
        let mut i = start;
        while i < end
            invariant
                start <= i <= end <= 1024,
                end - start == br.v_range.end.addr - br.v_range.start.addr,
                start == br.v_range.start.addr % 1024,
                count == dp.index + (i - start),
                dp.index + (end - start) <= ptr@.len(),
                ptr == dp.write_in,
                block@.len() == 1024,
                forall|j: int| start <= j < i ==> block@[j] == ptr@[dp.index + (j - start)],
                forall|j: int| 0 <= j < 1024 && !(start <= j < i) ==> block@[j] == old(disk)@[entry + j],
            decreases end - i,
        {
            block.set(i as usize, ptr[count]);
            count = count + 1;
            i = i + 1;
        }
        disk.write_bytes(entry, block.as_slice());
        proof {
            assert forall|i: int| 0 <= i < old(disk)@.len() && !(entry + start <= i < entry + end)
                implies disk@[i] == old(disk)@[i] by {
                if entry <= i < entry + 1024 {
                    assert(disk@[i] == block@[i - entry]);
                }
            }
            assert forall|j: int| 0 <= j < end - start implies disk@[entry + start + j] == #[trigger] ptr@[dp.index + j] by {
                assert(disk@[entry + (start + j)] == block@[start + j]);
            }
        }
        Ok(())
    }
}

/// Reads pieces of files, and table entries, from the disk.
#[derive(Debug)]
pub struct FileReader {
    pub capacity: u32,
}

/// Facts on the first blocks of a chain used by the readers and writers.
pub proof fn lemma_chain_valid(d: Seq<u8>, e: nat, n: nat, k: nat)
    requires
        fs_wf(d),
        chain_wf(d, e, n),
        k < n,
    ensures
        chain_block(d, e, k) < num_blocks(d),
        (chain_block(d, e, k) + 1) * 1024 <= d.len(),
        chain_block(d, e, k + 1) == fat(d, chain_block(d, e, k)),
{
    let b = chain_block(d, e, k);
    assert(is_data_block(d, b));
    assert((b + 1) * 1024 <= d.len()) by (nonlinear_arith)
        requires b < d.len() / 1024;
}

impl FileReader {
    pub fn new(option: IoOption) -> (r: FileReader)
        ensures
            r.capacity == match option {
                IoOption::Bitmap => 4u32,
                IoOption::Other(c) => c,
            },
    {
        match option {
            IoOption::Bitmap => FileReader { capacity: 4 },
            IoOption::Other(buf) => FileReader { capacity: buf },
        }
    }

    /// The value stored at the table position `offset`.
    pub fn bitmap_read(&mut self, disk: &VirtualDisk, offset: BlockOffset) -> (r: BlockAddr)
        requires
            offset.b_offset.num * 1024 + offset.w_offset.num + 4 <= disk@.len(),
            disk@.len() <= u32::MAX,
        ensures
            *final(self) == *old(self),
            r.addr == u32_at(disk@, (offset.b_offset.num * 1024 + offset.w_offset.num) as nat),
    {
        let offset = offset.addr_offset();
        BlockAddr::new(disk.read_u32(offset.get_raw_num()))
    }

    /// Appends to `v` the bytes of `range` of the file whose chain starts at
    /// `block`.
    pub fn read(&mut self, disk: &VirtualDisk, range: VirtualRange, v: &mut Vec<u8>, block: BlockAddr)
        requires
            fs_wf(disk@),
            range.start.addr <= range.end.addr <= MAX_VADDR,
            exists|n: nat| chain_wf(disk@, block.addr as nat, n) && range.end.addr <= n * 1024,
        ensures
            *final(self) == *old(self),
            final(v)@ == old(v)@ + file_range(disk@, block.addr as nat, range.start.addr as nat,
                (range.end.addr - range.start.addr) as nat),
    {
        let ghost n = choose|n: nat| chain_wf(disk@, block.addr as nat, n) && range.end.addr <= n * 1024;
        let ghost e = block.addr as nat;
        let ghost d = disk@;
        let ghost off = range.start.addr as nat;
        let ghost end = range.end.addr as nat;
        let gap = range.relative_start_block_gap();
        let bit_map = BlockBitmap::new(BlockAddr { addr: FAT_ENTRY }, 256, 2);
        proof {
            lemma_fat_in_table(d, 0);
            assert(gap <= n) by (nonlinear_arith)
                requires gap == off / 1024, off <= end, end <= n * 1024;
        }
        let mut now_block = block;
        let mut i: u32 = 0;
        while i < gap
            invariant
                fs_wf(d),
                disk@ == d,
                chain_wf(d, e, n),
                gap <= n,
                i <= gap,
                bit_map.is_file_table(),
                bit_map.entry() == FAT_ENTRY,
                now_block.addr == chain_block(d, e, i as nat),
            decreases gap - i,
        {
            proof { lemma_chain_valid(d, e, n, i as nat); }
            now_block = bit_map.get_content(disk, now_block);
            i = i + 1;
        }
        let mut it = range.iter();
        let ghost v0 = v@;
        loop
            invariant_except_break
                it.current.addr <= end + 1024,
            invariant
                fs_wf(d),
                disk@ == d,
                chain_wf(d, e, n),
                end <= n * 1024,
                end <= MAX_VADDR,
                bit_map.is_file_table(),
                bit_map.entry() == FAT_ENTRY,
                it.end.addr == end,
                *self == *old(self),
                it.current.addr == off || it.current.addr % 1024 == 0,
                it.current.addr < end ==> now_block.addr == chain_block(d, e, (it.current.addr / 1024) as nat),
                it.current.addr >= off,
                v@ == v0 + file_range(d, e, off, ((if it.current.addr < end { it.current.addr as nat } else { end }) - off) as nat),
            ensures
                *self == *old(self),
                v@ == v0 + file_range(d, e, off, (end - off) as nat),
            decreases end + 1024 - it.current.addr,
        {
            let ghost c = it.current.addr as nat;
            match it.next() {
                Some(piece) => {
                    let ghost pe = piece_end(c, end);
                    proof {
                        lemma_piece(c, end);
                        assert(c / 1024 < n) by (nonlinear_arith)
                            requires c < end, end <= n * 1024;
                        lemma_chain_valid(d, e, n, c / 1024);
                    }
                    let bytes = self.read_block(disk, now_block);
                    let start = piece.start.rem(BLOCK_SIZE);
                    let len = piece.len.len();
                    let mut j: u32 = 0;
                    let ghost vb = v@;
                    while j < len
                        invariant
                            j <= len,
                            len == pe - c,
                            start == c % 1024,
                            start + len <= 1024,
                            bytes@.len() == 1024,
                            (now_block.addr + 1) * 1024 <= d.len(),
                            bytes@ == d.subrange(now_block.addr * 1024, now_block.addr * 1024 + 1024),
                            v@ == vb + bytes@.subrange(start as int, start + j),
                        decreases len - j,
                    {
                        v.push(bytes[(start + j) as usize]);
                        j = j + 1;
                        assert(v@ =~= vb + bytes@.subrange(start as int, start + j));
                    }
                    proof {
                        let lo = (c - off) as nat;
                        let hi = (pe - off) as nat;
                        assert(file_range(d, e, off, hi) =~= file_range(d, e, off, lo)
                            + bytes@.subrange(start as int, start + len)) by {
                            assert forall|k: int| lo <= k < hi implies #[trigger] file_range(d, e, off, hi)[k]
                                == bytes@[start + (k - lo)] by {
                                let p = off + k as nat;
                                assert(c <= p < pe);
                                assert(p / 1024 == c / 1024);
                            }
                        }
                        if pe < end {
                            assert(pe == next_boundary(c));
                        }
                    }
                    now_block = bit_map.get_content(disk, now_block);
                },
                None => {
                    break;
                },
            }
        }
    }

    /// The 1024 bytes of `block`.
    fn read_block(&mut self, disk: &VirtualDisk, block: BlockAddr) -> (v: Vec<u8>)
        requires
            (block.addr + 1) * 1024 <= disk@.len(),
            disk@.len() <= u32::MAX,
        ensures
            *final(self) == *old(self),
            v@ == disk@.subrange(block.addr * 1024, block.addr * 1024 + 1024),
    {
        let offset = block.addr * BLOCK_SIZE;
        disk.read_bytes(offset, BLOCK_SIZE)
    }
}

} // verus!
