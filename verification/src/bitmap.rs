use vstd::prelude::*;
use crate::addr::{Addr, BlockAddr, BlockCount, BlockRange, WordAddrCount};
use crate::config::{BLOCK_SIZE, END_NUM, FAT_ENTRY, NON_OCCUPY_NUM};
use crate::disk::{chain_block, chain_wf, fat, fs_wf, is_data_block, is_free, lemma_chain_same, lemma_fat_in_table, table_end, fat_entry, fat_offset, lemma_fat_offset, lemma_fat_offsets_apart, num_blocks, u32_at, VirtualDisk};

verus! {

/// Where the table entry of a block lies: which table block, and which
/// byte inside it.
#[derive(Debug)]
pub struct BlockOffset {
    pub b_offset: BlockCount,
    pub w_offset: WordAddrCount,
}

impl BlockOffset {
    /// The position of the entry of `block`, counted from the table start.
    pub fn new(block: BlockAddr) -> (o: BlockOffset)
        ensures
            o.b_offset.num == block.addr / 256,
            o.w_offset.num == (block.addr % 256) * 4,
    {
        let rem = BLOCK_SIZE / 4;
        BlockOffset { b_offset: block.div(rem), w_offset: block.rem(rem).mul(4) }
    }

    /// The absolute byte address of the entry.
    pub fn addr_offset(&self) -> (a: Addr)
        requires
            self.b_offset.num * 1024 + self.w_offset.num <= u32::MAX,
        ensures
            a.addr == self.b_offset.num * 1024 + self.w_offset.num,
    {
        self.b_offset.add_word(self.w_offset)
    }

    /// The same position in a table that starts at block `rhs`.
    pub fn add(self, rhs: BlockAddr) -> (o: BlockOffset)
        requires
            self.b_offset.num + rhs.addr <= u32::MAX,
        ensures
            o.b_offset.num == self.b_offset.num + rhs.addr,
            o.w_offset == self.w_offset,
    {
        BlockOffset { b_offset: self.b_offset.add_block(rhs), w_offset: self.w_offset }
    }
}

/// The byte address of the entry of `block` in a table at block `entry`.
fn entry_addr(entry: BlockAddr, block: BlockAddr) -> (a: u32)
    requires
        fat_offset(entry.addr as nat, block.addr as nat) <= u32::MAX,
    ensures
        a == fat_offset(entry.addr as nat, block.addr as nat),
{
    let offset = BlockOffset::new(block).add(entry);
    offset.addr_offset().get_raw_num()
}

/// The entry of `b` lies on a disk image.
pub open spec fn entry_fits(d: Seq<u8>, entry: nat, b: nat) -> bool {
    &&& fat_offset(entry, b) + 4 <= d.len()
    &&& d.len() <= u32::MAX
}

/// `d1` is `d0` with the four bytes at `o` replaced by those of `v`.
pub open spec fn u32_written(d0: Seq<u8>, d1: Seq<u8>, o: nat, v: u32) -> bool {
    &&& d1.len() == d0.len()
    &&& u32_at(d1, o) == v
    &&& forall|i: int| 0 <= i < d0.len() && !(o <= i < o + 4) ==> d1[i] == d0[i]
}

/// Reads and writes the entries of an allocation table that starts at
/// `block_entry`.
#[derive(Debug)]
pub struct BitmapServant {
    pub block_entry: BlockAddr,
}

impl BitmapServant {
    pub fn new(block_entry: BlockAddr) -> (s: BitmapServant)
        ensures
            s.block_entry == block_entry,
    {
        BitmapServant { block_entry }
    }

    /// The number of whole blocks on the disk.
    pub fn file_max_block(&self, disk: &VirtualDisk) -> (b: BlockAddr)
        requires
            disk@.len() <= u32::MAX,
        ensures
            b.addr == num_blocks(disk@),
    {
        let u8_len = disk.len() as u32;
        BlockAddr::new(u8_len / BLOCK_SIZE)
    }

    /// Marks `block_addr` as not in use.
    pub fn set_non_occupied(&self, disk: &mut VirtualDisk, block_addr: BlockAddr)
        requires
            entry_fits(old(disk)@, self.block_entry.addr as nat, block_addr.addr as nat),
        ensures
            u32_written(
                old(disk)@,
                final(disk)@,
                fat_offset(self.block_entry.addr as nat, block_addr.addr as nat),
                NON_OCCUPY_NUM,
            ),
    {
        let a = entry_addr(self.block_entry, block_addr);
        disk.write_u32(a, NON_OCCUPY_NUM);
    }

    /// Stores `value` as the entry of `block_addr`.
    pub fn set_value(&self, disk: &mut VirtualDisk, block_addr: BlockAddr, value: BlockAddr)
        requires
            entry_fits(old(disk)@, self.block_entry.addr as nat, block_addr.addr as nat),
        ensures
            u32_written(
                old(disk)@,
                final(disk)@,
                fat_offset(self.block_entry.addr as nat, block_addr.addr as nat),
                value.addr,
            ),
    {
        let a = entry_addr(self.block_entry, block_addr);
        disk.write_u32(a, value.addr);
    }

    /// Whether `block` is marked as not in use.
    pub fn check_block_empty(&self, disk: &VirtualDisk, block: BlockAddr) -> (b: bool)
        requires
            entry_fits(disk@, self.block_entry.addr as nat, block.addr as nat),
        ensures
            b == (fat_entry(disk@, self.block_entry.addr as nat, block.addr as nat)
                == NON_OCCUPY_NUM),
    {
        let a = entry_addr(self.block_entry, block);
        let read = disk.read_u32(a);
        read == NON_OCCUPY_NUM
    }

    /// The entry of `block`.
    pub fn read_a_block(&self, disk: &VirtualDisk, block: BlockAddr) -> (r: BlockAddr)
        requires
            entry_fits(disk@, self.block_entry.addr as nat, block.addr as nat),
        ensures
            r.addr == fat_entry(disk@, self.block_entry.addr as nat, block.addr as nat),
    {
        let a = entry_addr(self.block_entry, block);
        BlockAddr::new(disk.read_u32(a))
    }
}

/// The table fits on the disk: one entry for each of its blocks.
pub open spec fn table_fits(d: Seq<u8>, entry: nat) -> bool {
    &&& d.len() <= u32::MAX
    &&& num_blocks(d) >= 1
    &&& entry * 1024 + 4 * num_blocks(d) <= d.len()
}

/// The allocation table of the file system: for each block, the next block
/// of its file, `END_NUM` for the last one, or `NON_OCCUPY_NUM` when free.
#[derive(Debug)]
pub struct BlockBitmap {
    pub servant: BitmapServant,
    pub block_num: u32,
    pub reserved_block_num: u32,
}

/// Facts on the position of table entries.
proof fn lemma_entry_facts(d: Seq<u8>, e: nat, b: nat)
    requires
        table_fits(d, e),
        b < num_blocks(d),
    ensures
        entry_fits(d, e, b),
        fat_offset(e, b) == e * 1024 + 4 * b,
        e * 1024 <= fat_offset(e, b),
        fat_offset(e, b) + 4 <= e * 1024 + 4 * num_blocks(d),
{
    lemma_fat_offset(e, b);
}

/// Writing the entry of `b` keeps the entries of the other blocks.
proof fn lemma_other_entries(d0: Seq<u8>, d1: Seq<u8>, e: nat, b: nat, v: u32)
    requires
        table_fits(d0, e),
        b < num_blocks(d0),
        u32_written(d0, d1, fat_offset(e, b), v),
    ensures
        fat_entry(d1, e, b) == v,
        forall|c: nat| c < num_blocks(d0) && c != b ==> #[trigger] fat_entry(d1, e, c) == fat_entry(d0, e, c),
{
    assert forall|c: nat| c < num_blocks(d0) && c != b implies #[trigger] fat_entry(d1, e, c)
        == fat_entry(d0, e, c) by {
        lemma_fat_offsets_apart(e, b, c);
        lemma_fat_offset(e, c);
        let o = fat_offset(e, c) as int;
        assert(d1[o] == d0[o]);
        assert(d1[o + 1] == d0[o + 1]);
        assert(d1[o + 2] == d0[o + 2]);
        assert(d1[o + 3] == d0[o + 3]);
    }
}


/// Writing one entry of the file table keeps the file system well formed,
/// as long as only a data block is marked free.
pub proof fn lemma_fs_wf_entry_write(d0: Seq<u8>, d1: Seq<u8>, b: nat, v: u32)
    requires
        fs_wf(d0),
        b < num_blocks(d0),
        u32_written(d0, d1, fat_offset(FAT_ENTRY as nat, b), v),
        v == NON_OCCUPY_NUM ==> is_data_block(d0, b),
    ensures
        fs_wf(d1),
        num_blocks(d1) == num_blocks(d0),
        table_end(d1) == table_end(d0),
        fat(d1, b) == v,
        forall|c: nat| c < num_blocks(d0) && c != b ==> #[trigger] fat(d1, c) == fat(d0, c),
        forall|i: int| 0 <= i < d0.len() && (i < FAT_ENTRY * 1024 || i >= table_end(d0)) ==> d1[i] == d0[i],
{
    lemma_entry_facts(d0, FAT_ENTRY as nat, b);
    lemma_other_entries(d0, d1, FAT_ENTRY as nat, b, v);
    assert forall|c: nat| c < num_blocks(d1) && #[trigger] is_free(d1, c) implies is_data_block(d1, c) by {
        if c != b {
            assert(fat(d1, c) == fat(d0, c));
            assert(is_free(d0, c));
        }
    }
}

/// A chain none of whose blocks had its entry rewritten is unchanged.
pub proof fn lemma_chain_kept(d0: Seq<u8>, d1: Seq<u8>, e: nat, n: nat)
    requires
        fs_wf(d0),
        chain_wf(d0, e, n),
        d1.len() == d0.len(),
        forall|k: nat| k < n ==> #[trigger] fat(d1, chain_block(d0, e, k)) == fat(d0, chain_block(d0, e, k)),
    ensures
        chain_wf(d1, e, n),
        forall|k: nat| k < n ==> #[trigger] chain_block(d1, e, k) == chain_block(d0, e, k),
{
    lemma_chain_same(d0, d1, e, n);
    assert(chain_block(d1, e, (n - 1) as nat) == chain_block(d0, e, (n - 1) as nat));
    assert forall|k: nat| k < n implies is_data_block(d1, #[trigger] chain_block(d1, e, k)) by {
        assert(is_data_block(d0, chain_block(d0, e, k)));
    }
    assert forall|j: nat, k: nat| j < k < n implies #[trigger] chain_block(d1, e, j) != #[trigger] chain_block(d1, e, k) by {
        assert(chain_block(d0, e, j) != chain_block(d0, e, k));
    }
}

/// Dropping the last block of a chain: the block before it becomes the end.
pub proof fn lemma_chain_shrink(d0: Seq<u8>, d2: Seq<u8>, e: nat, n: nat)
    requires
        fs_wf(d0),
        chain_wf(d0, e, n),
        n >= 2,
        d2.len() == d0.len(),
        fat(d2, chain_block(d0, e, (n - 2) as nat)) == END_NUM,
        forall|c: nat| c < num_blocks(d0) && c != chain_block(d0, e, (n - 1) as nat)
            && c != chain_block(d0, e, (n - 2) as nat) ==> #[trigger] fat(d2, c) == fat(d0, c),
    ensures
        chain_wf(d2, e, (n - 1) as nat),
        forall|k: nat| k < n - 1 ==> #[trigger] chain_block(d2, e, k) == chain_block(d0, e, k),
{
    let m = (n - 1) as nat;
    assert forall|j: nat| j + 1 < m implies #[trigger] fat(d0, chain_block(d0, e, j)) == fat(d2, chain_block(d0, e, j)) by {
        assert(chain_block(d0, e, j) != chain_block(d0, e, (n - 1) as nat));
        assert(chain_block(d0, e, j) != chain_block(d0, e, (n - 2) as nat));
        assert(is_data_block(d0, chain_block(d0, e, j)));
    }
    lemma_chain_same(d0, d2, e, m);
    assert(chain_block(d2, e, (m - 1) as nat) == chain_block(d0, e, (n - 2) as nat));
    assert forall|k: nat| k < m implies is_data_block(d2, #[trigger] chain_block(d2, e, k)) by {
        assert(is_data_block(d0, chain_block(d0, e, k)));
    }
    assert forall|j: nat, k: nat| j < k < m implies #[trigger] chain_block(d2, e, j) != #[trigger] chain_block(d2, e, k) by {
        assert(chain_block(d0, e, j) != chain_block(d0, e, k));
    }
}

/// Blocks of a well-formed chain are never free, and each one's entry names
/// the next block.
pub proof fn lemma_chain_entries(d: Seq<u8>, e: nat, n: nat)
    requires
        fs_wf(d),
        chain_wf(d, e, n),
    ensures
        forall|k: nat| k + 1 < n ==> #[trigger] fat(d, chain_block(d, e, k)) as nat == chain_block(d, e, k + 1),
        forall|k: nat| k < n ==> !is_free(d, #[trigger] chain_block(d, e, k)),
        forall|k: nat| k + 1 < n ==> fat(d, #[trigger] chain_block(d, e, k)) != END_NUM,
{
    assert forall|k: nat| k + 1 < n implies #[trigger] fat(d, chain_block(d, e, k)) as nat == chain_block(d, e, k + 1) by {
        assert(chain_block(d, e, k + 1) == fat(d, chain_block(d, e, k)) as nat);
    }
    assert forall|k: nat| k < n implies !is_free(d, #[trigger] chain_block(d, e, k)) by {
        if k + 1 < n {
            assert(chain_block(d, e, k + 1) == fat(d, chain_block(d, e, k)) as nat);
            assert(is_data_block(d, chain_block(d, e, k + 1)));
        }
    }
    assert forall|k: nat| k + 1 < n implies fat(d, #[trigger] chain_block(d, e, k)) != END_NUM by {
        assert(chain_block(d, e, k + 1) == fat(d, chain_block(d, e, k)) as nat);
        assert(is_data_block(d, chain_block(d, e, k + 1)));
    }
}

/// Only one length makes a chain well formed.
pub proof fn lemma_chain_len_unique(d: Seq<u8>, e: nat, n: nat, m: nat)
    requires
        fs_wf(d),
        chain_wf(d, e, n),
        chain_wf(d, e, m),
    ensures
        n == m,
{
    lemma_chain_entries(d, e, n);
    lemma_chain_entries(d, e, m);
    if n < m {
        assert(fat(d, chain_block(d, e, (n - 1) as nat)) != END_NUM);
    } else if m < n {
        assert(fat(d, chain_block(d, e, (m - 1) as nat)) != END_NUM);
    }
}

/// Appending a free block `f` after the last block of a chain.
pub proof fn lemma_chain_extend(d: Seq<u8>, d2: Seq<u8>, e: nat, len: nat, f: nat)
    requires
        fs_wf(d),
        fs_wf(d2),
        chain_wf(d, e, len),
        f < num_blocks(d),
        is_free(d, f),
        d2.len() == d.len(),
        fat(d2, f) == END_NUM,
        fat(d2, chain_block(d, e, (len - 1) as nat)) == f,
        forall|c: nat| c < num_blocks(d) && c != f && c != chain_block(d, e, (len - 1) as nat)
            ==> #[trigger] fat(d2, c) == fat(d, c),
    ensures
        chain_wf(d2, e, len + 1),
        forall|k: nat| k < len ==> #[trigger] chain_block(d2, e, k) == chain_block(d, e, k),
        chain_block(d2, e, len) == f,
{
    lemma_chain_entries(d, e, len);
    assert forall|j: nat| j + 1 < len implies #[trigger] fat(d, chain_block(d, e, j)) == fat(d2, chain_block(d, e, j)) by {
        assert(chain_block(d, e, j) != chain_block(d, e, (len - 1) as nat));
        assert(!is_free(d, chain_block(d, e, j)));
        assert(is_data_block(d, chain_block(d, e, j)));
    }
    lemma_chain_same(d, d2, e, len);
    assert(chain_block(d2, e, (len - 1) as nat) == chain_block(d, e, (len - 1) as nat));
    assert(chain_block(d2, e, len) == fat(d2, chain_block(d2, e, (len - 1) as nat)) as nat);
    assert(is_data_block(d, f));
    assert forall|k: nat| k < len + 1 implies is_data_block(d2, #[trigger] chain_block(d2, e, k)) by {
        if k < len {
            assert(is_data_block(d, chain_block(d, e, k)));
        }
    }
    assert forall|j: nat, k: nat| j < k < len + 1 implies #[trigger] chain_block(d2, e, j) != #[trigger] chain_block(d2, e, k) by {
        if k < len {
            assert(chain_block(d, e, j) != chain_block(d, e, k));
        } else {
            assert(!is_free(d, chain_block(d, e, j)));
        }
    }
}

impl BlockBitmap {
    pub fn new(bitmap_entry: BlockAddr, block_num: u32, reserved_block_num: u32) -> (b: Self)
        ensures
            b.servant.block_entry == bitmap_entry,
            b.block_num == block_num,
            b.reserved_block_num == reserved_block_num,
    {
        Self { servant: BitmapServant::new(bitmap_entry), block_num, reserved_block_num }
    }

    /// The block where the table starts.
    pub open spec fn entry(&self) -> nat {
        self.servant.block_entry.addr as nat
    }

    /// The table used by files: it starts at block `FAT_ENTRY`.
    pub open spec fn is_file_table(&self) -> bool {
        self.servant.block_entry.addr == FAT_ENTRY
    }

    /// Finds the lowest free block, marks it as the last block of a chain and
    /// returns it; `Err` when no block is free.
    pub fn get_free_block(&self, disk: &mut VirtualDisk) -> (r: Result<BlockAddr, ()>)
        requires
            table_fits(old(disk)@, self.entry()),
        ensures
            match r {
                Ok(b) => {
                    &&& b.addr < num_blocks(old(disk)@)
                    &&& fat_entry(old(disk)@, self.entry(), b.addr as nat) == NON_OCCUPY_NUM
                    &&& forall|c: nat| c < b.addr ==> #[trigger] fat_entry(old(disk)@, self.entry(), c) != NON_OCCUPY_NUM
                    &&& u32_written(old(disk)@, final(disk)@, fat_offset(self.entry(), b.addr as nat), END_NUM)
                },
                Err(_) => {
                    &&& final(disk)@ == old(disk)@
                    &&& forall|c: nat| c < num_blocks(old(disk)@) ==> #[trigger] fat_entry(old(disk)@, self.entry(), c) != NON_OCCUPY_NUM
                },
            },
    {
        let range = self.get_blockrange_of_file(disk);
        let mut it = range.iter();
        let ghost nb = num_blocks(disk@);
        loop
            invariant
                table_fits(disk@, self.entry()),
                nb == num_blocks(disk@),
                disk@ == old(disk)@,
                it.end.addr == nb - 1,
                it.current.addr <= nb,
                forall|c: nat| c < it.current.addr ==> #[trigger] fat_entry(disk@, self.entry(), c) != NON_OCCUPY_NUM,
            ensures
                disk@ == old(disk)@,
                forall|c: nat| c < nb ==> #[trigger] fat_entry(disk@, self.entry(), c) != NON_OCCUPY_NUM,
            decreases nb - it.current.addr,
        {
            match it.next() {
                Some(i) => {
                    proof { lemma_entry_facts(disk@, self.entry(), i.addr as nat); }
                    if self.check_block_empty(disk, i) {
                        self.servant.set_value(disk, i, BlockAddr::new(END_NUM));
                        return Ok(i);
                    }
                },
                None => {
                    break;
                },
            }
        }
        Err(())
    }

    /// Formats the table: the first `reserved_block_num` blocks point to
    /// themselves and all the others are free.
    pub fn init(&self, disk: &mut VirtualDisk)
        requires
            table_fits(old(disk)@, self.entry()),
        ensures
            final(disk)@.len() == old(disk)@.len(),
            forall|b: nat| b < num_blocks(old(disk)@) ==> #[trigger] fat_entry(final(disk)@, self.entry(), b)
                == if b < self.reserved_block_num { b as u32 } else { NON_OCCUPY_NUM },
            forall|i: int| 0 <= i < old(disk)@.len() && !(self.entry() * 1024 <= i < self.entry() * 1024 + 4 * num_blocks(old(disk)@))
                ==> final(disk)@[i] == old(disk)@[i],
    {
        let range = self.get_blockrange_of_file(disk);
        let mut count = BlockCount::new(self.reserved_block_num);
        let mut it = range.iter();
        let ghost nb = num_blocks(disk@);
        let ghost e = self.entry();
        loop
            invariant
                table_fits(disk@, e),
                e == self.entry(),
                nb == num_blocks(disk@),
                disk@.len() == old(disk)@.len(),
                it.end.addr == nb - 1,
                it.current.addr <= nb,
                it.current.addr < self.reserved_block_num ==> count.num == self.reserved_block_num - it.current.addr,
                it.current.addr >= self.reserved_block_num ==> count.num == 0,
                forall|c: nat| c < it.current.addr ==> #[trigger] fat_entry(disk@, e, c)
                    == if c < self.reserved_block_num { c as u32 } else { NON_OCCUPY_NUM },
                forall|i: int| 0 <= i < old(disk)@.len() && !(e * 1024 <= i < e * 1024 + 4 * nb)
                    ==> disk@[i] == old(disk)@[i],
            ensures
                disk@.len() == old(disk)@.len(),
                forall|c: nat| c < nb ==> #[trigger] fat_entry(disk@, e, c)
                    == if c < self.reserved_block_num { c as u32 } else { NON_OCCUPY_NUM },
                forall|i: int| 0 <= i < old(disk)@.len() && !(e * 1024 <= i < e * 1024 + 4 * nb)
                    ==> disk@[i] == old(disk)@[i],
            decreases nb - it.current.addr,
        {
            match it.next() {
                Some(i) => {
                    let ghost d0 = disk@;
                    proof { lemma_entry_facts(disk@, e, i.addr as nat); }
                    if count.reduce() {
                        self.servant.set_value(disk, i, i);
                        proof { lemma_other_entries(d0, disk@, e, i.addr as nat, i.addr); }
                    } else {
                        self.servant.set_non_occupied(disk, i);
                        proof { lemma_other_entries(d0, disk@, e, i.addr as nat, NON_OCCUPY_NUM); }
                    }
                },
                None => {
                    break;
                },
            }
        }
    }

    /// Stores `value` as the entry of `block`.
    pub fn set_value(&self, disk: &mut VirtualDisk, block: BlockAddr, value: BlockAddr)
        requires
            table_fits(old(disk)@, self.entry()),
            block.addr < num_blocks(old(disk)@),
        ensures
            u32_written(old(disk)@, final(disk)@, fat_offset(self.entry(), block.addr as nat), value.addr),
            fat_entry(final(disk)@, self.entry(), block.addr as nat) == value.addr,
            forall|c: nat| c < num_blocks(old(disk)@) && c != block.addr ==> #[trigger] fat_entry(final(disk)@, self.entry(), c)
                == fat_entry(old(disk)@, self.entry(), c),
    {
        proof { lemma_entry_facts(disk@, self.entry(), block.addr as nat); }
        self.servant.set_value(disk, block, value);
        proof { lemma_other_entries(old(disk)@, disk@, self.entry(), block.addr as nat, value.addr); }
    }

    /// The blocks the table manages: all whole blocks of the disk.
    fn get_blockrange_of_file(&self, disk: &VirtualDisk) -> (r: BlockRange)
        requires
            disk@.len() <= u32::MAX,
            num_blocks(disk@) >= 1,
        ensures
            r.start.addr == 0,
            r.end.addr == num_blocks(disk@) - 1,
    {
        let start = BlockAddr::new(0);
        let end = self.servant.file_max_block(disk);
        BlockRange::new(start, BlockAddr::new(end.addr - 1))
    }

    /// Whether `block` is free.
    pub fn check_block_empty(&self, disk: &VirtualDisk, block: BlockAddr) -> (b: bool)
        requires
            table_fits(disk@, self.entry()),
            block.addr < num_blocks(disk@),
        ensures
            b == (fat_entry(disk@, self.entry(), block.addr as nat) == NON_OCCUPY_NUM),
    {
        proof { lemma_entry_facts(disk@, self.entry(), block.addr as nat); }
        self.servant.check_block_empty(disk, block)
    }

    /// Marks `block` as free.
    pub fn set_empty_block(&self, disk: &mut VirtualDisk, block: BlockAddr)
        requires
            table_fits(old(disk)@, self.entry()),
            block.addr < num_blocks(old(disk)@),
        ensures
            u32_written(old(disk)@, final(disk)@, fat_offset(self.entry(), block.addr as nat), NON_OCCUPY_NUM),
            fat_entry(final(disk)@, self.entry(), block.addr as nat) == NON_OCCUPY_NUM,
            forall|c: nat| c < num_blocks(old(disk)@) && c != block.addr ==> #[trigger] fat_entry(final(disk)@, self.entry(), c)
                == fat_entry(old(disk)@, self.entry(), c),
    {
        proof { lemma_entry_facts(disk@, self.entry(), block.addr as nat); }
        self.servant.set_non_occupied(disk, block);
        proof { lemma_other_entries(old(disk)@, disk@, self.entry(), block.addr as nat, NON_OCCUPY_NUM); }
    }

    /// The entry of `block`: the next block of its chain, or a marker.
    pub fn get_content(&self, disk: &VirtualDisk, block: BlockAddr) -> (r: BlockAddr)
        requires
            table_fits(disk@, self.entry()),
            block.addr < num_blocks(disk@),
        ensures
            r.addr == fat_entry(disk@, self.entry(), block.addr as nat),
    {
        proof { lemma_entry_facts(disk@, self.entry(), block.addr as nat); }
        self.servant.read_a_block(disk, block)
    }

    /// The first blocks of the chain that starts at `block`, at most ten:
    /// the walk stops at a marker, or at an entry that names no block of
    /// the disk.
    pub fn test_block(&self, disk: &VirtualDisk, block: BlockAddr) -> (v: Vec<BlockAddr>)
        requires
            table_fits(disk@, self.entry()),
        ensures
            v@.len() <= 10,
            v@.len() > 0 ==> v@[0] == block,
            forall|i: int| 0 <= i < v@.len() ==> #[trigger] v@[i].addr != NON_OCCUPY_NUM && v@[i].addr != END_NUM
                && v@[i].addr < num_blocks(disk@),
            forall|i: int| 0 <= i < v@.len() - 1 ==> #[trigger] v@[i + 1].addr == fat_entry(disk@, self.entry(), v@[i].addr as nat),
            v@.len() < 10 ==> ({
                let next = if v@.len() == 0 { block.addr } else { fat_entry(disk@, self.entry(), v@.last().addr as nat) };
                next == NON_OCCUPY_NUM || next == END_NUM || next >= num_blocks(disk@)
            }),
    {
        let mut count: u32 = 10;
        let mut b = block;
        let mut v: Vec<BlockAddr> = Vec::new();
        let nb = disk.len() / 1024;
        while b.addr != NON_OCCUPY_NUM && b.addr != END_NUM && count > 0 && (b.addr as usize) < nb
            invariant
                table_fits(disk@, self.entry()),
                nb == num_blocks(disk@),
                count <= 10,
                v@.len() == 10 - count,
                v@.len() > 0 ==> v@[0] == block,
                v@.len() == 0 ==> b == block,
                v@.len() > 0 ==> b.addr == fat_entry(disk@, self.entry(), v@.last().addr as nat),
                forall|i: int| 0 <= i < v@.len() ==> #[trigger] v@[i].addr != NON_OCCUPY_NUM && v@[i].addr != END_NUM
                    && v@[i].addr < num_blocks(disk@),
                forall|i: int| 0 <= i < v@.len() - 1 ==> #[trigger] v@[i + 1].addr == fat_entry(disk@, self.entry(), v@[i].addr as nat),
            decreases count,
        {
            count = count - 1;
            v.push(b);
            b = self.get_content(disk, b);
        }
        v
    }

    /// The last block of the chain that starts at `ba`.
    pub fn find_final_block(&self, disk: &VirtualDisk, ba: BlockAddr) -> (r: Result<BlockAddr, ()>)
        requires
            self.is_file_table(),
            fs_wf(disk@),
            exists|n: nat| chain_wf(disk@, ba.addr as nat, n),
        ensures
            forall|n: nat| chain_wf(disk@, ba.addr as nat, n) ==> r == Ok::<BlockAddr, ()>(
                BlockAddr { addr: chain_block(disk@, ba.addr as nat, (n - 1) as nat) as u32 },
            ),
    {
        let ghost n = choose|n: nat| chain_wf(disk@, ba.addr as nat, n);
        let ghost e = ba.addr as nat;
        proof { lemma_chain_entries(disk@, e, n); }
        let mut ba = ba;
        let ghost mut k: nat = 0;
        assert(is_data_block(disk@, chain_block(disk@, e, 0)));
        let mut nba = self.get_content(disk, ba);
        while nba.addr != END_NUM && nba.addr != NON_OCCUPY_NUM
            invariant
                self.is_file_table(),
                fs_wf(disk@),
                chain_wf(disk@, e, n),
                k < n,
                ba.addr == chain_block(disk@, e, k),
                nba.addr == fat(disk@, chain_block(disk@, e, k)),
                forall|k: nat| k + 1 < n ==> #[trigger] fat(disk@, chain_block(disk@, e, k)) as nat == chain_block(disk@, e, k + 1),
                forall|k: nat| k + 1 < n ==> fat(disk@, #[trigger] chain_block(disk@, e, k)) != END_NUM,
            decreases n - k,
        {
            proof {
                if k + 1 >= n {
                    assert(k == n - 1);
                }
            }
            ba = nba;
            proof { k = k + 1; }
            nba = self.get_content(disk, ba);
        }
        proof {
            if k + 1 < n {
                assert(fat(disk@, chain_block(disk@, e, k)) as nat == chain_block(disk@, e, k + 1));
                assert(is_data_block(disk@, chain_block(disk@, e, k + 1)));
            }
            assert forall|m: nat| chain_wf(disk@, e, m) implies m == n by {
                lemma_chain_len_unique(disk@, e, n, m);
            }
        }
        if ba.addr == NON_OCCUPY_NUM {
            Err(())
        } else {
            Ok(ba)
        }
    }

    /// Removes the last block of a chain of at least two blocks: it becomes
    /// free and the block before it becomes the last one.
    #[verifier::rlimit(40)]
    pub fn reduce_a_block(&self, disk: &mut VirtualDisk, block: BlockAddr)
        requires
            self.is_file_table(),
            fs_wf(old(disk)@),
            exists|n: nat| n >= 2 && chain_wf(old(disk)@, block.addr as nat, n),
        ensures
            fs_wf(final(disk)@),
            forall|n: nat| n >= 2 && chain_wf(old(disk)@, block.addr as nat, n) ==> {
                &&& chain_wf(final(disk)@, block.addr as nat, (n - 1) as nat)
                &&& forall|k: nat| k < n - 1 ==> #[trigger] chain_block(final(disk)@, block.addr as nat, k)
                    == chain_block(old(disk)@, block.addr as nat, k)
                &&& fat(final(disk)@, chain_block(old(disk)@, block.addr as nat, (n - 1) as nat)) == NON_OCCUPY_NUM
                &&& forall|c: nat| c < num_blocks(old(disk)@) && c != chain_block(old(disk)@, block.addr as nat, (n - 1) as nat)
                    && c != chain_block(old(disk)@, block.addr as nat, (n - 2) as nat)
                    ==> #[trigger] fat(final(disk)@, c) == fat(old(disk)@, c)
            },
            final(disk)@.len() == old(disk)@.len(),
            forall|i: int| 0 <= i < old(disk)@.len() && (i < FAT_ENTRY * 1024 || i >= table_end(old(disk)@))
                ==> final(disk)@[i] == old(disk)@[i],
    {
        let ghost n = choose|n: nat| n >= 2 && chain_wf(disk@, block.addr as nat, n);
        let ghost e = block.addr as nat;
        let ghost d0 = disk@;
        proof { lemma_chain_entries(disk@, e, n); }
        let mut node = block;
        assert(is_data_block(disk@, chain_block(disk@, e, 0)));
        let mut next = self.get_content(disk, block);
        let ghost mut k: nat = 0;
        assert(next.addr == chain_block(d0, e, 1));
        while self.get_content(disk, next).addr != END_NUM
            invariant
                self.is_file_table(),
                fs_wf(d0),
                disk@ == d0,
                chain_wf(d0, e, n),
                n >= 2,
                k + 1 < n,
                node.addr == chain_block(d0, e, k),
                next.addr == chain_block(d0, e, k + 1),
                forall|k: nat| k + 1 < n ==> #[trigger] fat(d0, chain_block(d0, e, k)) as nat == chain_block(d0, e, k + 1),
                forall|k: nat| k + 1 < n ==> fat(d0, #[trigger] chain_block(d0, e, k)) != END_NUM,
            decreases n - k,
        {
            proof {
                if k + 2 >= n {
                    assert(k + 2 == n);
                }
            }
            node = next;
            proof { k = k + 1; }
            next = self.get_content(disk, next);
        }
        proof {
            if k + 2 < n {
                assert(fat(d0, chain_block(d0, e, k + 1)) != END_NUM);
            }
        }
        assert(k + 2 == n);
        self.set_empty_block(disk, next);
        let ghost d1 = disk@;
        proof { lemma_fs_wf_entry_write(d0, d1, next.addr as nat, NON_OCCUPY_NUM); }
        self.set_value(disk, node, BlockAddr::new(END_NUM));
        let ghost d2 = disk@;
        proof {
            lemma_fs_wf_entry_write(d1, d2, node.addr as nat, END_NUM);
            lemma_chain_shrink(d0, d2, e, n);
            assert forall|m2: nat| m2 >= 2 && chain_wf(d0, e, m2) implies m2 == n by {
                lemma_chain_len_unique(d0, e, n, m2);
            }
        }
    }

    /// Takes the lowest free block and appends it after `block`.
    pub fn add_block(&self, disk: &mut VirtualDisk, block: BlockAddr) -> (b: BlockAddr)
        requires
            self.is_file_table(),
            fs_wf(old(disk)@),
            block.addr < num_blocks(old(disk)@),
            exists|c: nat| c < num_blocks(old(disk)@) && #[trigger] is_free(old(disk)@, c),
        ensures
            b.addr < num_blocks(old(disk)@),
            is_free(old(disk)@, b.addr as nat),
            forall|c: nat| c < b.addr ==> !#[trigger] is_free(old(disk)@, c),
            b.addr != block.addr ==> fat(final(disk)@, b.addr as nat) == END_NUM,
            fat(final(disk)@, block.addr as nat) == b.addr,
            forall|c: nat| c < num_blocks(old(disk)@) && c != b.addr && c != block.addr ==> #[trigger] fat(final(disk)@, c) == fat(old(disk)@, c),
            final(disk)@.len() == old(disk)@.len(),
            forall|i: int| 0 <= i < old(disk)@.len() && (i < FAT_ENTRY * 1024 || i >= table_end(old(disk)@))
                ==> final(disk)@[i] == old(disk)@[i],
    {
        let ghost d0 = disk@;
        proof { lemma_fat_in_table(d0, 0); }
        let r = self.get_free_block(disk);
        let b = match r {
            Ok(b) => b,
            Err(_) => {
                let ghost c = choose|c: nat| c < num_blocks(d0) && #[trigger] is_free(d0, c);
                assert(fat_entry(d0, self.entry(), c) != NON_OCCUPY_NUM);
                assert(false);
                BlockAddr::new(0)
            },
        };
        let ghost d1 = disk@;
        proof { lemma_fs_wf_entry_write(d0, d1, b.addr as nat, END_NUM); }
        self.set_value(disk, block, b);
        proof { lemma_fs_wf_entry_write(d1, disk@, block.addr as nat, b.addr); }
        b
    }
}

} // verus!
