use vstd::prelude::*;
use crate::config::{BLOCK_SIZE, END_NUM, FAT_ENTRY, NON_OCCUPY_NUM};
use crate::function::{bytes4_to_u32, le_u32, lemma_u32_bytes_roundtrip, spec_u32_to_bytes};

verus! {

/// Number of whole blocks in a disk image.
pub open spec fn num_blocks(d: Seq<u8>) -> nat {
    d.len() / 1024
}

/// Byte offset of the allocation-table entry of block `b`, for a table that
/// starts at block `entry`: 256 entries of four bytes per table block.
pub open spec fn fat_offset(entry: nat, b: nat) -> nat {
    entry * 1024 + (b / 256) * 1024 + (b % 256) * 4
}

/// The four bytes at `o` read as a little-endian number.
pub open spec fn u32_at(d: Seq<u8>, o: nat) -> u32 {
    le_u32(d[o as int], d[o as int + 1], d[o as int + 2], d[o as int + 3]) as u32
}

/// Allocation-table entry of block `b` in a table starting at block `entry`.
pub open spec fn fat_entry(d: Seq<u8>, entry: nat, b: nat) -> u32 {
    u32_at(d, fat_offset(entry, b))
}

/// Allocation-table entry of block `b` in the file system's table.
pub open spec fn fat(d: Seq<u8>, b: nat) -> u32 {
    fat_entry(d, FAT_ENTRY as nat, b)
}

/// First byte after the file system's allocation table.
pub open spec fn table_end(d: Seq<u8>) -> nat {
    (FAT_ENTRY * 1024 + 4 * num_blocks(d)) as nat
}

/// A block that exists and lies wholly after the allocation table.
pub open spec fn is_data_block(d: Seq<u8>, b: nat) -> bool {
    &&& b < num_blocks(d)
    &&& b * 1024 >= table_end(d)
}

/// A block that the allocation table marks as free.
pub open spec fn is_free(d: Seq<u8>, b: nat) -> bool {
    fat(d, b) == NON_OCCUPY_NUM
}

/// The disk image can hold a file system: it fits 32-bit addresses, its
/// allocation table fits on it, and only data blocks are ever free.
pub open spec fn fs_wf(d: Seq<u8>) -> bool {
    &&& d.len() <= u32::MAX
    &&& num_blocks(d) >= 2
    &&& table_end(d) <= d.len()
    &&& forall|b: nat| b < num_blocks(d) && #[trigger] is_free(d, b) ==> is_data_block(d, b)
}

/// The `k`-th block of the chain that starts at block `e`.
pub open spec fn chain_block(d: Seq<u8>, e: nat, k: nat) -> nat
    decreases k,
{
    if k == 0 {
        e
    } else {
        fat(d, chain_block(d, e, (k - 1) as nat)) as nat
    }
}

/// The chain that starts at `e` has exactly `n` blocks, all distinct data
/// blocks, and its last block is marked as the end.
pub open spec fn chain_wf(d: Seq<u8>, e: nat, n: nat) -> bool {
    &&& n >= 1
    &&& forall|k: nat| k < n ==> is_data_block(d, #[trigger] chain_block(d, e, k))
    &&& forall|j: nat, k: nat|
        j < k < n ==> #[trigger] chain_block(d, e, j) != #[trigger] chain_block(d, e, k)
    &&& fat(d, chain_block(d, e, (n - 1) as nat)) == END_NUM
}

/// Where byte `p` of the file whose chain starts at `e` lies on the disk.
pub open spec fn phys(d: Seq<u8>, e: nat, p: nat) -> nat {
    chain_block(d, e, p / 1024) * 1024 + p % 1024
}

/// Bytes `off .. off + size` of the file whose chain starts at `e`.
pub open spec fn file_range(d: Seq<u8>, e: nat, off: nat, size: nat) -> Seq<u8> {
    Seq::new(size, |i: int| d[phys(d, e, off + i as nat) as int])
}

/// The entry offset as the sum of its two parts.
pub proof fn lemma_fat_offset(entry: nat, b: nat)
    ensures
        fat_offset(entry, b) == entry * 1024 + 4 * b,
{
    assert((b / 256) * 1024 + (b % 256) * 4 == 4 * b) by (nonlinear_arith);
}

/// Two different blocks have entries that do not overlap.
pub proof fn lemma_fat_offsets_apart(entry: nat, b: nat, c: nat)
    requires
        b != c,
    ensures
        fat_offset(entry, b) + 4 <= fat_offset(entry, c) || fat_offset(entry, c) + 4
            <= fat_offset(entry, b),
{
    lemma_fat_offset(entry, b);
    lemma_fat_offset(entry, c);
}

/// Reading the entry of a block only looks at the bytes of that entry.
pub proof fn lemma_fat_same(d1: Seq<u8>, d2: Seq<u8>, b: nat)
    requires
        fat_offset(FAT_ENTRY as nat, b) + 4 <= d1.len(),
        fat_offset(FAT_ENTRY as nat, b) + 4 <= d2.len(),
        forall|i: int|
            fat_offset(FAT_ENTRY as nat, b) <= i < fat_offset(FAT_ENTRY as nat, b) + 4 ==> d1[i]
                == d2[i],
    ensures
        fat(d1, b) == fat(d2, b),
{
    let o = fat_offset(FAT_ENTRY as nat, b);
    assert(d1[o as int] == d2[o as int]);
    assert(d1[o as int + 1] == d2[o as int + 1]);
    assert(d1[o as int + 2] == d2[o as int + 2]);
    assert(d1[o as int + 3] == d2[o as int + 3]);
}

/// Entries of existing blocks lie inside the allocation table.
pub proof fn lemma_fat_in_table(d: Seq<u8>, b: nat)
    requires
        b < num_blocks(d),
    ensures
        FAT_ENTRY * 1024 <= fat_offset(FAT_ENTRY as nat, b),
        fat_offset(FAT_ENTRY as nat, b) + 4 <= table_end(d),
{
    lemma_fat_offset(FAT_ENTRY as nat, b);
}

/// If the allocation table and the chain's entries agree, the chains agree.
pub proof fn lemma_chain_same(d1: Seq<u8>, d2: Seq<u8>, e: nat, n: nat)
    requires
        forall|k: nat| k + 1 < n ==> fat(d1, #[trigger] chain_block(d1, e, k)) == fat(
            d2,
            chain_block(d1, e, k),
        ),
    ensures
        forall|k: nat| k < n ==> #[trigger] chain_block(d1, e, k) == chain_block(d2, e, k),
    decreases n,
{
    if n > 0 {
        lemma_chain_same(d1, d2, e, (n - 1) as nat);
        assert forall|k: nat| k < n implies #[trigger] chain_block(d1, e, k) == chain_block(
            d2,
            e,
            k,
        ) by {
            if k == n - 1 && k > 0 {
                assert(chain_block(d1, e, (k - 1) as nat) == chain_block(d2, e, (k - 1) as nat));
            }
        }
    }
}


/// Number of free blocks among blocks `0 .. k`.
pub open spec fn free_count(d: Seq<u8>, k: nat) -> nat
    decreases k,
{
    if k == 0 {
        0
    } else {
        free_count(d, (k - 1) as nat) + if is_free(d, (k - 1) as nat) { 1nat } else { 0nat }
    }
}

/// Counting free blocks over more blocks never gives fewer.
pub proof fn lemma_free_count_mono(d: Seq<u8>, j: nat, k: nat)
    requires
        j <= k,
    ensures
        free_count(d, j) <= free_count(d, k),
    decreases k - j,
{
    if j < k {
        lemma_free_count_mono(d, j, (k - 1) as nat);
    }
}

/// Images that agree on the allocation table agree on every entry, and one
/// of them holds a file system when the other does.
pub proof fn lemma_fs_wf_table_same(d0: Seq<u8>, d1: Seq<u8>)
    requires
        fs_wf(d0),
        d1.len() == d0.len(),
        forall|a: int| FAT_ENTRY * 1024 <= a < table_end(d0) ==> d1[a] == d0[a],
    ensures
        fs_wf(d1),
        forall|b: nat| b < num_blocks(d0) ==> #[trigger] fat(d1, b) == fat(d0, b),
{
    assert forall|b: nat| b < num_blocks(d0) implies #[trigger] fat(d1, b) == fat(d0, b) by {
        lemma_fat_in_table(d0, b);
        lemma_fat_same(d0, d1, b);
    }
    assert forall|b: nat| b < num_blocks(d1) && #[trigger] is_free(d1, b) implies is_data_block(d1, b) by {
        assert(fat(d1, b) == fat(d0, b));
        assert(is_free(d0, b));
    }
}


/// Block `b` is one of the first `n` blocks of the chain that starts at `e`.
pub open spec fn in_chain(d: Seq<u8>, e: nat, n: nat, b: nat) -> bool {
    exists|k: nat| k < n && #[trigger] chain_block(d, e, k) == b
}

/// Going from `d0` to `d1` kept the entry and the bytes of every block in
/// use outside the first `n` blocks of the chain at `e`, and the super block.
pub open spec fn others_kept(d0: Seq<u8>, d1: Seq<u8>, e: nat, n: nat) -> bool {
    &&& d1.len() == d0.len()
    &&& forall|b: nat| b < num_blocks(d0) && !is_free(d0, b) && !in_chain(d0, e, n, b) ==> #[trigger] fat(d1, b) == fat(d0, b)
    &&& forall|a: int| table_end(d0) <= a < num_blocks(d0) * 1024 && !is_free(d0, (a / 1024) as nat) && !in_chain(d0, e, n, (a / 1024) as nat)
        ==> #[trigger] d1[a] == d0[a]
    &&& forall|a: int| 0 <= a < FAT_ENTRY * 1024 ==> #[trigger] d1[a] == d0[a]
}

/// The image of a virtual disk: a sequence of 1024-byte blocks, the first
/// holding the super block and the next ones the allocation table.
#[derive(Debug)]
pub struct VirtualDisk {
    data: Vec<u8>,
}

impl View for VirtualDisk {
    type V = Seq<u8>;

    closed spec fn view(&self) -> Seq<u8> {
        self.data@
    }
}

impl VirtualDisk {
    /// A disk holding the given image.
    pub fn new(data: Vec<u8>) -> (d: VirtualDisk)
        ensures
            d@ == data@,
    {
        VirtualDisk { data }
    }

    /// Length of the image in bytes.
    pub fn len(&self) -> (n: usize)
        ensures
            n == self@.len(),
    {
        self.data.len()
    }

    /// The whole image.
    pub fn as_bytes(&self) -> (s: &[u8])
        ensures
            s@ == self@,
    {
        self.data.as_slice()
    }

    /// Gives the image back.
    pub fn into_bytes(self) -> (v: Vec<u8>)
        ensures
            v@ == self@,
    {
        self.data
    }

    /// One byte of the image.
    pub fn read_byte(&self, off: u32) -> (b: u8)
        requires
            off < self@.len(),
        ensures
            b == self@[off as int],
    {
        self.data[off as usize]
    }

    /// The four bytes at `off`, read little-endian.
    pub fn read_u32(&self, off: u32) -> (n: u32)
        requires
            off + 4 <= self@.len(),
        ensures
            n == u32_at(self@, off as nat),
    {
        let _len = self.data.len();
        let o = off as usize;
        bytes4_to_u32(self.data[o], self.data[o + 1], self.data[o + 2], self.data[o + 3])
    }

    /// Stores `v` little-endian at `off`.
    pub fn write_u32(&mut self, off: u32, v: u32)
        requires
            off + 4 <= old(self)@.len(),
        ensures
            final(self)@.len() == old(self)@.len(),
            forall|i: int|
                0 <= i < old(self)@.len() && !(off <= i < off + 4) ==> final(self)@[i] == old(
                    self,
                )@[i],
            forall|i: int| 0 <= i < 4 ==> final(self)@[off + i] == spec_u32_to_bytes(v)[i],
            u32_at(final(self)@, off as nat) == v,
    {
        let _len = self.data.len();
        let o = off as usize;
        self.data.set(o, (v % 256) as u8);
        self.data.set(o + 1, ((v / 256) % 256) as u8);
        self.data.set(o + 2, ((v / 65536) % 256) as u8);
        self.data.set(o + 3, (v / 16777216) as u8);
        proof {
            lemma_u32_bytes_roundtrip(v);
        }
    }

    /// The bytes `off .. off + size` of the image.
    pub fn read_bytes(&self, off: u32, size: u32) -> (v: Vec<u8>)
        requires
            off + size <= self@.len(),
        ensures
            v@ == self@.subrange(off as int, off + size),
    {
        let mut v: Vec<u8> = Vec::new();
        let mut i: u32 = 0;
        let _len = self.data.len();
        while i < size
            invariant
                i <= size,
                off + size <= self@.len(),
                v@ == self@.subrange(off as int, off + i),
            decreases size - i,
        {
            let _len = self.data.len();
            v.push(self.data[off as usize + i as usize]);
            i = i + 1;
            assert(v@ =~= self@.subrange(off as int, off + i));
        }
        v
    }

    /// Replaces the bytes from `off` on by `bytes`.
    pub fn write_bytes(&mut self, off: u32, bytes: &[u8])
        requires
            off + bytes@.len() <= old(self)@.len(),
        ensures
            final(self)@.len() == old(self)@.len(),
            forall|i: int|
                0 <= i < old(self)@.len() && !(off <= i < off + bytes@.len()) ==> final(self)@[i]
                    == old(self)@[i],
            forall|i: int| 0 <= i < bytes@.len() ==> final(self)@[off + i] == bytes@[i],
    {
        let mut i: usize = 0;
        while i < bytes.len()
            invariant
                i <= bytes@.len(),
                off + bytes@.len() <= old(self)@.len(),
                self@.len() == old(self)@.len(),
                forall|j: int|
                    0 <= j < old(self)@.len() && !(off <= j < off + i) ==> self@[j] == old(
                        self,
                    )@[j],
                forall|j: int| 0 <= j < i ==> self@[off + j] == bytes@[j],
            decreases bytes@.len() - i,
        {
            let _len = self.data.len();
            self.data.set(off as usize + i, bytes[i]);
            i = i + 1;
        }
    }
}

} // verus!
