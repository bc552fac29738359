use vstd::prelude::*;
use crate::block_servant::{blocks_needed, MAX_VADDR};
use crate::dir_item::{item_offset, DirRawItem, ItemAddr, ITEM_SIZE, LONG_END_FLAG, NON_USE_FLAG, SHORT_FLAG};
use crate::dir_servant::{dir_item_bytes, dir_items, table_bytes, DirServant};
use crate::disk::{
    chain_block, file_range, free_count, fs_wf, lemma_chain_same, lemma_fs_wf_table_same, num_blocks, others_kept, phys,
    table_end, VirtualDisk,
};
use crate::file_shell::error::FileSystemOperationError;
use crate::raw_file::{lemma_range_kept, lemma_range_written, lemma_write_in_place, write_post, RawFile, ZFILE_SIZE};

verus! {

/// `n` zero bytes.
pub open spec fn zeros(n: nat) -> Seq<u8> {
    Seq::new(n, |i: int| 0u8)
}

/// Going from `d0` to `d1` kept the directory's headers, every block in use
/// outside its file, and the allocation table.
pub open spec fn dir_frame(s: DirServant, d0: Seq<u8>, d1: Seq<u8>) -> bool {
    let e = s.raw.entry();
    &&& d1.len() == d0.len()
    &&& file_range(d1, e, 0, 24) == file_range(d0, e, 0, 24)
    &&& others_kept(d0, d1, e, s.raw.blocks())
    &&& forall|a: int| 0 <= a < table_end(d0) ==> #[trigger] d1[a] == d0[a]
    &&& forall|k: nat| k < s.raw.blocks() ==> #[trigger] chain_block(d1, e, k) == chain_block(d0, e, k)
}

/// Entry `i` of a directory lies inside its file.
pub proof fn lemma_item_inside(num: nat, i: nat)
    requires
        i < num,
    ensures
        ZFILE_SIZE + item_offset(i) + 32 <= ZFILE_SIZE + item_offset(num),
        24 <= ZFILE_SIZE + item_offset(i),
{
    assert(item_offset(i) + 32 <= item_offset(num)) by (nonlinear_arith)
        requires i < num;
}

/// Entries `i` and `j` do not overlap.
pub proof fn lemma_items_apart(i: nat, j: nat)
    requires
        i != j,
    ensures
        item_offset(i) + 32 <= item_offset(j) || item_offset(j) + 32 <= item_offset(i),
{
    if i < j {
        assert(item_offset(i) + 32 <= item_offset(j)) by (nonlinear_arith)
            requires i < j;
    } else {
        assert(item_offset(j) + 32 <= item_offset(i)) by (nonlinear_arith)
            requires j < i;
    }
}

/// `s1` on `d1` is `s0` on `d0` grown by one block of entries: 1024 zero
/// bytes appended to its file, giving 32 more entries, all unused: the
/// first of them begins with the 8 zero bytes that ended the file before.
#[verifier::opaque]
pub open spec fn extended(s0: DirServant, d0: Seq<u8>, s1: DirServant, d1: Seq<u8>) -> bool {
    let e = s0.raw.entry();
    let l0 = s0.raw.metadata.file_len as nat;
    &&& s1.num == s0.num + 32
    &&& s1.raw.block_servant == s0.raw.block_servant
    &&& s1.raw.file_type == s0.raw.file_type
    &&& s1.wf(d1)
    &&& s1.items(d1) == s0.items(d0) + Seq::new(32, |i: int| zeros(32))
    &&& write_post(s0.raw, d0, s1.raw, d1, l0, zeros(1024), 1024)
    &&& file_range(d1, e, 0, 24) == file_range(d0, e, 0, 24)
}

/// Entries `j .. j + n` exist and are all unused.
pub open spec fn is_gap(items: Seq<Seq<u8>>, j: nat, n: nat) -> bool {
    &&& j + n <= items.len()
    &&& forall|k: nat| k < n ==> #[trigger] items[(j + k) as int][0] == NON_USE_FLAG
}

/// The first place, from entry `j` on, where `n` unused entries follow one
/// another.
pub open spec fn first_gap(items: Seq<Seq<u8>>, n: nat, j: nat) -> Option<nat>
    decreases items.len() - j,
{
    if j >= items.len() || j + n > items.len() {
        None
    } else if is_gap(items, j, n) {
        Some(j)
    } else {
        first_gap(items, n, j + 1)
    }
}

/// What the search finds is a gap, at or after where it started.
pub proof fn lemma_first_gap_found(items: Seq<Seq<u8>>, n: nat, j: nat)
    ensures
        first_gap(items, n, j) matches Some(g) ==> is_gap(items, g, n) && j <= g,
    decreases items.len() - j,
{
    if !(j >= items.len() || j + n > items.len()) && !is_gap(items, j, n) {
        lemma_first_gap_found(items, n, j + 1);
    }
}

/// No gap starts between `s` and `t`: the search gives the same from both.
pub proof fn lemma_first_gap_skip(items: Seq<Seq<u8>>, n: nat, s: nat, t: nat)
    requires
        s <= t,
        forall|j: nat| s <= j < t ==> !#[trigger] is_gap(items, j, n),
    ensures
        first_gap(items, n, s) == first_gap(items, n, t),
    decreases t - s,
{
    if s < t {
        lemma_first_gap_skip(items, n, s + 1, t);
    }
}

/// Where clearing a name that starts at entry `i` stops: after the entries
/// of the name, a first entry and the entries that continue it.
pub open spec fn clear_end(items: Seq<Seq<u8>>, i: nat, seen: bool) -> nat
    decreases items.len() - i,
{
    if i >= items.len() {
        i
    } else {
        let f = items[i as int][0];
        if f == NON_USE_FLAG {
            i
        } else if f == SHORT_FLAG {
            if seen { i } else { clear_end(items, i + 1, true) }
        } else if f == LONG_END_FLAG {
            if seen { i + 1 } else { i }
        } else {
            if seen { clear_end(items, i + 1, seen) } else { i }
        }
    }
}

/// The entries with `a .. b` replaced by unused, zero entries.
pub open spec fn cleared(items: Seq<Seq<u8>>, a: nat, b: nat) -> Seq<Seq<u8>> {
    Seq::new(items.len(), |i: int| if a <= i < b { zeros(32) } else { items[i] })
}

/// The entries of a directory grown by one block.
proof fn lemma_extend_items(d0: Seq<u8>, d1: Seq<u8>, raw: RawFile, num: nat)
    requires
        file_range(d1, raw.entry(), (ZFILE_SIZE + item_offset(num) + 8) as nat, 1024) == zeros(1024).subrange(0, 1024),
        forall|q: nat| q < ZFILE_SIZE + item_offset(num) + 8 ==> #[trigger] d1[phys(d1, raw.entry(), q) as int] == d0[phys(d0, raw.entry(), q) as int],
    ensures
        dir_items(d1, raw, num + 32) == dir_items(d0, raw, num) + seq![file_range(d0, raw.entry(), (ZFILE_SIZE + item_offset(num)) as nat, 8) + zeros(24)]
            + Seq::new(31, |i: int| zeros(32)),
        file_range(d1, raw.entry(), 0, 24) == file_range(d0, raw.entry(), 0, 24),
{
    let e = raw.entry();
    let l0 = (ZFILE_SIZE + item_offset(num) + 8) as nat;
    let rhs = dir_items(d0, raw, num) + seq![file_range(d0, e, (ZFILE_SIZE + item_offset(num)) as nat, 8) + zeros(24)]
        + Seq::new(31, |i: int| zeros(32));
    assert forall|k: int| 0 <= k < num + 32 implies #[trigger] dir_items(d1, raw, num + 32)[k] == rhs[k] by {
        let kk = k as nat;
        let o = (ZFILE_SIZE + item_offset(kk)) as nat;
        if kk < num {
            lemma_item_inside(num, kk);
            lemma_range_kept(d0, d1, e, l0, l0, 1024, o, 32);
        } else if kk == num {
            assert forall|j: int| 0 <= j < 32 implies #[trigger] dir_item_bytes(d1, raw, kk)[j] == rhs[k][j] by {
                let q = (o + j) as nat;
                if j < 8 {
                    assert(d1[phys(d1, e, q) as int] == d0[phys(d0, e, q) as int]);
                } else {
                    assert(file_range(d1, e, l0, 1024)[(q - l0) as int] == 0u8);
                }
            }
            assert(dir_item_bytes(d1, raw, kk) =~= rhs[k]);
        } else {
            assert(item_offset(kk) + 32 <= item_offset(num + 32)) by (nonlinear_arith)
                requires kk < num + 32;
            assert(o >= l0 + 24) by (nonlinear_arith)
                requires kk > num, o == 16 + kk * 32 + 8, l0 == 16 + num * 32 + 8 + 8;
            assert forall|j: int| 0 <= j < 32 implies #[trigger] dir_item_bytes(d1, raw, kk)[j] == 0u8 by {
                let q = (o + j) as nat;
                assert(file_range(d1, e, l0, 1024)[(q - l0) as int] == 0u8);
            }
            assert(dir_item_bytes(d1, raw, kk) =~= rhs[k]);
        }
    }
    assert(dir_items(d1, raw, num + 32) =~= rhs);
    lemma_range_kept(d0, d1, e, l0, l0, 1024, 0, 24);
}

/// Dropping the parts of two changes that each kept a directory's frame.
pub proof fn lemma_dir_frame_trans(s: DirServant, d0: Seq<u8>, d1: Seq<u8>, d2: Seq<u8>)
    requires
        s.wf(d0),
        dir_frame(s, d0, d1),
        dir_frame(s, d1, d2),
    ensures
        dir_frame(s, d0, d2),
{
    crate::raw_file::lemma_others_kept_trans(d0, d1, d2, s.raw.entry(), s.raw.blocks());
}

/// The entries of a directory after one of them was overwritten in place.
pub proof fn lemma_items_update(d0: Seq<u8>, d1: Seq<u8>, raw: RawFile, num: nat, a: nat, buf: Seq<u8>)
    requires
        a < num,
        buf.len() == 32,
        file_range(d1, raw.entry(), (ZFILE_SIZE + item_offset(a)) as nat, 32) == buf.subrange(0, 32),
        forall|q: nat| q < ZFILE_SIZE + item_offset(num) && !(ZFILE_SIZE + item_offset(a) <= q < ZFILE_SIZE + item_offset(a) + 32)
            ==> #[trigger] d1[phys(d1, raw.entry(), q) as int] == d0[phys(d0, raw.entry(), q) as int],
    ensures
        dir_items(d1, raw, num) == dir_items(d0, raw, num).update(a as int, buf),
        file_range(d1, raw.entry(), 0, 24) == file_range(d0, raw.entry(), 0, 24),
{
    let e = raw.entry();
    let o = (ZFILE_SIZE + item_offset(a)) as nat;
    let flen = (ZFILE_SIZE + item_offset(num)) as nat;
    let items0 = dir_items(d0, raw, num);
    let items1 = dir_items(d1, raw, num);
    lemma_item_inside(num, a);
    assert forall|k: int| 0 <= k < num implies #[trigger] items1[k] == items0.update(a as int, buf)[k] by {
        let kk = k as nat;
        lemma_item_inside(num, kk);
        if kk == a {
            lemma_range_written(d1, e, o, buf, 32, o, 32);
            assert(buf.subrange(0, 32) =~= buf);
        } else {
            lemma_items_apart(kk, a);
            lemma_range_kept(d0, d1, e, flen, o, 32, (ZFILE_SIZE + item_offset(kk)) as nat, 32);
        }
    }
    assert(items1 =~= items0.update(a as int, buf));
    lemma_range_kept(d0, d1, e, flen, o, 32, 0, 24);
}

/// A write inside the blocks of a file kept the allocation table,
/// the chain of the file, and every other block in use.
pub proof fn lemma_in_place_frame(f0: RawFile, d0: Seq<u8>, f1: RawFile, d1: Seq<u8>, off: nat, buf: Seq<u8>, size: nat)
    requires
        f0.wf(d0),
        write_post(f0, d0, f1, d1, off, buf, size),
        off + size <= f0.metadata.max_len,
    ensures
        forall|a: int| 0 <= a < table_end(d0) ==> #[trigger] d1[a] == d0[a],
        forall|k: nat| k < f0.blocks() ==> #[trigger] chain_block(d1, f0.entry(), k) == chain_block(d0, f0.entry(), k),
        others_kept(d0, d1, f0.entry(), f0.blocks()),
        d1.len() == d0.len(),
{
    lemma_fs_wf_table_same(d0, d1);
    lemma_chain_same(d0, d1, f0.entry(), f0.blocks());
}

/// What storing `buf` as entry `a` of a directory did.
proof fn lemma_insert_post(s0: DirServant, d0: Seq<u8>, raw1: RawFile, d1: Seq<u8>, a: nat, buf: Seq<u8>)
    requires
        s0.wf(d0),
        a < s0.num,
        buf.len() == 32,
        write_post(s0.raw, d0, raw1, d1, (ZFILE_SIZE + item_offset(a)) as nat, buf, 32),
    ensures
        raw1 == s0.raw,
        (DirServant { raw: raw1, num: s0.num }).wf(d1),
        (DirServant { raw: raw1, num: s0.num }).items(d1) == s0.items(d0).update(a as int, buf),
        dir_frame(s0, d0, d1),
{
    lemma_item_inside(s0.num as nat, a);
    lemma_write_in_place(s0.raw, d0, raw1, d1, (ZFILE_SIZE + item_offset(a)) as nat, buf, 32);
    lemma_items_update(d0, d1, s0.raw, s0.num as nat, a, buf);
    lemma_in_place_frame(s0.raw, d0, raw1, d1, (ZFILE_SIZE + item_offset(a)) as nat, buf, 32);
    lemma_range_kept(d0, d1, s0.raw.entry(), s0.raw.metadata.file_len as nat, (ZFILE_SIZE + item_offset(a)) as nat, 32,
        (ZFILE_SIZE + item_offset(s0.num as nat)) as nat, 8);
}

/// The bytes that formatting a directory left in its first block.
proof fn lemma_init_bytes(d0: Seq<u8>, d1: Seq<u8>, d2: Seq<u8>, e: nat, z: Seq<u8>)
    requires
        z == zeros(992),
        file_range(d1, e, 16, 32) == z.subrange(0, 32),
        forall|q: nat| q < 16 && !(16 <= q < 48) ==> #[trigger] d1[phys(d1, e, q) as int] == d0[phys(d0, e, q) as int],
        file_range(d2, e, 32, 992) == z.subrange(0, 992),
        forall|q: nat| q < 48 && !(32 <= q < 1024) ==> #[trigger] d2[phys(d2, e, q) as int] == d1[phys(d1, e, q) as int],
    ensures
        file_range(d2, e, 16, 1008) == zeros(1008),
        file_range(d2, e, 0, 16) == file_range(d0, e, 0, 16),
        file_range(d2, e, 16, 8) == zeros(8),
{
    assert forall|i: int| 0 <= i < 1008 implies #[trigger] file_range(d2, e, 16, 1008)[i] == 0u8 by {
        let q = (16 + i) as nat;
        if q < 32 {
            assert(d2[phys(d2, e, q) as int] == d1[phys(d1, e, q) as int]);
            assert(file_range(d1, e, 16, 32)[i] == z[i]);
        } else {
            assert(file_range(d2, e, 32, 992)[(q - 32) as int] == z[(q - 32) as int]);
        }
    }
    assert(file_range(d2, e, 16, 1008) =~= zeros(1008));
    assert forall|i: int| 0 <= i < 16 implies #[trigger] file_range(d2, e, 0, 16)[i] == file_range(d0, e, 0, 16)[i] by {
        let q = i as nat;
        assert(d2[phys(d2, e, q) as int] == d1[phys(d1, e, q) as int]);
        assert(d1[phys(d1, e, q) as int] == d0[phys(d0, e, q) as int]);
    }
    assert(file_range(d2, e, 0, 16) =~= file_range(d0, e, 0, 16));
    assert forall|i: int| 0 <= i < 8 implies #[trigger] file_range(d2, e, 16, 8)[i] == 0u8 by {
        assert(file_range(d2, e, 16, 1008)[i] == 0u8);
    }
    assert(file_range(d2, e, 16, 8) =~= zeros(8));
}

/// The entries of a freshly formatted directory are all zero.
proof fn lemma_zero_items(d: Seq<u8>, raw: RawFile)
    requires
        file_range(d, raw.entry(), 16, 1008) == zeros(1008),
    ensures
        dir_items(d, raw, 31) == Seq::new(31, |i: int| zeros(32)),
{
    let e = raw.entry();
    assert forall|k: int| 0 <= k < 31 implies #[trigger] dir_items(d, raw, 31)[k] == zeros(32) by {
        let kk = k as nat;
        lemma_item_inside(31, kk);
        assert forall|j: int| 0 <= j < 32 implies #[trigger] dir_item_bytes(d, raw, kk)[j] == 0u8 by {
            let off = (ZFILE_SIZE + item_offset(kk)) as nat;
            assert(file_range(d, e, 16, 1008)[off - 16 + j] == 0u8);
            assert((16 + (off - 16 + j)) as nat == (off + j) as nat);
        }
        assert(dir_item_bytes(d, raw, kk) =~= zeros(32));
    }
    assert(dir_items(d, raw, 31) =~= Seq::new(31, |i: int| zeros(32)));
}

/// `s1` on `d1` is `s0` on `d0` formatted as an empty directory: the
/// same file, now holding its pack and `DIR_INIT_BLOCK_NUM` entries, all
/// zero, with nothing else changed.
pub open spec fn formatted(s0: DirServant, d0: Seq<u8>, s1: DirServant, d1: Seq<u8>) -> bool {
    let e = s0.raw.entry();
    &&& s1.num == DirServant::DIR_INIT_BLOCK_NUM
    &&& s1.raw.block_servant == s0.raw.block_servant
    &&& s1.raw.file_type == s0.raw.file_type
    &&& s1.raw.metadata.max_len == s0.raw.metadata.max_len
    &&& s1.raw.metadata.file_len == 1024
    &&& s1.wf(d1)
    &&& s1.items(d1) == Seq::new(31, |i: int| zeros(32))
    &&& file_range(d1, e, 16, 8) == zeros(8)
    &&& file_range(d1, e, 0, 16) == file_range(d0, e, 0, 16)
    &&& others_kept(d0, d1, e, s0.raw.blocks())
    &&& forall|a: int| 0 <= a < table_end(d0) ==> #[trigger] d1[a] == d0[a]
    &&& forall|k: nat| k < s0.raw.blocks() ==> #[trigger] chain_block(d1, e, k) == chain_block(d0, e, k)
}

/// What the two writes that format a directory did.
proof fn lemma_init_post(r0: RawFile, d0: Seq<u8>, r1: RawFile, d1: Seq<u8>, r2: RawFile, d2: Seq<u8>, z: Seq<u8>)
    requires
        r0.wf(d0),
        r0.metadata.file_len == ZFILE_SIZE,
        z == zeros(992),
        write_post(r0, d0, r1, d1, 16, z, 32),
        write_post(r1, d1, r2, d2, 32, z, 992),
    ensures
        formatted(DirServant { raw: r0, num: 0 }, d0, DirServant { raw: r2, num: 31 }, d2),
{
    let e = r0.entry();
    lemma_in_place_frame(r0, d0, r1, d1, 16, z, 32);
    assert(r1.wf(d1));
    lemma_in_place_frame(r1, d1, r2, d2, 32, z, 992);
    crate::raw_file::lemma_others_kept_trans(d0, d1, d2, e, r0.blocks());
    lemma_init_bytes(d0, d1, d2, e, z);
    lemma_zero_items(d2, r2);
    assert(r2.block_servant.entry == r0.block_servant.entry);
    assert(zeros(1008).subrange(0, 1008) =~= zeros(1008));
    lemma_range_written(d2, e, 16, zeros(1008), 1008, 1016, 8);
    assert(zeros(1008).subrange(1000, 1008) =~= zeros(8));
}

/// What appending a block of zeros to a directory's file did.
#[verifier::rlimit(40)]
proof fn lemma_extend_post(s0: DirServant, d0: Seq<u8>, raw1: RawFile, d1: Seq<u8>)
    requires
        s0.wf(d0),
        raw1.wf(d1),
        write_post(s0.raw, d0, raw1, d1, s0.raw.metadata.file_len as nat, zeros(1024), 1024),
    ensures
        extended(s0, d0, DirServant { raw: raw1, num: (s0.num + 32) as u32 }, d1),
        (DirServant { raw: raw1, num: (s0.num + 32) as u32 }).wf(d1),
{
    reveal(extended);
    let s1 = DirServant { raw: raw1, num: (s0.num + 32) as u32 };
    assert(raw1.block_servant.entry == s0.raw.block_servant.entry);
    assert(raw1.block_servant == s0.raw.block_servant);
    lemma_extend_items(d0, d1, s0.raw, s0.num as nat);
    assert(s1.items(d1) =~= dir_items(d1, s0.raw, (s0.num + 32) as nat));
    let l0 = s0.raw.metadata.file_len as nat;
    assert(file_range(d1, s0.raw.entry(), l0, 1024) == zeros(1024).subrange(0, 1024));
    lemma_range_written(d1, s0.raw.entry(), l0, zeros(1024), 1024, l0 + 1016, 8);
    assert(zeros(1024).subrange(1016, 1024) =~= zeros(8));
    assert(s1.tail(d1) == zeros(8));
    assert(s0.tail(d0) == zeros(8));
    assert(zeros(8) + zeros(24) =~= zeros(32));
    assert(s0.items(d0) + seq![zeros(8) + zeros(24)] + Seq::new(31, |i: int| zeros(32))
        =~= s0.items(d0) + Seq::new(32, |i: int| zeros(32)));
}

impl DirServant {
    /// Stores `item` as entry `addr`.
    pub(crate) fn insert_item(&mut self, disk: &mut VirtualDisk, item: DirRawItem, addr: ItemAddr) -> (r: Result<(), FileSystemOperationError>)
        requires
            old(self).wf(old(disk)@),
            addr.addr < old(self).num,
        ensures
            r is Ok,
            *final(self) == *old(self),
            final(self).wf(final(disk)@),
            final(self).items(final(disk)@) == old(self).items(old(disk)@).update(addr.addr as int, item.bytes()),
            dir_frame(*old(self), old(disk)@, final(disk)@),
    {
        let ghost d0 = disk@;
        let ghost s0 = *self;
        let ghost e = self.raw.entry();
        proof { lemma_item_inside(self.num as nat, addr.addr as nat); }
        let bytes = item.into_u8();
        let mut buf: Vec<u8> = Vec::new();
        let mut i: usize = 0;
        while i < ITEM_SIZE
            invariant
                i <= ITEM_SIZE,
                bytes@.len() == ITEM_SIZE,
                buf@ == bytes@.subrange(0, i as int),
            decreases ITEM_SIZE - i,
        {
            buf.push(bytes[i]);
            i = i + 1;
            assert(buf@ =~= bytes@.subrange(0, i as int));
        }
        assert(buf@ =~= item.bytes());
        let off = addr.get_offset();
        let _ = self.raw.write(disk, off, &buf, ITEM_SIZE as u32);
        proof { lemma_insert_post(s0, d0, self.raw, disk@, addr.addr as nat, buf@); }
        Ok(())
    }

    /// Grows the directory by one block of entries; `Err`, with nothing
    /// changed, when the disk lacks a free block.
    #[verifier::rlimit(40)]
    pub fn extent_block_size(&mut self, disk: &mut VirtualDisk) -> (r: Result<(), FileSystemOperationError>)
        requires
            old(self).wf(old(disk)@),
            old(self).raw.metadata.file_len + 1024 <= MAX_VADDR,
        ensures
            r is Ok <==> blocks_needed(old(self).raw.metadata.max_len as nat, (old(self).raw.metadata.file_len + 1024) as nat)
                <= free_count(old(disk)@, num_blocks(old(disk)@)),
            r is Ok ==> extended(*old(self), old(disk)@, *final(self), final(disk)@),
            r is Ok ==> final(self).num == old(self).num + 32 && final(self).wf(final(disk)@),
            r matches Err(e) ==> *final(self) == *old(self) && final(disk)@ == old(disk)@ && e is WriteError,
    {
        let ghost d0 = disk@;
        let ghost s0 = *self;
        let mut zero_buf: Vec<u8> = Vec::new();
        let mut i: usize = 0;
        while i < Self::DIR_BLOCK_NUM * ITEM_SIZE
            invariant
                i <= 1024,
                zero_buf@ == zeros(i as nat),
            decreases 1024 - i,
        {
            zero_buf.push(0u8);
            i = i + 1;
            assert(zero_buf@ =~= zeros(i as nat));
        }
        match self.raw.add_write(disk, &zero_buf, (Self::DIR_BLOCK_NUM * ITEM_SIZE) as u32) {
            Ok(()) => {
                proof { lemma_extend_post(s0, d0, self.raw, disk@); }
                self.num = self.num + Self::DIR_BLOCK_NUM as u32;
                Ok(())
            },
            Err(()) => Err(FileSystemOperationError::WriteError("the directory cannot grow".to_owned())),
        }
    }

    /// The first entry of a run of `length` unused entries, if any.
    pub(crate) fn scan_gap(&self, disk: &VirtualDisk, length: u32) -> (r: Option<u32>)
        requires
            self.wf(disk@),
            length >= 1,
        ensures
            match r {
                Some(g) => first_gap(self.items(disk@), length as nat, 0) == Some(g as nat),
                None => first_gap(self.items(disk@), length as nat, 0) is None,
            },
    {
        let table = self.load_items(disk);
        let ghost items = table_bytes(table@);
        assert(items.len() == table@.len());
        let num = self.num;
        let mut run: u32 = 0;
        let mut i: u32 = 0;
        let mut found: Option<u32> = None;
        while i < num
            invariant_except_break
                run < length,
                run <= i,
                forall|k: nat| i - run <= k < i ==> #[trigger] items[k as int][0] == NON_USE_FLAG,
                first_gap(items, length as nat, 0) == first_gap(items, length as nat, (i - run) as nat),
                found is None,
            invariant
                items == table_bytes(table@),
                items.len() == num,
                table@.len() == num,
                length >= 1,
                i <= num,
            ensures
                match found {
                    Some(g) => first_gap(items, length as nat, 0) == Some(g as nat),
                    None => first_gap(items, length as nat, 0) is None,
                },
            decreases num - i,
        {
            assert(table[i as int].flag == items[i as int][0]);
            if table[i as usize].flag == NON_USE_FLAG {
                run = run + 1;
                if run >= length {
                    let g = i + 1 - length;
                    proof {
                        assert forall|k: nat| k < length implies #[trigger] items[(g + k) as int][0] == NON_USE_FLAG by {
                            assert(i - (run - 1) <= g + k <= i);
                        }
                        assert(is_gap(items, g as nat, length as nat));
                    }
                    found = Some(g);
                    break;
                }
            } else {
                proof {
                    assert forall|j: nat| (i - run) as nat <= j < i + 1 implies !#[trigger] is_gap(items, j, length as nat) by {
                        if is_gap(items, j, length as nat) {
                            let k = (i - j) as nat;
                            assert(items[(j + k) as int][0] == NON_USE_FLAG);
                        }
                    }
                    lemma_first_gap_skip(items, length as nat, (i - run) as nat, (i + 1) as nat);
                }
                run = 0;
            }
            i = i + 1;
        }
        found
    }

    /// The first entry of a run of `length` unused entries; when there is
    /// none, the directory grows by one block and the run starts at its
    /// first new entry. `Err`, with nothing changed, when it cannot grow.
    pub(crate) fn find_emtpy_gap(&mut self, disk: &mut VirtualDisk, length: u32) -> (r: Result<ItemAddr, FileSystemOperationError>)
        requires
            old(self).wf(old(disk)@),
            old(self).raw.metadata.file_len + 1024 <= MAX_VADDR,
            length >= 1,
        ensures
            match first_gap(old(self).items(old(disk)@), length as nat, 0) {
                Some(g) => r == Ok::<ItemAddr, FileSystemOperationError>(ItemAddr { addr: g as u32 })
                    && *final(self) == *old(self) && final(disk)@ == old(disk)@,
                None => {
                    &&& (r is Ok <==> blocks_needed(old(self).raw.metadata.max_len as nat, (old(self).raw.metadata.file_len + 1024) as nat)
                        <= free_count(old(disk)@, num_blocks(old(disk)@)))
                    &&& (r matches Ok(a) ==> a.addr == old(self).num && extended(*old(self), old(disk)@, *final(self), final(disk)@)
                        && final(self).num == old(self).num + 32 && final(self).wf(final(disk)@))
                    &&& (r matches Err(e) ==> *final(self) == *old(self) && final(disk)@ == old(disk)@ && e is WriteError)
                },
            },
    {
        match self.scan_gap(disk, length) {
            Some(g) => Ok(ItemAddr::new(g)),
            None => {
                let temp = self.num;
                match self.extent_block_size(disk) {
                    Ok(()) => Ok(ItemAddr::new(temp)),
                    Err(e) => Err(e),
                }
            },
        }
    }

    /// An unused entry: 32 zero bytes.
    pub(crate) fn zero_item() -> (z: DirRawItem)
        ensures
            z.bytes() == zeros(32),
    {
        let z = DirRawItem { flag: NON_USE_FLAG, reserved: [0u8; 31] };
        assert(z.bytes() =~= zeros(32));
        z
    }

    /// Clears the entries of the name that starts at entry `addr`: its first
    /// entry and the entries that continue it become unused.
    pub(crate) fn set_empty_item(&mut self, disk: &mut VirtualDisk, addr: ItemAddr)
        requires
            old(self).wf(old(disk)@),
            addr.addr < old(self).num,
        ensures
            *final(self) == *old(self),
            final(self).wf(final(disk)@),
            final(self).items(final(disk)@) == cleared(old(self).items(old(disk)@), addr.addr as nat,
                clear_end(old(self).items(old(disk)@), addr.addr as nat, false)),
            dir_frame(*old(self), old(disk)@, final(disk)@),
    {
        let ghost d0 = disk@;
        let ghost s0 = *self;
        let ghost items0 = self.items(disk@);
        let ghost a0 = addr.addr as nat;
        let zero = Self::zero_item();
        let mut addr = addr;
        let mut short_flag = false;
        assert(self.items(disk@) =~= cleared(items0, a0, a0));
        loop
            invariant_except_break
                clear_end(items0, a0, false) == clear_end(items0, addr.addr as nat, short_flag),
                self.items(disk@) == cleared(items0, a0, addr.addr as nat),
                a0 <= addr.addr <= s0.num,
            invariant
                *self == s0,
                self.wf(disk@),
                s0.wf(d0),
                items0 == s0.items(d0),
                items0.len() == s0.num,
                zero.bytes() == zeros(32),
                dir_frame(s0, d0, disk@),
            ensures
                self.items(disk@) == cleared(items0, a0, clear_end(items0, a0, false)),
            decreases s0.num - addr.addr,
        {
            if addr.addr >= self.num {
                break;
            }
            let ghost dk = disk@;
            let flag = self.get_flag(disk, addr);
            assert(self.items(disk@)[addr.addr as int] == dir_item_bytes(disk@, self.raw, addr.addr as nat));
            assert(self.items(disk@)[addr.addr as int] == items0[addr.addr as int]);
            assert(flag == items0[addr.addr as int][0]);
            if flag == NON_USE_FLAG {
                break;
            } else if flag == SHORT_FLAG {
                if short_flag {
                    break;
                }
                short_flag = true;
                let _ = self.insert_item(disk, zero, addr);
                proof { lemma_dir_frame_trans(s0, d0, dk, disk@); }
                addr.step();
                assert(self.items(disk@) =~= cleared(items0, a0, addr.addr as nat));
            } else if flag == LONG_END_FLAG {
                if !short_flag {
                    break;
                }
                let _ = self.insert_item(disk, zero, addr);
                proof { lemma_dir_frame_trans(s0, d0, dk, disk@); }
                assert(self.items(disk@) =~= cleared(items0, a0, (addr.addr + 1) as nat));
                break;
            } else {
                if !short_flag {
                    break;
                }
                let _ = self.insert_item(disk, zero, addr);
                proof { lemma_dir_frame_trans(s0, d0, dk, disk@); }
                addr.step();
                assert(self.items(disk@) =~= cleared(items0, a0, addr.addr as nat));
            }
        }
    }

    /// Formats a file that holds only its header as an empty directory:
    /// its pack and its first `DIR_INIT_BLOCK_NUM` entries, all zero.
    #[verifier::rlimit(60)]
    pub fn init(&mut self, disk: &mut VirtualDisk)
        requires
            old(self).raw.wf(old(disk)@),
            old(self).raw.metadata.file_len == ZFILE_SIZE,
        ensures
            formatted(*old(self), old(disk)@, *final(self), final(disk)@),
    {
        let ghost d0 = disk@;
        let ghost r0 = self.raw;
        let ghost e = self.raw.entry();
        let mut zero_buf: Vec<u8> = Vec::new();
        let mut i: usize = 0;
        while i < Self::DIR_INIT_BLOCK_NUM * ITEM_SIZE
            invariant
                i <= 992,
                zero_buf@ == zeros(i as nat),
            decreases 992 - i,
        {
            zero_buf.push(0u8);
            i = i + 1;
            assert(zero_buf@ =~= zeros(i as nat));
        }
        let _ = self.raw.add_write(disk, &zero_buf, 32);
        let ghost d1 = disk@;
        let ghost r1 = self.raw;
        let _ = self.raw.write(disk, 16, &zero_buf, 992);
        let ghost d2 = disk@;
        self.num = Self::DIR_INIT_BLOCK_NUM as u32;
        assert(r1.wf(d1));
        proof { lemma_init_post(r0, d0, r1, d1, self.raw, d2, zero_buf@); }
        assert(formatted(DirServant { raw: r0, num: 0 }, d0, *self, d2) == formatted(*old(self), d0, *self, d2));
    }
}
} // verus!
