use vstd::prelude::*;
use vstd::utf8::encode_utf8;
use crate::text::concat;
use crate::addr::BlockAddr;
use crate::allocation::{fresh_file_post, lemma_fresh_file, lemma_fresh_then_kept, lemma_in_chain_one, lowest_free};
use crate::block_servant::{blocks_needed, collect_free_blocks, BlockServant, MAX_VADDR};
use crate::config::{BLOCK_SIZE, FAT_ENTRY, END_NUM};
use crate::dir_edit::{dir_frame, extended, first_gap, is_gap, lemma_first_gap_found, zeros};
use crate::dir_item::{gen_item, item_count, item_offset, DirItemGenerateIter, DirRawItem, ItemAddr, MAX_NAME_LEN};
use crate::dir_servant::{ls_text, named_addr, DirServant};
use crate::disk::{
    chain_block, chain_wf, fat, file_range, free_count, fs_wf, in_chain, is_free, num_blocks, others_kept, phys,
    table_end, VirtualDisk,
};
use crate::file_shell::error::FileSystemOperationError;
use crate::function::le_u32;
use crate::metadata::Metadata;
use crate::raw_file::{file_at, lemma_file_at_written, lemma_other_file_kept, FileType, RawFile, ZFILE_SIZE};
use crate::zdir::{dir_at, law_pack_roundtrip, lemma_dir_at, pack_bytes, ZDir};
use crate::zfile::ZFile;
use vstd::string::StringSliceAdditionalSpecFns;

verus! {

/// The lowest free block of the disk.
pub open spec fn first_free(d: Seq<u8>) -> nat {
    choose|c: nat| lowest_free(d, c)
}

/// Only one block is the lowest free one.
pub proof fn lemma_first_free(d: Seq<u8>, c: nat)
    requires
        lowest_free(d, c),
    ensures
        first_free(d) == c,
{
    let f = first_free(d);
    assert(lowest_free(d, f));
    if f < c {
        assert(!is_free(d, f));
    } else if c < f {
        assert(!is_free(d, c));
    }
}

/// The file of one block at `c` a directory makes for a new entry of type
/// `t`: an empty directory of 31 entries, or an empty file.
pub open spec fn child_file(c: nat, t: FileType) -> RawFile {
    RawFile {
        metadata: Metadata { file_len: if t == FileType::Dir { 1024 } else { 16 }, max_len: 1024 },
        block_servant: BlockServant { entry: BlockAddr { addr: c as u32 } },
        file_type: t,
    }
}

/// The new file of type `t` is stored at block `c` of `d`, closed and empty.
pub open spec fn child_made(d: Seq<u8>, c: nat, t: FileType) -> bool {
    &&& file_at(d, c) == Some(child_file(c, t))
    &&& t == FileType::Dir ==> {
        &&& dir_at(d, c) == Some(DirServant { raw: child_file(c, t), num: 31 })
        &&& file_range(d, c, 16, 8) == pack_bytes(31, c as u32)
        &&& (DirServant { raw: child_file(c, t), num: 31 }).items(d) == Seq::new(31, |i: int| zeros(32))
    }
}

/// Keeping every block in use outside a block that was free keeps every
/// block in use.
pub proof fn lemma_others_kept_free(d0: Seq<u8>, d1: Seq<u8>, c: nat, e: nat, n: nat)
    requires
        others_kept(d0, d1, c, 1),
        is_free(d0, c),
    ensures
        others_kept(d0, d1, e, n),
{
    assert forall|b: nat| !is_free(d0, b) implies !in_chain(d0, c, 1, b) by {
        lemma_in_chain_one(d0, c, b);
    }
}

/// Two changes, the second keeping blocks outside a chain that, among the
/// blocks in use before the first, has only blocks the first kept out too.
pub proof fn lemma_others_kept_compose(dA: Seq<u8>, dB: Seq<u8>, dC: Seq<u8>, e: nat, n: nat, e2: nat, n2: nat)
    requires
        others_kept(dA, dB, e, n),
        others_kept(dB, dC, e2, n2),
        forall|b: nat| b < num_blocks(dA) && !is_free(dA, b) && !in_chain(dA, e, n, b) ==> !#[trigger] in_chain(dB, e2, n2, b),
    ensures
        others_kept(dA, dC, e, n),
{
    assert forall|b: nat| b < num_blocks(dA) && !is_free(dA, b) && !in_chain(dA, e, n, b) implies #[trigger] fat(dC, b) == fat(dA, b) by {
        assert(fat(dB, b) == fat(dA, b));
        assert(!in_chain(dB, e2, n2, b));
    }
    assert forall|a: int| table_end(dA) <= a < num_blocks(dA) * 1024 && !is_free(dA, (a / 1024) as nat) && !in_chain(dA, e, n, (a / 1024) as nat)
        implies #[trigger] dC[a] == dA[a] by {
        let bl = (a / 1024) as nat;
        assert(bl < num_blocks(dA)) by (nonlinear_arith)
            requires bl == a / 1024, a < num_blocks(dA) * 1024, a >= 0;
        assert(fat(dB, bl) == fat(dA, bl));
        assert(!in_chain(dB, e2, n2, bl));
        assert(dB[a] == dA[a]);
    }
    assert forall|a: int| 0 <= a < FAT_ENTRY * 1024 implies #[trigger] dC[a] == dA[a] by {
        assert(dB[a] == dA[a]);
    }
}

/// A directory none of whose blocks is among those of the chain at `e`
/// keeps its entries across a change that kept the other blocks in use.
pub proof fn lemma_dir_kept(s: DirServant, d0: Seq<u8>, d1: Seq<u8>, e: nat, n: nat)
    requires
        s.wf(d0),
        fs_wf(d1),
        others_kept(d0, d1, e, n),
        forall|b: nat| !(in_chain(d0, e, n, b) && in_chain(d0, s.raw.entry(), s.raw.blocks(), b)),
    ensures
        s.wf(d1),
        s.items(d1) == s.items(d0),
        forall|k: nat| k < s.raw.blocks() ==> #[trigger] chain_block(d1, s.raw.entry(), k) == chain_block(d0, s.raw.entry(), k),
        forall|p: nat, len: nat| p + len <= s.raw.metadata.file_len ==> #[trigger] file_range(d1, s.raw.entry(), p, len) == file_range(d0, s.raw.entry(), p, len),
{
    let f = s.raw;
    let ge = f.entry();
    lemma_other_file_kept(d0, d1, e, n, f);
    assert forall|p: nat, len: nat| p + len <= f.metadata.file_len implies #[trigger] file_range(d1, ge, p, len) == file_range(d0, ge, p, len) by {
        assert forall|i: int| 0 <= i < len implies #[trigger] file_range(d1, ge, p, len)[i] == file_range(d0, ge, p, len)[i] by {
            let q = (p + i) as nat;
            assert(q < f.blocks() * 1024) by (nonlinear_arith)
                requires q < f.metadata.file_len, f.metadata.file_len <= f.metadata.max_len, f.blocks() == f.metadata.max_len / 1024,
                    f.metadata.max_len % 1024 == 0;
            assert(d1[phys(d1, ge, q) as int] == d0[phys(d0, ge, q) as int]);
        }
        assert(file_range(d1, ge, p, len) =~= file_range(d0, ge, p, len));
    }
    assert forall|k: int| 0 <= k < s.num implies #[trigger] s.items(d1)[k] == s.items(d0)[k] by {
        crate::dir_edit::lemma_item_inside(s.num as nat, k as nat);
        assert(file_range(d1, ge, (ZFILE_SIZE + item_offset(k as nat)) as nat, 32) == file_range(d0, ge, (ZFILE_SIZE + item_offset(k as nat)) as nat, 32));
    }
    assert(s.items(d1) =~= s.items(d0));
}

/// The file of one block at `c` opens the same across a change that kept
/// the blocks in use outside a chain that does not hold `c`.
proof fn lemma_child_file_kept(d0: Seq<u8>, d1: Seq<u8>, e: nat, n: nat, g: RawFile)
    requires
        fs_wf(d1),
        g.wf(d0),
        g.blocks() == 1,
        file_at(d0, g.entry()) == Some(g),
        others_kept(d0, d1, e, n),
        !in_chain(d0, e, n, g.entry()),
    ensures
        file_at(d1, g.entry()) == Some(g),
        g.wf(d1),
        forall|p: nat, len: nat| p + len <= g.metadata.file_len ==> #[trigger] file_range(d1, g.entry(), p, len) == file_range(d0, g.entry(), p, len),
{
    let c = g.entry();
    assert forall|b: nat| !(in_chain(d0, e, n, b) && in_chain(d0, c, 1, b)) by {
        lemma_in_chain_one(d0, c, b);
    }
    let s = DirServant { raw: g, num: 0 };
    lemma_other_file_kept(d0, d1, e, n, g);
    assert forall|p: nat, len: nat| p + len <= g.metadata.file_len implies #[trigger] file_range(d1, c, p, len) == file_range(d0, c, p, len) by {
        assert forall|i: int| 0 <= i < len implies #[trigger] file_range(d1, c, p, len)[i] == file_range(d0, c, p, len)[i] by {
            let q = (p + i) as nat;
            assert(q < g.blocks() * 1024);
            assert(d1[phys(d1, c, q) as int] == d0[phys(d0, c, q) as int]);
        }
        assert(file_range(d1, c, p, len) =~= file_range(d0, c, p, len));
    }
    assert(chain_block(d0, c, 0) == c);
    assert(!is_free(d0, c)) by { crate::bitmap::lemma_chain_entries(d0, c, 1); }
    assert(fat(d1, c) == fat(d0, c));
    assert(file_range(d1, c, 0, 16) == file_range(d0, c, 0, 16));
    lemma_header_bytes_at(d0, d1, c);
    lemma_decode_same(d0, d1, c);
}

/// A new file of one block at `c` stays as it was made across a change
/// that kept the blocks in use outside a chain that does not hold `c`.
pub proof fn lemma_child_kept(d0: Seq<u8>, d1: Seq<u8>, e: nat, n: nat, c: nat, t: FileType)
    requires
        fs_wf(d0),
        fs_wf(d1),
        child_made(d0, c, t),
        others_kept(d0, d1, e, n),
        !in_chain(d0, e, n, c),
    ensures
        child_made(d1, c, t),
{
    let g = child_file(c, t);
    lemma_child_file_kept(d0, d1, e, n, g);
    if t == FileType::Dir {
        lemma_child_dir_kept(d0, d1, c, DirServant { raw: g, num: 31 });
    }
}

/// A new directory at `c` whose file kept its bytes is still stored as it
/// was made.
proof fn lemma_child_dir_kept(d0: Seq<u8>, d1: Seq<u8>, c: nat, s: DirServant)
    requires
        s == (DirServant { raw: child_file(c, FileType::Dir), num: 31 }),
        dir_at(d0, c) == Some(s),
        file_at(d0, c) == Some(s.raw),
        file_at(d1, c) == Some(s.raw),
        s.raw.wf(d1),
        file_range(d0, c, 16, 8) == pack_bytes(31, c as u32),
        s.items(d0) == Seq::new(31, |i: int| zeros(32)),
        forall|p: nat, len: nat| p + len <= 1024 ==> #[trigger] file_range(d1, c, p, len) == file_range(d0, c, p, len),
    ensures
        dir_at(d1, c) == Some(s),
        file_range(d1, c, 16, 8) == pack_bytes(31, c as u32),
        s.items(d1) == Seq::new(31, |i: int| zeros(32)),
{
    lemma_dir_at(d0, c);
    law_pack_roundtrip(31, c as u32);
    assert(s.wf(d0));
    assert forall|k: int| 0 <= k < 31 implies #[trigger] s.items(d1)[k] == s.items(d0)[k] by {
        crate::dir_edit::lemma_item_inside(31, k as nat);
        assert(file_range(d1, c, (ZFILE_SIZE + item_offset(k as nat)) as nat, 32) == file_range(d0, c, (ZFILE_SIZE + item_offset(k as nat)) as nat, 32));
    }
    assert(s.items(d1) =~= s.items(d0));
    assert(file_range(d1, c, 16, 8) == file_range(d0, c, 16, 8));
    assert(file_range(d1, c, 1016, 8) == file_range(d0, c, 1016, 8));
    assert(s.wf(d1));
    lemma_dir_at_same(d0, d1, c, s);
}

/// A directory whose file, pack and length did not change is stored as
/// before.
proof fn lemma_dir_at_same(d0: Seq<u8>, d1: Seq<u8>, c: nat, s: DirServant)
    requires
        dir_at(d0, c) == Some(s),
        s.raw.entry() == c,
        file_at(d0, c) == Some(s.raw),
        file_at(d1, c) == Some(s.raw),
        file_range(d1, c, 16, 8) == file_range(d0, c, 16, 8),
        file_range(d0, c, 16, 8) == pack_bytes(s.num, c as u32),
        s.raw.file_type == FileType::Dir,
        s.raw.metadata.file_len >= 24,
        s.wf(d1),
    ensures
        dir_at(d1, c) == Some(s),
{
    law_pack_roundtrip(s.num, c as u32);
    lemma_dir_at(d1, c);
}

/// Equal header bytes decode to the same file.
proof fn lemma_decode_same(d0: Seq<u8>, d1: Seq<u8>, c: nat)
    requires
        forall|k: int| 0 <= k < 16 ==> #[trigger] d1[(c * 1024) as int + k] == d0[(c * 1024) as int + k],
    ensures
        crate::raw_file::decode_header(d0, c) == crate::raw_file::decode_header(d1, c),
{
    let o = (c * 1024) as int;
    assert(d1[o + 0] == d0[o + 0]);
    assert(d1[o + 1] == d0[o + 1]);
    assert(d1[o + 2] == d0[o + 2]);
    assert(d1[o + 3] == d0[o + 3]);
    assert(d1[o + 4] == d0[o + 4]);
    assert(d1[o + 5] == d0[o + 5]);
    assert(d1[o + 6] == d0[o + 6]);
    assert(d1[o + 7] == d0[o + 7]);
    assert(d1[o + 8] == d0[o + 8]);
    assert(d1[o + 9] == d0[o + 9]);
    assert(d1[o + 10] == d0[o + 10]);
    assert(d1[o + 11] == d0[o + 11]);
    assert(d1[o + 12] == d0[o + 12]);
}

/// The first bytes of a file whose chain starts at `c` lie at the start of
/// block `c`.
proof fn lemma_header_bytes_at(d0: Seq<u8>, d1: Seq<u8>, c: nat)
    requires
        file_range(d1, c, 0, 16) == file_range(d0, c, 0, 16),
    ensures
        forall|k: int| 0 <= k < 16 ==> #[trigger] d1[(c * 1024) as int + k] == d0[(c * 1024) as int + k],
{
    assert(chain_block(d0, c, 0) == c);
    assert(chain_block(d1, c, 0) == c);
    assert forall|k: int| 0 <= k < 16 implies #[trigger] d1[(c * 1024) as int + k] == d0[(c * 1024) as int + k] by {
        assert(file_range(d1, c, 0, 16)[k] == d1[phys(d1, c, k as nat) as int]);
        assert(file_range(d0, c, 0, 16)[k] == d0[phys(d0, c, k as nat) as int]);
    }
}

/// The new directory just closed is stored at its block.
pub proof fn lemma_child_dir_made(d: Seq<u8>, s: DirServant)
    requires
        s.raw == child_file(s.raw.entry(), FileType::Dir),
        s.num == 31,
        s.wf(d),
        s.items(d) == Seq::new(31, |i: int| zeros(32)),
        file_range(d, s.raw.entry(), 16, 8) == pack_bytes(31, s.raw.block_servant.entry.addr),
        file_range(d, s.raw.entry(), 0, 16) == s.raw.header(),
    ensures
        child_made(d, s.raw.entry(), FileType::Dir),
{
    let c = s.raw.entry();
    lemma_file_at_written(d, s.raw);
    law_pack_roundtrip(31, s.raw.block_servant.entry.addr);
    lemma_dir_at(d, c);
}

/// Makes and closes the file for a new entry of type `t` in the lowest
/// free block; `Err`, with nothing changed, when no block is free.
fn make_child(disk: &mut VirtualDisk, t: FileType) -> (r: Result<BlockAddr, FileSystemOperationError>)
    requires
        fs_wf(old(disk)@),
    ensures
        match r {
            Ok(b) => fresh_file_post(old(disk)@, final(disk)@, b.addr as nat) && child_made(final(disk)@, b.addr as nat, t),
            Err(e) => final(disk)@ == old(disk)@ && free_count(old(disk)@, num_blocks(old(disk)@)) == 0 && e is FileCreateError,
        },
{
    let ghost d0 = disk@;
    match t {
        FileType::Dir => {
            let mut temp = ZDir::new(disk)?;
            let ghost d1 = disk@;
            let ghost s = temp.servant;
            let entry = temp.get_block_entry();
            let _ = temp.close(disk);
            proof {
                let c = entry.addr as nat;
                assert(s.raw.block_servant == BlockServant { entry: BlockAddr { addr: c as u32 } });
                assert(s.raw == child_file(c, FileType::Dir));
                lemma_fresh_then_kept(d0, d1, disk@, c);
                lemma_child_dir_made(disk@, s);
            }
            Ok(entry)
        },
        FileType::File => {
            let mut temp = ZFile::new(disk)?;
            let ghost d1 = disk@;
            let ghost raw = temp.raw;
            let entry = temp.get_block_entry();
            let _ = temp.close(disk);
            proof {
                let c = entry.addr as nat;
                assert(raw.block_servant == BlockServant { entry: BlockAddr { addr: c as u32 } });
                assert(raw == child_file(c, FileType::File));
                crate::dir_edit::lemma_in_place_frame(raw, d1, raw, disk@, 0, raw.header(), 16);
                lemma_fresh_then_kept(d0, d1, disk@, c);
                crate::raw_file::lemma_range_written(disk@, c, 0, raw.header(), 16, 0, 16);
                assert(raw.header().subrange(0, 16) =~= raw.header());
                lemma_file_at_written(disk@, raw);
            }
            Ok(entry)
        },
    }
}

/// Where the entries for a new name of `n` entries go: the first run of
/// `n` unused entries, or the first entry after the old ones.
pub open spec fn gap_start(items: Seq<Seq<u8>>, n: nat) -> nat {
    match first_gap(items, n, 0) {
        Some(g) => g,
        None => items.len(),
    }
}

/// The entries of `s0` on `d0` once it grew, when it had to, by 32
/// unused entries to make room for `n` new entries.
pub open spec fn room_for(s0: DirServant, d0: Seq<u8>, n: nat) -> Seq<Seq<u8>> {
    let items0 = s0.items(d0);
    match first_gap(items0, n, 0) {
        Some(_) => items0,
        None => items0 + Seq::new(32, |i: int| zeros(32)),
    }
}

/// The entries with the first `j` of those for a new name written from
/// entry `g` on.
pub open spec fn placed_upto(items: Seq<Seq<u8>>, g: nat, name: Seq<u8>, entry: u32, t: FileType, uid: u8, j: nat) -> Seq<Seq<u8>> {
    Seq::new(items.len(), |i: int| if g <= i < g + j { gen_item(name, entry, t, uid, (i - g) as nat) } else { items[i] })
}

/// The entries with those for a new name written from entry `g` on.
pub open spec fn placed(items: Seq<Seq<u8>>, g: nat, name: Seq<u8>, entry: u32, t: FileType, uid: u8) -> Seq<Seq<u8>> {
    placed_upto(items, g, name, entry, t, uid, item_count(name.len()))
}

/// Free blocks a new entry needs: one for its file, and one more when the
/// directory has no room and must grow.
pub open spec fn blocks_for_new_item(s0: DirServant, d0: Seq<u8>, n: nat) -> nat {
    1 + if first_gap(s0.items(d0), n, 0) is None {
        blocks_needed(s0.raw.metadata.max_len as nat, (s0.raw.metadata.file_len + 1024) as nat)
    } else {
        0
    }
}

/// The `n` entries of a new name fit: the directory has room for them,
/// or the 32 entries it grows by hold them.
pub open spec fn room_fits(s0: DirServant, d0: Seq<u8>, n: nat) -> bool {
    first_gap(s0.items(d0), n, 0) is Some || n <= 32
}

/// `s1` on `d1` is `s0` on `d0` with a new entry named `name` of type `t`
/// owned by `uid`: its file was made in the lowest free block, its entries
/// written in the first room for them, growing the directory when needed,
/// and no other block in use changed.
#[verifier::opaque]
pub open spec fn new_item_post(s0: DirServant, d0: Seq<u8>, s1: DirServant, d1: Seq<u8>, name: Seq<u8>, t: FileType, uid: u8) -> bool {
    let c = first_free(d0);
    let n = item_count(name.len());
    let e = s0.raw.entry();
    &&& lowest_free(d0, c)
    &&& room_fits(s0, d0, n)
    &&& s1.raw.block_servant == s0.raw.block_servant
    &&& s1.raw.file_type == s0.raw.file_type
    &&& s1.num == room_for(s0, d0, n).len()
    &&& s1.wf(d1)
    &&& s1.items(d1) == placed(room_for(s0, d0, n), gap_start(s0.items(d0), n), name, c as u32, t, uid)
    &&& file_range(d1, e, 0, 24) == file_range(d0, e, 0, 24)
    &&& child_made(d1, c, t)
    &&& others_kept(d0, d1, e, s0.raw.blocks())
}

/// A free block is not in a well-formed chain.
pub proof fn lemma_free_not_in_chain(d: Seq<u8>, e: nat, n: nat, c: nat)
    requires
        fs_wf(d),
        chain_wf(d, e, n),
        is_free(d, c),
    ensures
        !in_chain(d, e, n, c),
{
    crate::bitmap::lemma_chain_entries(d, e, n);
    if in_chain(d, e, n, c) {
        let k = choose|k: nat| k < n && #[trigger] chain_block(d, e, k) == c;
        assert(!is_free(d, chain_block(d, e, k)));
    }
}

/// A chain grown by blocks that were free holds, among the blocks in use
/// before, only the blocks it held then.
pub proof fn lemma_chain_grown(d1: Seq<u8>, d2: Seq<u8>, e: nat, n0: nat, n2: nat)
    requires
        forall|k: nat| k < n0 ==> #[trigger] chain_block(d2, e, k) == chain_block(d1, e, k),
        forall|k: nat| n0 <= k < n2 ==> is_free(d1, #[trigger] chain_block(d2, e, k)),
    ensures
        forall|b: nat| b < num_blocks(d1) && !is_free(d1, b) && !in_chain(d1, e, n0, b) ==> !#[trigger] in_chain(d2, e, n2, b),
{
    assert forall|b: nat| b < num_blocks(d1) && !is_free(d1, b) && !in_chain(d1, e, n0, b) implies !#[trigger] in_chain(d2, e, n2, b) by {
        if in_chain(d2, e, n2, b) {
            let k = choose|k: nat| k < n2 && #[trigger] chain_block(d2, e, k) == b;
            if k < n0 {
                assert(chain_block(d1, e, k) == b);
            }
        }
    }
}

/// What making the entry's file, finding room and writing the entries did,
/// put together.
#[verifier::rlimit(60)]
proof fn lemma_new_item_post(
    s0: DirServant, d0: Seq<u8>,
    d1: Seq<u8>,
    s2: DirServant, d2: Seq<u8>,
    s3: DirServant, d3: Seq<u8>,
    name: Seq<u8>, t: FileType, uid: u8, c: nat, g: nat,
)
    requires
        s0.wf(d0),
        fresh_file_post(d0, d1, c),
        child_made(d1, c, t),
        s0.wf(d1),
        s0.items(d1) == s0.items(d0),
        file_range(d1, s0.raw.entry(), 0, 24) == file_range(d0, s0.raw.entry(), 0, 24),
        file_range(d1, s0.raw.entry(), (s0.raw.metadata.file_len - 8) as nat, 8)
            == file_range(d0, s0.raw.entry(), (s0.raw.metadata.file_len - 8) as nat, 8),
        forall|k: nat| k < s0.raw.blocks() ==> #[trigger] chain_block(d1, s0.raw.entry(), k) == chain_block(d0, s0.raw.entry(), k),
        g == gap_start(s0.items(d0), item_count(name.len())),
        room_fits(s0, d0, item_count(name.len())),
        match first_gap(s0.items(d0), item_count(name.len()), 0) {
            Some(_) => s2 == s0 && d2 == d1,
            None => extended(s0, d1, s2, d2),
        },
        s3.raw == s2.raw,
        s3.num == s2.num,
        s3.wf(d3),
        s2.wf(d2),
        dir_frame(s2, d2, d3),
        s3.items(d3) == placed(s2.items(d2), g, name, c as u32, t, uid),
    ensures
        new_item_post(s0, d0, s3, d3, name, t, uid),
{
    reveal(new_item_post);
    reveal(extended);
    let e = s0.raw.entry();
    let n0 = s0.raw.blocks();
    let n = item_count(name.len());
    lemma_first_free(d0, c);
    lemma_fresh_file(d0, d1, c);
    lemma_free_not_in_chain(d0, e, n0, c);
    assert(!in_chain(d1, e, n0, c)) by {
        if in_chain(d1, e, n0, c) {
            let k = choose|k: nat| k < n0 && #[trigger] chain_block(d1, e, k) == c;
            assert(chain_block(d0, e, k) == c);
        }
    }
    // from d1 to d3, the blocks in use outside the directory were kept
    assert(others_kept(d1, d2, e, n0) && s2.raw.entry() == e
        && (forall|k: nat| k < n0 ==> #[trigger] chain_block(d2, e, k) == chain_block(d1, e, k))
        && (forall|k: nat| n0 <= k < s2.raw.blocks() ==> is_free(d1, #[trigger] chain_block(d2, e, k)))) by {
        if first_gap(s0.items(d0), n, 0) is None {
        } else {
            assert(others_kept(d1, d1, e, n0));
        }
    }
    lemma_chain_grown(d1, d2, e, n0, s2.raw.blocks());
    lemma_others_kept_compose(d1, d2, d3, e, n0, e, s2.raw.blocks());
    lemma_child_kept(d1, d3, e, n0, c, t);
    lemma_others_kept_free(d0, d1, c, e, n0);
    assert forall|b: nat| b < num_blocks(d0) && !is_free(d0, b) && !in_chain(d0, e, n0, b) implies !#[trigger] in_chain(d1, e, n0, b) by {
        if in_chain(d1, e, n0, b) {
            let k = choose|k: nat| k < n0 && #[trigger] chain_block(d1, e, k) == b;
            assert(chain_block(d0, e, k) == b);
        }
    }
    lemma_others_kept_compose(d0, d1, d3, e, n0, e, n0);
    if first_gap(s0.items(d0), n, 0) is None {
        assert(s2.items(d2) == room_for(s0, d0, n));
    } else {
        assert(s2.items(d2) == room_for(s0, d0, n));
    }
}

/// What making an entry named `name` gives: `r`, and `s1` on `d1` from
/// `s0` on `d0`.
pub open spec fn new_item_spec(s0: DirServant, d0: Seq<u8>, s1: DirServant, d1: Seq<u8>, name: Seq<char>, file_type: FileType, owner_u_id: u8,
    r: Result<(), FileSystemOperationError>) -> bool {
    ({
        let n = item_count(encode_utf8(name).len());
        if named_addr(s0.items(d0), name) is Some {
            &&& r matches Err(e) && e is ExistNameError && e.message() == "Already has a file/dir named:"@ + name
            &&& s1 == s0
            &&& d1 == d0
        } else if !room_fits(s0, d0, n) {
            &&& r matches Err(e) && e is FileCreateError
            &&& s1 == s0
            &&& d1 == d0
        } else if free_count(d0, num_blocks(d0)) < blocks_for_new_item(s0, d0, n) {
            &&& r matches Err(e) && e is FileCreateError
            &&& s1 == s0
            &&& d1 == d0
        } else {
            &&& r is Ok
            &&& new_item_post(s0, d0, s1, d1, encode_utf8(name), file_type, owner_u_id)
        }
    })
}

/// The number of entries that hold a name of `len` bytes.
fn entries_for(len: usize) -> (n: u32)
    requires
        1 <= len <= MAX_NAME_LEN,
    ensures
        n == item_count(len as nat),
        1 <= n <= 34,
{
    if len <= 25 {
        1
    } else {
        let k = (len - 25 + 30) / 31;
        assert(k <= 33) by (nonlinear_arith)
            requires k == (len - 25 + 30) / 31, len <= 1024;
        (1 + k) as u32
    }
}

/// What making the new entry's file in the lowest free block did to the
/// directory: nothing.
proof fn lemma_parent_after_child(s0: DirServant, d0: Seq<u8>, d1: Seq<u8>, c: nat)
    requires
        s0.wf(d0),
        fresh_file_post(d0, d1, c),
    ensures
        s0.wf(d1),
        s0.items(d1) == s0.items(d0),
        file_range(d1, s0.raw.entry(), 0, 24) == file_range(d0, s0.raw.entry(), 0, 24),
        file_range(d1, s0.raw.entry(), (s0.raw.metadata.file_len - 8) as nat, 8)
            == file_range(d0, s0.raw.entry(), (s0.raw.metadata.file_len - 8) as nat, 8),
        forall|k: nat| k < s0.raw.blocks() ==> #[trigger] chain_block(d1, s0.raw.entry(), k) == chain_block(d0, s0.raw.entry(), k),
        free_count(d1, num_blocks(d0)) + 1 == free_count(d0, num_blocks(d0)),
{
    lemma_fresh_file(d0, d1, c);
    assert forall|b: nat| !(in_chain(d0, c, 1, b) && in_chain(d0, s0.raw.entry(), s0.raw.blocks(), b)) by {
        lemma_in_chain_one(d0, c, b);
        lemma_free_not_in_chain(d0, s0.raw.entry(), s0.raw.blocks(), c);
    }
    lemma_dir_kept(s0, d0, d1, c, 1);
    assert(file_range(d1, s0.raw.entry(), 0, 24) == file_range(d0, s0.raw.entry(), 0, 24));
    assert(file_range(d1, s0.raw.entry(), (s0.raw.metadata.file_len - 8) as nat, 8)
        == file_range(d0, s0.raw.entry(), (s0.raw.metadata.file_len - 8) as nat, 8));
}

impl DirServant {
    /// Whether the disk has the free blocks a new entry of `n` entries
    /// needs.
    fn room_check(&self, disk: &VirtualDisk, n: u32) -> (b: bool)
        requires
            self.wf(disk@),
            n >= 1,
        ensures
            b == (free_count(disk@, num_blocks(disk@)) >= blocks_for_new_item(*self, disk@, n as nat)),
    {
        let gap = self.scan_gap(disk, n);
        let grow: u32 = match gap {
            Some(_) => 0,
            None => if self.raw.metadata.get_file_len() as u64 + 1024 <= self.raw.metadata.get_max_len() as u64 { 0 } else { 1 },
        };
        proof {
            let l = self.raw.metadata.file_len as nat;
            let m = self.raw.metadata.max_len as nat;
            if gap is None && l + 1024 > m {
                assert((l + 1024 - m + 1023) / 1024 == 1) by (nonlinear_arith)
                    requires l <= m, l + 1024 > m;
            }
            assert(grow + 1 == blocks_for_new_item(*self, disk@, n as nat));
        }
        let need = 1 + grow;
        let free = collect_free_blocks(disk, need);
        free.len() >= need as usize
    }

    /// Writes the entries of `generator` from entry `addr` on.
    fn write_entries(&mut self, disk: &mut VirtualDisk, generator: &mut DirItemGenerateIter, addr: ItemAddr,
        Ghost(nm): Ghost<Seq<u8>>, Ghost(entry): Ghost<u32>, Ghost(t): Ghost<FileType>, Ghost(uid): Ghost<u8>)
        requires
            old(self).wf(old(disk)@),
            addr.addr + old(generator).length <= old(self).num,
            old(generator).count == 0,
            old(generator).length == item_count(nm.len()),
            old(generator).list@.len() == old(generator).length,
            forall|k: int| 0 <= k < old(generator).length ==> !(old(generator).list@[k] is Empty)
                && (#[trigger] old(generator).list@[k]).bytes() == gen_item(nm, entry, t, uid, k as nat),
        ensures
            *final(self) == *old(self),
            final(self).wf(final(disk)@),
            final(self).items(final(disk)@) == placed(old(self).items(old(disk)@), addr.addr as nat, nm, entry, t, uid),
            dir_frame(*old(self), old(disk)@, final(disk)@),
    {
        let ghost d2 = disk@;
        let ghost s2 = *self;
        let ghost g = addr.addr as nat;
        let ghost base = self.items(disk@);
        let n = generator.len();
        let mut item_addr = addr;
        assert(self.items(disk@) =~= placed_upto(base, g, nm, entry, t, uid, 0));
        let mut j: usize = 0;
        while j < n
            invariant
                *self == s2,
                s2.wf(d2),
                self.wf(disk@),
                base == s2.items(d2),
                g + n <= s2.num,
                n == generator.length,
                generator.list@.len() == generator.length,
                forall|k: int| 0 <= k < generator.length ==> !(generator.list@[k] is Empty)
                    && (#[trigger] generator.list@[k]).bytes() == gen_item(nm, entry, t, uid, k as nat),
                generator.count == j,
                j <= n,
                item_addr.addr == g + j,
                self.items(disk@) == placed_upto(base, g, nm, entry, t, uid, j as nat),
                dir_frame(s2, d2, disk@),
            decreases n - j,
        {
            let ghost dk = disk@;
            let it = generator.next().unwrap();
            let item = DirRawItem::new(it);
            let _ = self.insert_item(disk, item, item_addr);
            proof {
                crate::dir_edit::lemma_dir_frame_trans(s2, d2, dk, disk@);
            }
            item_addr.step();
            j = j + 1;
            assert(self.items(disk@) =~= placed_upto(base, g, nm, entry, t, uid, j as nat));
        }
    }

    /// Finds room for the entries of a new name whose file was just made at
    /// `entry`, and writes them.
    fn place_entries(&mut self, disk: &mut VirtualDisk, name: &str, entry: BlockAddr, file_type: FileType, owner_u_id: u8, n: u32,
        Ghost(s0): Ghost<DirServant>, Ghost(d0): Ghost<Seq<u8>>)
        requires
            s0.wf(d0),
            *old(self) == s0,
            1 <= name.spec_bytes().len() <= MAX_NAME_LEN,
            s0.raw.metadata.file_len + 1024 <= MAX_VADDR,
            n == item_count(name.spec_bytes().len()),
            room_fits(s0, d0, n as nat),
            free_count(d0, num_blocks(d0)) >= blocks_for_new_item(s0, d0, n as nat),
            fresh_file_post(d0, old(disk)@, entry.addr as nat),
            child_made(old(disk)@, entry.addr as nat, file_type),
            s0.wf(old(disk)@),
            s0.items(old(disk)@) == s0.items(d0),
            file_range(old(disk)@, s0.raw.entry(), 0, 24) == file_range(d0, s0.raw.entry(), 0, 24),
            file_range(old(disk)@, s0.raw.entry(), (s0.raw.metadata.file_len - 8) as nat, 8)
                == file_range(d0, s0.raw.entry(), (s0.raw.metadata.file_len - 8) as nat, 8),
            forall|k: nat| k < s0.raw.blocks() ==> #[trigger] chain_block(old(disk)@, s0.raw.entry(), k) == chain_block(d0, s0.raw.entry(), k),
            free_count(old(disk)@, num_blocks(d0)) + 1 == free_count(d0, num_blocks(d0)),
        ensures
            new_item_post(s0, d0, *final(self), final(disk)@, name.spec_bytes(), file_type, owner_u_id),
    {
        let ghost d1 = disk@;
        let ghost nm = name.spec_bytes();
        let mut generator = DirItemGenerateIter::new(name, entry, file_type, owner_u_id);
        let item_addr = match self.find_emtpy_gap(disk, n) {
            Ok(a) => a,
            Err(e) => {
                return;
            },
        };
        let ghost d2 = disk@;
        let ghost s2 = *self;
        proof { crate::dir_edit::lemma_first_gap_found(s0.items(d0), n as nat, 0); }
        self.write_entries(disk, &mut generator, item_addr, Ghost(nm), Ghost(entry.addr), Ghost(file_type), Ghost(owner_u_id));
        proof {
            lemma_new_item_post(s0, d0, d1, s2, d2, *self, disk@, nm, file_type, owner_u_id, entry.addr as nat, item_addr.addr as nat);
        }
    }

    /// Makes the file and writes the entries of a new name not yet in the
    /// directory, the disk having the blocks it needs.
    fn create_entry(&mut self, disk: &mut VirtualDisk, name: &str, file_type: FileType, owner_u_id: u8, n: u32) -> (r: Result<(), FileSystemOperationError>)
        requires
            old(self).wf(old(disk)@),
            1 <= name.spec_bytes().len() <= MAX_NAME_LEN,
            old(self).raw.metadata.file_len + 1024 <= MAX_VADDR,
            n == item_count(name.spec_bytes().len()),
            room_fits(*old(self), old(disk)@, n as nat),
            free_count(old(disk)@, num_blocks(old(disk)@)) >= blocks_for_new_item(*old(self), old(disk)@, n as nat),
        ensures
            r is Ok,
            new_item_post(*old(self), old(disk)@, *final(self), final(disk)@, name.spec_bytes(), file_type, owner_u_id),
    {
        let ghost d0 = disk@;
        let ghost s0 = *self;
        let ghost nm = name.spec_bytes();
        let entry = match make_child(disk, file_type) {
            Ok(b) => b,
            Err(e) => {
                return Err(e);
            },
        };
        let ghost d1 = disk@;
        proof { lemma_parent_after_child(s0, d0, d1, entry.addr as nat); }
        self.place_entries(disk, name, entry, file_type, owner_u_id, n, Ghost(s0), Ghost(d0));
        Ok(())
    }

    /// Makes a file of type `file_type` named `name`, owned by `owner_u_id`,
    /// in this directory: `Err(ExistNameError)` when an entry is already
    /// named so, `Err(FileCreateError)` when the name needs more than the
    /// 32 entries a growth brings and the directory has no free run for it,
    /// or when the disk lacks the free blocks the new file and, when the
    /// directory has no room, its growth need; nothing changes then.
    pub fn new_dir_item(&mut self, disk: &mut VirtualDisk, name: &str, file_type: FileType, owner_u_id: u8) -> (r: Result<(), FileSystemOperationError>)
        requires
            old(self).wf(old(disk)@),
            1 <= name.spec_bytes().len() <= MAX_NAME_LEN,
            old(self).raw.metadata.file_len + 1024 <= MAX_VADDR,
        ensures
            new_item_spec(*old(self), old(disk)@, *final(self), final(disk)@, name@, file_type, owner_u_id, r),
    {
        let ghost d0 = disk@;
        let ghost s0 = *self;
        let ghost nm = name.spec_bytes();
        if self.has_name(disk, name).is_some() {
            return Err(FileSystemOperationError::ExistNameError(concat("Already has a file/dir named:", name)));
        }
        let n = entries_for(name.len());
        if n > 32 && self.scan_gap(disk, n).is_none() {
            return Err(FileSystemOperationError::FileCreateError("the name needs more entries than the directory can hold".to_owned()));
        }
        if !self.room_check(disk, n) {
            return Err(FileSystemOperationError::FileCreateError("not enough free blocks".to_owned()));
        }
        self.create_entry(disk, name, file_type, owner_u_id, n)
    }
}

/// A table of unused entries lists as nothing.
proof fn lemma_ls_unused(items: Seq<Seq<u8>>, i: nat)
    requires
        forall|k: int| 0 <= k < items.len() ==> #[trigger] items[k] == zeros(32),
    ensures
        ls_text(items, i) == Seq::<char>::empty(),
    decreases items.len() - i,
{
    if i < items.len() {
        assert(items[i as int][0] == 0u8);
        lemma_ls_unused(items, i + 1);
        assert(ls_text(items, i) =~= Seq::<char>::empty());
    }
}

/// A directory made by a successful `mkdir` opens empty: its block, the
/// lowest that was free, holds a directory of 31 unused entries that lists
/// as nothing, and the new entry's first slot names that block.
pub proof fn law_new_dir_empty(s0: DirServant, d0: Seq<u8>, s1: DirServant, d1: Seq<u8>, name: Seq<char>, owner_u_id: u8)
    requires
        s0.wf(d0),
        new_item_spec(s0, d0, s1, d1, name, FileType::Dir, owner_u_id, Ok(())),
        1 <= encode_utf8(name).len() <= MAX_NAME_LEN,
    ensures
        ({
            let c = first_free(d0);
            let g = gap_start(s0.items(d0), item_count(encode_utf8(name).len()));
            &&& dir_at(d1, c) matches Some(z) && z.num == 31 && z.items(d1) == Seq::new(31, |i: int| zeros(32))
                && ls_text(z.items(d1), 0) == Seq::<char>::empty()
            &&& g < s1.items(d1).len()
            &&& s1.items(d1)[g as int] == gen_item(encode_utf8(name), c as u32, FileType::Dir, owner_u_id, 0)
        }),
{
    reveal(new_item_post);
    let nm = encode_utf8(name);
    let n = item_count(nm.len());
    let items = room_for(s0, d0, n);
    let g = gap_start(s0.items(d0), n);
    let c = first_free(d0);
    assert(named_addr(s0.items(d0), name) is None);
    assert(free_count(d0, num_blocks(d0)) >= blocks_for_new_item(s0, d0, n));
    lemma_first_gap_found(s0.items(d0), n, 0);
    assert(g + n <= items.len());
    let z = DirServant { raw: child_file(c, FileType::Dir), num: 31 };
    lemma_ls_unused(z.items(d1), 0);
    assert(s1.items(d1)[(g + 0) as int] == gen_item(nm, c as u32, FileType::Dir, owner_u_id, 0));
}

} // verus!
