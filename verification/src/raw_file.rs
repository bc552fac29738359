use vstd::prelude::*;
use crate::addr::BlockAddr;
use crate::bitmap::BlockBitmap;
use crate::block_servant::{blocks_needed, file_write_post, written_by, BlockServant, MAX_VADDR};
use crate::config::{BLOCK_SIZE, FAT_ENTRY, NON_OCCUPY_NUM};
use crate::disk::{
    chain_block, chain_wf, fat, file_range, free_count, fs_wf, in_chain, is_data_block, is_free,
    lemma_fat_in_table, num_blocks, others_kept, phys, table_end, VirtualDisk,
};
use crate::file_io::{lemma_phys_data, lemma_phys_distinct, lemma_phys_in_block};
use crate::function::{bytes4_to_u32, le_u32, spec_u32_to_bytes};
use crate::metadata::Metadata;
use crate::file_shell::error::FileSystemOperationError;

verus! {

/// Size of the header that starts every file.
pub const ZFILE_SIZE: usize = 16;

/// What a file holds: data, or directory entries.
#[derive(Debug, Clone, Copy, PartialEq, Eq, Structural)]
pub enum FileType {
    File,
    Dir,
}

/// The byte that stands for a file type in a header.
pub open spec fn type_byte(t: FileType) -> u8 {
    match t {
        FileType::File => 0u8,
        FileType::Dir => 1u8,
    }
}

/// The header of a file: its length, its allocated length, its first block
/// and its type.
pub open spec fn header_bytes(file_len: u32, max_len: u32, entry: u32, t: FileType) -> Seq<u8> {
    spec_u32_to_bytes(file_len) + spec_u32_to_bytes(max_len) + spec_u32_to_bytes(entry) + seq![type_byte(t), 0u8, 0u8, 0u8]
}

/// The parts of a file that every kind of file has.
pub trait RawF {
    fn get_type(&self) -> FileType;

    fn metadata(&self) -> Metadata;
}

/// A file: its lengths, the chain of blocks holding it, and its type.
/// Its first `ZFILE_SIZE` bytes hold its header; offsets given to `read`
/// and `write` count from after the header.
#[derive(Debug, Clone, Copy)]
pub struct RawFile {
    pub metadata: Metadata,
    pub block_servant: BlockServant,
    pub file_type: FileType,
}

impl RawF for RawFile {
    fn get_type(&self) -> (t: FileType)
        ensures
            t == self.file_type,
    {
        self.file_type
    }

    fn metadata(&self) -> (m: Metadata)
        ensures
            m == self.metadata,
    {
        self.metadata
    }
}

/// The bytes read back by `RawFile::read` at `offset` (counted after the
/// header), or `None` when they run past the end of the file.
pub open spec fn spec_read(f: RawFile, d: Seq<u8>, offset: nat, size: nat) -> Option<Seq<u8>> {
    if offset + ZFILE_SIZE + size <= f.metadata.file_len {
        Some(file_range(d, f.entry(), (offset + ZFILE_SIZE) as nat, size))
    } else {
        None
    }
}

/// What a successful write of `buf[0 .. size]` at header-relative offset `off`
/// made of the file `f0` on disk `d0`: the file `f1` on disk `d1`.
pub open spec fn write_post(f0: RawFile, d0: Seq<u8>, f1: RawFile, d1: Seq<u8>, off: nat, buf: Seq<u8>, size: nat) -> bool {
    let e = f0.entry();
    &&& f1.entry() == e
    &&& f1.file_type == f0.file_type
    &&& fs_wf(d1)
    &&& chain_wf(d1, e, f1.blocks())
    &&& f1.metadata.max_len % 1024 == 0
    &&& f1.metadata.max_len <= MAX_VADDR
    &&& f1.metadata.max_len == f0.metadata.max_len + 1024 * blocks_needed(f0.metadata.max_len as nat, off + size)
    &&& f1.metadata.file_len == if f0.metadata.file_len >= off + size { f0.metadata.file_len as nat } else { off + size }
    &&& file_range(d1, e, off, size) == buf.subrange(0, size as int)
    &&& forall|p: nat| p < f0.metadata.file_len && !(off <= p < off + size)
        ==> #[trigger] d1[phys(d1, e, p) as int] == d0[phys(d0, e, p) as int]
    &&& others_kept(d0, d1, e, f0.blocks())
    &&& forall|k: nat| k < f0.blocks() ==> #[trigger] chain_block(d1, e, k) == chain_block(d0, e, k)
    &&& forall|k: nat| f0.blocks() <= k < f1.blocks() ==> is_free(d0, #[trigger] chain_block(d1, e, k))
    &&& (blocks_needed(f0.metadata.max_len as nat, off + size) == 0
        ==> forall|a: int| 0 <= a < table_end(d0) ==> #[trigger] d1[a] == d0[a])
}


/// Growing a file to hold `want` bytes keeps it within the handled offsets.
pub proof fn lemma_grow_bound(m0: nat, want: nat)
    requires
        m0 % 1024 == 0,
        m0 <= MAX_VADDR,
        want <= MAX_VADDR,
    ensures
        m0 + 1024 * blocks_needed(m0, want) <= MAX_VADDR,
        m0 + 1024 * blocks_needed(m0, want) >= want,
        (m0 + 1024 * blocks_needed(m0, want)) % 1024 == 0,
{
    if want > m0 {
        let g = (want - m0) as nat;
        let k = (g + 1023) / 1024;
        assert(1024 * k <= g + 1023 && 1024 * k >= g) by (nonlinear_arith)
            requires k == (g + 1023) / 1024;
        assert((m0 + 1024 * k) % 1024 == 0) by (nonlinear_arith)
            requires m0 % 1024 == 0;
        assert(m0 + 1024 * k <= MAX_VADDR) by (nonlinear_arith)
            requires (m0 + 1024 * k) % 1024 == 0, m0 + 1024 * k <= want + 1023, want <= MAX_VADDR, MAX_VADDR % 1024 == 0;
    }
}

/// After a write through a chain that the write kept, the written bytes
/// read back through the chain.
proof fn lemma_written_range(d1: Seq<u8>, d2: Seq<u8>, e: nat, n1: nat, off: nat, size: nat, buf: Seq<u8>)
    requires
        chain_wf(d1, e, n1),
        forall|k: nat| k < n1 ==> #[trigger] chain_block(d2, e, k) == chain_block(d1, e, k),
        file_write_post(d1, d2, e, off, buf, size),
        off + size <= n1 * 1024,
        size <= buf.len(),
    ensures
        file_range(d2, e, off, size) == buf.subrange(0, size as int),
{
    assert forall|i: int| 0 <= i < size implies #[trigger] file_range(d2, e, off, size)[i] == buf[i] by {
        let p = (off + i) as nat;
        assert(p / 1024 < n1) by (nonlinear_arith)
            requires p < off + size, off + size <= n1 * 1024;
        assert(chain_block(d2, e, p / 1024) == chain_block(d1, e, p / 1024));
        assert(phys(d2, e, p) == phys(d1, e, p));
    }
    assert(file_range(d2, e, off, size) =~= buf.subrange(0, size as int));
}

/// The bytes of a file outside a written range keep their values across
/// growing the chain and writing.
proof fn lemma_kept_bytes(d0: Seq<u8>, d1: Seq<u8>, d2: Seq<u8>, e: nat, n0: nat, n1: nat, off: nat, size: nat, flen: nat)
    requires
        chain_wf(d0, e, n0),
        chain_wf(d1, e, n1),
        n0 <= n1,
        flen <= n0 * 1024,
        off + size <= n1 * 1024,
        forall|k: nat| k < n0 ==> #[trigger] chain_block(d1, e, k) == chain_block(d0, e, k),
        forall|k: nat| k < n1 ==> #[trigger] chain_block(d2, e, k) == chain_block(d1, e, k),
        forall|a: int| 0 <= a < d0.len() && a >= table_end(d0) ==> #[trigger] d1[a] == d0[a],
        d1.len() == d0.len(),
        table_end(d1) == table_end(d0),
        file_write_post(d1, d2, e, off, Seq::<u8>::empty(), 0) || true,
        forall|a: int| 0 <= a < d1.len() && !written_by(d1, e, off, size, a) ==> #[trigger] d2[a] == d1[a],
    ensures
        forall|p: nat| p < flen && !(off <= p < off + size) ==> #[trigger] d2[phys(d2, e, p) as int] == d0[phys(d0, e, p) as int],
{
    assert forall|p: nat| p < flen && !(off <= p < off + size) implies #[trigger] d2[phys(d2, e, p) as int] == d0[phys(d0, e, p) as int] by {
        assert(p / 1024 < n0) by (nonlinear_arith)
            requires p < flen, flen <= n0 * 1024;
        assert(chain_block(d1, e, p / 1024) == chain_block(d0, e, p / 1024));
        assert(chain_block(d2, e, p / 1024) == chain_block(d1, e, p / 1024));
        assert(p < n1 * 1024) by (nonlinear_arith)
            requires p / 1024 < n0, n0 <= n1;
        lemma_phys_data(d1, e, n1, p);
        if written_by(d1, e, off, size, phys(d1, e, p) as int) {
            let q = choose|q: nat| off <= q < off + size && #[trigger] phys(d1, e, q) == phys(d1, e, p) as int;
            assert(q < n1 * 1024);
            lemma_phys_distinct(d1, e, n1, p, q);
        }
        assert(d2[phys(d1, e, p) as int] == d1[phys(d1, e, p) as int]);
    }
}

/// Growing a chain with free blocks and writing through it keeps every
/// other block in use.
proof fn lemma_others_after_write(d0: Seq<u8>, d1: Seq<u8>, d2: Seq<u8>, e: nat, n0: nat, n1: nat, off: nat, size: nat)
    requires
        fs_wf(d0),
        chain_wf(d0, e, n0),
        chain_wf(d1, e, n1),
        n0 >= 1,
        n0 <= n1,
        off + size <= n1 * 1024,
        d1.len() == d0.len(),
        d2.len() == d0.len(),
        forall|k: nat| k < n0 ==> #[trigger] chain_block(d1, e, k) == chain_block(d0, e, k),
        forall|k: nat| n0 <= k < n1 ==> is_free(d0, #[trigger] chain_block(d1, e, k)),
        forall|c: nat| c < num_blocks(d0) && !is_free(d0, c) && c != chain_block(d0, e, (n0 - 1) as nat)
            ==> #[trigger] fat(d1, c) == fat(d0, c),
        forall|a: int| 0 <= a < d0.len() && (a < FAT_ENTRY * 1024 || a >= table_end(d0)) ==> #[trigger] d1[a] == d0[a],
        forall|b: nat| b < num_blocks(d1) ==> #[trigger] fat(d2, b) == fat(d1, b),
        forall|a: int| 0 <= a < table_end(d1) ==> d2[a] == d1[a],
        forall|a: int| 0 <= a < d1.len() && !written_by(d1, e, off, size, a) ==> #[trigger] d2[a] == d1[a],
    ensures
        others_kept(d0, d2, e, n0),
{
    assert forall|b: nat| b < num_blocks(d0) && !is_free(d0, b) && !in_chain(d0, e, n0, b)
        implies #[trigger] fat(d2, b) == fat(d0, b) by {
        if b == chain_block(d0, e, (n0 - 1) as nat) {
            assert(in_chain(d0, e, n0, b));
        }
        assert(fat(d1, b) == fat(d0, b));
    }
    assert forall|a: int| table_end(d0) <= a < d0.len() && !is_free(d0, (a / 1024) as nat) && !in_chain(d0, e, n0, (a / 1024) as nat)
        implies #[trigger] d2[a] == d0[a] by {
        assert(d1[a] == d0[a]);
        if written_by(d1, e, off, size, a) {
            let q = choose|q: nat| off <= q < off + size && #[trigger] phys(d1, e, q) == a;
            assert(q < n1 * 1024);
            lemma_phys_in_block(d1, e, q);
            let k = q / 1024;
            assert(k < n1) by (nonlinear_arith)
                requires k == q / 1024, q < n1 * 1024;
            if k < n0 {
                assert(chain_block(d1, e, k) == chain_block(d0, e, k));
                assert(in_chain(d0, e, n0, (a / 1024) as nat));
            } else {
                assert(is_free(d0, chain_block(d1, e, k)));
            }
        }
    }
    assert forall|a: int| 0 <= a < FAT_ENTRY * 1024 implies #[trigger] d2[a] == d0[a] by {
        assert(d1[a] == d0[a]);
        assert(a < table_end(d1));
    }
}


/// Puts together what growing the chain and writing the bytes did.
proof fn lemma_raw_write_post(f0: RawFile, d0: Seq<u8>, d1: Seq<u8>, d2: Seq<u8>, f1: RawFile, off: nat, size: nat, buf: Seq<u8>)
    requires
        fs_wf(d0),
        f0.metadata.max_len % 1024 == 0,
        f0.metadata.max_len >= 1024,
        f0.metadata.file_len <= f0.metadata.max_len,
        chain_wf(d0, f0.entry(), f0.blocks()),
        off <= f0.metadata.file_len,
        off + size <= MAX_VADDR,
        size <= buf.len(),
        f1.block_servant == f0.block_servant,
        f1.file_type == f0.file_type,
        f1.metadata.max_len == f0.metadata.max_len + 1024 * blocks_needed(f0.metadata.max_len as nat, off + size),
        f1.metadata.max_len >= off + size,
        f1.metadata.max_len % 1024 == 0,
        f1.metadata.max_len <= MAX_VADDR,
        f1.metadata.file_len == if f0.metadata.file_len >= off + size { f0.metadata.file_len as nat } else { off + size },
        fs_wf(d1),
        d1.len() == d0.len(),
        chain_wf(d1, f0.entry(), f1.blocks()),
        forall|k: nat| k < f0.blocks() ==> #[trigger] chain_block(d1, f0.entry(), k) == chain_block(d0, f0.entry(), k),
        forall|k: nat| f0.blocks() <= k < f1.blocks() ==> is_free(d0, #[trigger] chain_block(d1, f0.entry(), k)),
        forall|c: nat| c < num_blocks(d0) && !is_free(d0, c) && c != chain_block(d0, f0.entry(), (f0.blocks() - 1) as nat)
            ==> #[trigger] fat(d1, c) == fat(d0, c),
        forall|a: int| 0 <= a < d0.len() && (a < FAT_ENTRY * 1024 || a >= table_end(d0)) ==> #[trigger] d1[a] == d0[a],
        fs_wf(d2),
        file_write_post(d1, d2, f0.entry(), off, buf, size),
        forall|n: nat| chain_wf(d1, f0.entry(), n) ==> chain_wf(d2, f0.entry(), n),
        forall|b: nat| b < num_blocks(d1) ==> #[trigger] fat(d2, b) == fat(d1, b),
        forall|a: int| 0 <= a < table_end(d1) ==> d2[a] == d1[a],
        blocks_needed(f0.metadata.max_len as nat, off + size) == 0 ==> d1 == d0,
    ensures
        write_post(f0, d0, f1, d2, off, buf, size),
{
    let e = f0.entry();
    let n0 = f0.blocks();
    let n1 = f1.blocks();
    assert(n0 <= n1) by (nonlinear_arith)
        requires f1.metadata.max_len >= f0.metadata.max_len, n0 == f0.metadata.max_len / 1024, n1 == f1.metadata.max_len / 1024;
    assert(off + size <= n1 * 1024) by (nonlinear_arith)
        requires off + size <= f1.metadata.max_len, f1.metadata.max_len % 1024 == 0, n1 == f1.metadata.max_len / 1024;
    assert(f0.metadata.file_len <= n0 * 1024) by (nonlinear_arith)
        requires f0.metadata.file_len <= f0.metadata.max_len, f0.metadata.max_len % 1024 == 0, n0 == f0.metadata.max_len / 1024;
    crate::bitmap::lemma_chain_kept(d1, d2, e, n1);
    lemma_written_range(d1, d2, e, n1, off, size, buf);
    lemma_kept_bytes(d0, d1, d2, e, n0, n1, off, size, f0.metadata.file_len as nat);
    lemma_others_after_write(d0, d1, d2, e, n0, n1, off, size);
}


/// The file described by the header stored at the start of `block`, if its
/// type byte is valid.
pub open spec fn decode_header(d: Seq<u8>, block: nat) -> Option<RawFile> {
    let o = (block * 1024) as int;
    if d[o + 12] == 0 || d[o + 12] == 1 {
        Some(RawFile {
            metadata: Metadata {
                file_len: le_u32(d[o], d[o + 1], d[o + 2], d[o + 3]) as u32,
                max_len: le_u32(d[o + 4], d[o + 5], d[o + 6], d[o + 7]) as u32,
            },
            block_servant: BlockServant { entry: BlockAddr { addr: le_u32(d[o + 8], d[o + 9], d[o + 10], d[o + 11]) as u32 } },
            file_type: if d[o + 12] == 0 { FileType::File } else { FileType::Dir },
        })
    } else {
        None
    }
}


/// `vis` marks exactly the first `k` blocks of the chain at `e`.
#[verifier::opaque]
spec fn visits(d: Seq<u8>, e: nat, k: nat, vis: Seq<bool>) -> bool {
    forall|b: int| 0 <= b < vis.len() ==> (vis[b] <==> in_chain(d, e, k, b as nat))
}

/// A block met again while walking a chain: the chain is not well formed.
proof fn lemma_visited_dup(d: Seq<u8>, e: nat, k: nat, n: nat, vis: Seq<bool>)
    requires
        k < n,
        chain_block(d, e, k) < vis.len(),
        visits(d, e, k, vis),
        vis[chain_block(d, e, k) as int],
    ensures
        !chain_wf(d, e, n),
{
    reveal(visits);
    let j = choose|j: nat| j < k && #[trigger] chain_block(d, e, j) == chain_block(d, e, k);
    if chain_wf(d, e, n) {
        assert(chain_block(d, e, j) != chain_block(d, e, k));
    }
}

/// Marking the `k`-th block of a chain as visited.
proof fn lemma_visited_step(d: Seq<u8>, e: nat, nb: nat, k: nat, vis0: Seq<bool>, vis1: Seq<bool>)
    requires
        vis0.len() == nb,
        chain_block(d, e, k) < nb,
        vis1 == vis0.update(chain_block(d, e, k) as int, true),
        visits(d, e, k, vis0),
        !vis0[chain_block(d, e, k) as int],
        forall|i: nat, j: nat| i < j < k ==> #[trigger] chain_block(d, e, i) != #[trigger] chain_block(d, e, j),
    ensures
        visits(d, e, k + 1, vis1),
        forall|i: nat, j: nat| i < j < k + 1 ==> #[trigger] chain_block(d, e, i) != #[trigger] chain_block(d, e, j),
{
    reveal(visits);
    let c = chain_block(d, e, k);
    assert forall|b: int| 0 <= b < nb implies (vis1[b] <==> in_chain(d, e, k + 1, b as nat)) by {
        if b == c {
            assert(in_chain(d, e, k + 1, b as nat));
        } else {
            if in_chain(d, e, k + 1, b as nat) {
                let j = choose|j: nat| j < k + 1 && #[trigger] chain_block(d, e, j) == b as nat;
                assert(j != k);
                assert(in_chain(d, e, k, b as nat));
            }
            if in_chain(d, e, k, b as nat) {
                let j = choose|j: nat| j < k && #[trigger] chain_block(d, e, j) == b as nat;
                assert(in_chain(d, e, k + 1, b as nat));
            }
        }
    }
    assert forall|i: nat, j: nat| i < j < k + 1 implies #[trigger] chain_block(d, e, i) != #[trigger] chain_block(d, e, j) by {
        if j == k && chain_block(d, e, i) == c {
            assert(in_chain(d, e, k, c));
        }
    }
}

/// The file whose header is at block `b`, when it opens: the block is in
/// use and its header describes a well-formed file.
pub open spec fn file_at(d: Seq<u8>, b: nat) -> Option<RawFile> {
    if b < num_blocks(d) && !is_free(d, b) && decode_header(d, b) is Some && decode_header(d, b).unwrap().wf(d) {
        decode_header(d, b)
    } else {
        None
    }
}

/// The length of the file whose header is at block `b`, when it opens.
pub open spec fn file_len_at(d: Seq<u8>, b: nat) -> Option<u32> {
    if b < num_blocks(d) && !is_free(d, b) && decode_header(d, b) is Some && decode_header(d, b).unwrap().wf(d) {
        Some(decode_header(d, b).unwrap().metadata.file_len)
    } else {
        None
    }
}

/// Whether the chain that starts at `entry` is well formed with `n` blocks.
#[verifier::rlimit(60)]
pub fn check_chain(disk: &VirtualDisk, entry: BlockAddr, n: u32) -> (b: bool)
    requires
        fs_wf(disk@),
    ensures
        b == chain_wf(disk@, entry.addr as nat, n as nat),
{
    let ghost d = disk@;
    let ghost e = entry.addr as nat;
    if n == 0 {
        return false;
    }
    let nb = (disk.len() / 1024) as u32;
    let table_end = FAT_ENTRY * 1024 + 4 * nb;
    let mut visited: Vec<bool> = Vec::new();
    let mut i: u32 = 0;
    while i < nb
        invariant
            i <= nb,
            visited@.len() == i,
            forall|j: int| 0 <= j < i ==> !visited@[j],
        decreases nb - i,
    {
        visited.push(false);
        i = i + 1;
    }
    let bit_map = BlockBitmap::new(BlockAddr { addr: FAT_ENTRY }, 256, 2);
    proof {
        lemma_fat_in_table(d, 0);
        reveal(visits);
    }
    let mut cur = entry;
    let mut k: u32 = 0;
    while k < n
        invariant
            crate::bitmap::table_fits(d, FAT_ENTRY as nat),
            d.len() <= u32::MAX,
            disk@ == d,
            e == entry.addr as nat,
            nb == num_blocks(d),
            table_end == crate::disk::table_end(d),
            bit_map.is_file_table(),
            bit_map.entry() == FAT_ENTRY,
            k <= n,
            n >= 1,
            visited@.len() == nb,
            cur.addr == chain_block(d, e, k as nat),
            forall|j: nat| j < k ==> is_data_block(d, #[trigger] chain_block(d, e, j)),
            forall|i: nat, j: nat| i < j < k ==> #[trigger] chain_block(d, e, i) != #[trigger] chain_block(d, e, j),
            visits(d, e, k as nat, visited@),
            k == n ==> fat(d, chain_block(d, e, (n - 1) as nat)) == crate::config::END_NUM,
        decreases n - k,
    {
        if cur.addr >= nb || (cur.addr as u64) * 1024 < table_end as u64 {
            proof {
                assert(!is_data_block(d, chain_block(d, e, k as nat)));
                if chain_wf(d, e, n as nat) {
                    assert(is_data_block(d, chain_block(d, e, k as nat)));
                }
            }
            return false;
        }
        if visited[cur.addr as usize] {
            proof { lemma_visited_dup(d, e, k as nat, n as nat, visited@); }
            return false;
        }
        let ghost vis0 = visited@;
        visited.set(cur.addr as usize, true);
        let next = bit_map.get_content(disk, cur);
        if k == n - 1 && next.addr != crate::config::END_NUM {
            return false;
        }
        proof { lemma_visited_step(d, e, nb as nat, k as nat, vis0, visited@); }
        cur = next;
        k = k + 1;
    }
    true
}


/// Shortens the chain that starts at `entry` from `n` to `keep` blocks; the
/// blocks cut off become free.
fn shrink_chain(disk: &mut VirtualDisk, entry: BlockAddr, n: u32, keep: u32)
    requires
        fs_wf(old(disk)@),
        chain_wf(old(disk)@, entry.addr as nat, n as nat),
        1 <= keep <= n,
    ensures
        fs_wf(final(disk)@),
        final(disk)@.len() == old(disk)@.len(),
        chain_wf(final(disk)@, entry.addr as nat, keep as nat),
        forall|k: nat| k < keep ==> #[trigger] chain_block(final(disk)@, entry.addr as nat, k) == chain_block(old(disk)@, entry.addr as nat, k),
        forall|k: nat| keep <= k < n ==> is_free(final(disk)@, #[trigger] chain_block(old(disk)@, entry.addr as nat, k)),
        forall|c: nat| c < num_blocks(old(disk)@) && !in_chain(old(disk)@, entry.addr as nat, n as nat, c)
            ==> #[trigger] fat(final(disk)@, c) == fat(old(disk)@, c),
        forall|a: int| 0 <= a < old(disk)@.len() && (a < FAT_ENTRY * 1024 || a >= table_end(old(disk)@))
            ==> #[trigger] final(disk)@[a] == old(disk)@[a],
{
    let ghost d0 = disk@;
    let ghost e = entry.addr as nat;
    let bit_map = BlockBitmap::new(BlockAddr { addr: FAT_ENTRY }, 256, 2);
    let mut cur = n;
    while cur > keep
        invariant
            fs_wf(disk@),
            fs_wf(d0),
            e == entry.addr as nat,
            bit_map.is_file_table(),
            disk@.len() == d0.len(),
            chain_wf(d0, e, n as nat),
            keep <= cur <= n,
            keep >= 1,
            chain_wf(disk@, e, cur as nat),
            forall|k: nat| k < cur ==> #[trigger] chain_block(disk@, e, k) == chain_block(d0, e, k),
            forall|k: nat| cur <= k < n ==> is_free(disk@, #[trigger] chain_block(d0, e, k)),
            forall|c: nat| c < num_blocks(d0) && !in_chain(d0, e, n as nat, c) ==> #[trigger] fat(disk@, c) == fat(d0, c),
            forall|a: int| 0 <= a < d0.len() && (a < FAT_ENTRY * 1024 || a >= table_end(d0)) ==> #[trigger] disk@[a] == d0[a],
        decreases cur - keep,
    {
        let ghost d1 = disk@;
        bit_map.reduce_a_block(disk, entry);
        proof {
            let d2 = disk@;
            assert(chain_wf(d1, e, cur as nat));
            assert(chain_wf(d2, e, (cur - 1) as nat));
            assert forall|k: nat| k < cur - 1 implies #[trigger] chain_block(d2, e, k) == chain_block(d0, e, k) by {
                assert(chain_block(d2, e, k) == chain_block(d1, e, k));
            }
            assert forall|k: nat| cur - 1 <= k < n implies is_free(d2, #[trigger] chain_block(d0, e, k)) by {
                if k == cur - 1 {
                    assert(chain_block(d1, e, k) == chain_block(d0, e, k));
                } else {
                    assert(is_free(d1, chain_block(d0, e, k)));
                    assert(chain_block(d0, e, k) != chain_block(d0, e, (cur - 1) as nat));
                    assert(chain_block(d0, e, k) != chain_block(d0, e, (cur - 2) as nat));
                    assert(is_data_block(d0, chain_block(d0, e, k)));
                }
            }
            assert forall|c: nat| c < num_blocks(d0) && !in_chain(d0, e, n as nat, c) implies #[trigger] fat(d2, c) == fat(d0, c) by {
                if c == chain_block(d1, e, (cur - 1) as nat) {
                    assert(chain_block(d1, e, (cur - 1) as nat) == chain_block(d0, e, (cur - 1) as nat));
                    assert(in_chain(d0, e, n as nat, c));
                }
                if c == chain_block(d1, e, (cur - 2) as nat) {
                    assert(chain_block(d1, e, (cur - 2) as nat) == chain_block(d0, e, (cur - 2) as nat));
                    assert(in_chain(d0, e, n as nat, c));
                }
                assert(fat(d1, c) == fat(d0, c));
            }
            assert forall|a: int| 0 <= a < d0.len() && (a < FAT_ENTRY * 1024 || a >= table_end(d0)) implies #[trigger] d2[a] == d0[a] by {
                assert(d1[a] == d0[a]);
            }
        }
        cur = cur - 1;
    }
}


/// What shortening a chain to `keep` blocks kept of the file's bytes.
proof fn lemma_reduce_post(d0: Seq<u8>, d1: Seq<u8>, e: nat, n: nat, keep: nat, after: nat)
    requires
        chain_wf(d0, e, n),
        keep <= n,
        keep == (after + 1023) / 1024,
        d1.len() == d0.len(),
        table_end(d1) == table_end(d0),
        forall|k: nat| k < keep ==> #[trigger] chain_block(d1, e, k) == chain_block(d0, e, k),
        forall|a: int| 0 <= a < d0.len() && (a < FAT_ENTRY * 1024 || a >= table_end(d0)) ==> #[trigger] d1[a] == d0[a],
    ensures
        keep * 1024 <= n * 1024,
        after <= keep * 1024,
        forall|p: nat| p < after ==> #[trigger] d1[phys(d1, e, p) as int] == d0[phys(d0, e, p) as int],
{
    assert(keep * 1024 <= n * 1024) by (nonlinear_arith)
        requires keep <= n;
    assert(after <= keep * 1024) by (nonlinear_arith)
        requires keep == (after + 1023) / 1024;
    assert forall|p: nat| p < after implies #[trigger] d1[phys(d1, e, p) as int] == d0[phys(d0, e, p) as int] by {
        assert(p / 1024 < keep) by (nonlinear_arith)
            requires p < after, after <= keep * 1024;
        assert(chain_block(d1, e, p / 1024) == chain_block(d0, e, p / 1024));
        assert(p < n * 1024) by (nonlinear_arith)
            requires p / 1024 < keep, keep <= n;
        lemma_phys_data(d0, e, n, p);
    }
}

/// After freeing every block of a chain but the first, then the first.
proof fn lemma_del_post(d0: Seq<u8>, d1: Seq<u8>, d2: Seq<u8>, e: nat, n: nat)
    requires
        fs_wf(d0),
        chain_wf(d0, e, n),
        d1.len() == d0.len(),
        d2.len() == d0.len(),
        table_end(d1) == table_end(d0),
        forall|k: nat| 1 <= k < n ==> is_free(d1, #[trigger] chain_block(d0, e, k)),
        forall|c: nat| c < num_blocks(d0) && !in_chain(d0, e, n, c) ==> #[trigger] fat(d1, c) == fat(d0, c),
        forall|a: int| 0 <= a < d0.len() && (a < FAT_ENTRY * 1024 || a >= table_end(d0)) ==> #[trigger] d1[a] == d0[a],
        fat(d2, e) == NON_OCCUPY_NUM,
        forall|c: nat| c < num_blocks(d1) && c != e ==> #[trigger] fat(d2, c) == fat(d1, c),
        forall|a: int| 0 <= a < d1.len() && (a < FAT_ENTRY * 1024 || a >= table_end(d1)) ==> d2[a] == d1[a],
    ensures
        forall|k: nat| k < n ==> is_free(d2, #[trigger] chain_block(d0, e, k)),
        forall|c: nat| c < num_blocks(d0) && !in_chain(d0, e, n, c) ==> #[trigger] fat(d2, c) == fat(d0, c),
        forall|a: int| 0 <= a < d0.len() && (a < FAT_ENTRY * 1024 || a >= table_end(d0)) ==> #[trigger] d2[a] == d0[a],
{
    assert forall|k: nat| k < n implies is_free(d2, #[trigger] chain_block(d0, e, k)) by {
        if k >= 1 {
            assert(is_free(d1, chain_block(d0, e, k)));
            assert(chain_block(d0, e, k) != chain_block(d0, e, 0));
            assert(is_data_block(d0, chain_block(d0, e, k)));
        }
    }
    assert forall|c: nat| c < num_blocks(d0) && !in_chain(d0, e, n, c) implies #[trigger] fat(d2, c) == fat(d0, c) by {
        if c == e {
            assert(chain_block(d0, e, 0) == e);
            assert(in_chain(d0, e, n, c));
        }
        assert(fat(d1, c) == fat(d0, c));
    }
    assert forall|a: int| 0 <= a < d0.len() && (a < FAT_ENTRY * 1024 || a >= table_end(d0)) implies #[trigger] d2[a] == d0[a] by {
        assert(d1[a] == d0[a]);
    }
}

impl RawFile {
    /// The first block of the file.
    pub open spec fn entry(&self) -> nat {
        self.block_servant.entry.addr as nat
    }

    /// The number of blocks allocated to the file.
    pub open spec fn blocks(&self) -> nat {
        (self.metadata.max_len / 1024) as nat
    }

    /// The file's lengths agree with its chain of blocks on disk `d`.
    pub open spec fn wf(&self, d: Seq<u8>) -> bool {
        &&& fs_wf(d)
        &&& self.metadata.max_len % 1024 == 0
        &&& self.metadata.max_len >= 1024
        &&& self.metadata.max_len <= MAX_VADDR
        &&& ZFILE_SIZE <= self.metadata.file_len <= self.metadata.max_len
        &&& chain_wf(d, self.entry(), self.blocks())
    }

    /// The header the file has now.
    pub open spec fn header(&self) -> Seq<u8> {
        header_bytes(self.metadata.file_len, self.metadata.max_len, self.block_servant.entry.addr, self.file_type)
    }

    /// A new file of type `file_type` whose only block is the free-standing
    /// `block_entry`; its header is written at the start of the block.
    pub fn new(disk: &mut VirtualDisk, file_type: FileType, block_entry: BlockAddr) -> (f: RawFile)
        requires
            fs_wf(old(disk)@),
            chain_wf(old(disk)@, block_entry.addr as nat, 1),
        ensures
            f.metadata.file_len == ZFILE_SIZE,
            f.metadata.max_len == BLOCK_SIZE,
            f.block_servant.entry == block_entry,
            f.file_type == file_type,
            f.wf(final(disk)@),
            file_range(final(disk)@, block_entry.addr as nat, 0, 16)
                == header_bytes(0, BLOCK_SIZE, block_entry.addr, file_type),
            others_kept(old(disk)@, final(disk)@, block_entry.addr as nat, 1),
            forall|a: int| 0 <= a < table_end(old(disk)@) ==> #[trigger] final(disk)@[a] == old(disk)@[a],
    {
        let mut f = RawFile {
            metadata: Metadata::new(0, BLOCK_SIZE),
            block_servant: BlockServant::new(block_entry),
            file_type: file_type,
        };
        let data = RawFile::file_to_u8(f);
        let mut buf: Vec<u8> = Vec::new();
        let mut i: usize = 0;
        while i < ZFILE_SIZE
            invariant
                i <= ZFILE_SIZE,
                data@.len() == ZFILE_SIZE,
                buf@ == data@.subrange(0, i as int),
            decreases ZFILE_SIZE - i,
        {
            buf.push(data[i]);
            i = i + 1;
            assert(buf@ =~= data@.subrange(0, i as int));
        }
        assert(buf@ =~= data@);
        let ghost d0 = disk@;
        let _ = f.raw_write(disk, 0, &buf, ZFILE_SIZE as u32);
        proof {
            assert(blocks_needed(1024, 16) == 0);
            assert(file_range(disk@, block_entry.addr as nat, 0, 16) =~= buf@.subrange(0, 16));
        }
        f
    }

    /// Appends to `buf` the `size` bytes at `offset` (counted after the
    /// header); `Err`, with `buf` unchanged, when they run past the end.
    pub fn read(&self, disk: &VirtualDisk, offset: u32, buf: &mut Vec<u8>, size: u32) -> (r: Result<(), ()>)
        requires
            self.wf(disk@),
        ensures
            match spec_read(*self, disk@, offset as nat, size as nat) {
                Some(s) => r is Ok && final(buf)@ == old(buf)@ + s,
                None => r is Err && final(buf)@ == old(buf)@,
            },
    {
        if offset as u64 + ZFILE_SIZE as u64 + size as u64 > self.metadata.get_file_len() as u64 {
            return Err(());
        }
        let offset = offset + ZFILE_SIZE as u32;
        self.raw_read(disk, offset, buf, size)
    }

    fn raw_read(&self, disk: &VirtualDisk, offset: u32, buf: &mut Vec<u8>, size: u32) -> (r: Result<(), ()>)
        requires
            self.wf(disk@),
            offset + size <= MAX_VADDR,
        ensures
            offset + size <= self.metadata.file_len ==> r is Ok && final(buf)@ == old(buf)@
                + file_range(disk@, self.entry(), offset as nat, size as nat),
            offset + size > self.metadata.file_len ==> r is Err && final(buf)@ == old(buf)@,
    {
        let len = self.metadata.get_file_len();
        match self.block_servant.read_check(len, offset, size) {
            Ok(()) => {
                let _ = self.block_servant.read(disk, offset, buf, size);
                Ok(())
            },
            Err(()) => Err(()),
        }
    }

    /// Writes `buf[0 .. size]` at `offset` (counted after the header),
    /// growing the file when needed. `Err`, with nothing changed, when
    /// `offset` lies past the end of the file or the disk lacks free blocks.
    pub fn write(&mut self, disk: &mut VirtualDisk, offset: u32, buf: &Vec<u8>, size: u32) -> (r: Result<(), ()>)
        requires
            old(self).wf(old(disk)@),
            offset + ZFILE_SIZE + size <= MAX_VADDR,
            size <= buf@.len(),
        ensures
            r is Ok <==> (offset + ZFILE_SIZE <= old(self).metadata.file_len
                && blocks_needed(old(self).metadata.max_len as nat, (offset + ZFILE_SIZE + size) as nat)
                <= free_count(old(disk)@, num_blocks(old(disk)@))),
            r is Ok ==> write_post(*old(self), old(disk)@, *final(self), final(disk)@, (offset + ZFILE_SIZE) as nat, buf@, size as nat),
            r is Ok ==> final(self).wf(final(disk)@),
            r is Err ==> *final(self) == *old(self) && final(disk)@ == old(disk)@,
    {
        let offset = offset + ZFILE_SIZE as u32;
        self.raw_write(disk, offset, buf, size)
    }

    #[verifier::rlimit(40)]
    fn raw_write(&mut self, disk: &mut VirtualDisk, offset: u32, buf: &Vec<u8>, size: u32) -> (r: Result<(), ()>)
        requires
            fs_wf(old(disk)@),
            old(self).metadata.max_len % 1024 == 0,
            old(self).metadata.max_len >= 1024,
            old(self).metadata.max_len <= MAX_VADDR,
            old(self).metadata.file_len <= old(self).metadata.max_len,
            chain_wf(old(disk)@, old(self).entry(), old(self).blocks()),
            offset + size <= MAX_VADDR,
            size <= buf@.len(),
        ensures
            r is Ok <==> (offset <= old(self).metadata.file_len
                && blocks_needed(old(self).metadata.max_len as nat, (offset + size) as nat)
                <= free_count(old(disk)@, num_blocks(old(disk)@))),
            r is Ok ==> write_post(*old(self), old(disk)@, *final(self), final(disk)@, offset as nat, buf@, size as nat),
            r is Err ==> *final(self) == *old(self) && final(disk)@ == old(disk)@,
    {
        let ghost d0 = disk@;
        let ghost f0 = *self;
        let ghost e = self.entry();
        let ghost n0 = self.blocks();
        let now_len = self.metadata.get_file_len();
        if now_len < offset {
            return Err(());
        }
        let max_len = self.metadata.get_max_len();
        let max_len = match self.block_servant.write_check(disk, max_len, offset, size) {
            Ok(m) => m,
            Err(_) => {
                return Err(());
            },
        };
        let ghost d1 = disk@;
        self.metadata.set_max_len(max_len);
        proof {
            lemma_grow_bound(f0.metadata.max_len as nat, (offset + size) as nat);
            assert(self.blocks() == max_len / 1024);
            assert((offset + size) as nat <= (max_len / 1024) as nat * 1024) by (nonlinear_arith)
                requires offset + size <= max_len, max_len % 1024 == 0;
        }
        let _ = self.block_servant.write(disk, offset, buf, size);
        let ghost d2 = disk@;
        let max = if now_len < size + offset { size + offset } else { now_len };
        self.metadata.set_file_len(max);
        proof {
            lemma_raw_write_post(f0, d0, d1, d2, *self, offset as nat, size as nat, buf@);
        }
        Ok(())
    }

    /// The header of a file as the 16 bytes stored on disk.
    pub fn file_to_u8(file: RawFile) -> (a: [u8; ZFILE_SIZE])
        ensures
            a@ == file.header(),
    {
        let mut a: [u8; ZFILE_SIZE] = [0u8; ZFILE_SIZE];
        let l = crate::function::u32_to_vec(file.metadata.file_len);
        let m = crate::function::u32_to_vec(file.metadata.max_len);
        let e = crate::function::u32_to_vec(file.block_servant.entry.addr);
        let mut i: usize = 0;
        while i < 4
            invariant
                i <= 4,
                a@.len() == 16,
                l@ == spec_u32_to_bytes(file.metadata.file_len),
                m@ == spec_u32_to_bytes(file.metadata.max_len),
                e@ == spec_u32_to_bytes(file.block_servant.entry.addr),
                forall|j: int| 0 <= j < i ==> a@[j] == l@[j] && a@[4 + j] == m@[j] && a@[8 + j] == e@[j],
                forall|j: int| 12 <= j < 16 ==> a@[j] == 0,
            decreases 4 - i,
        {
            a[i] = l[i];
            a[4 + i] = m[i];
            a[8 + i] = e[i];
            i = i + 1;
        }
        let t: u8 = match file.file_type {
            FileType::File => 0,
            FileType::Dir => 1,
        };
        a[12] = t;
        assert(a@ =~= file.header());
        a
    }

    /// The file described by a header, or `None` when its type byte is
    /// neither 0 (file) nor 1 (directory).
    pub fn u8_to_file(v: [u8; ZFILE_SIZE]) -> (r: Option<RawFile>)
        ensures
            match r {
                Some(f) => {
                    &&& f.metadata.file_len == le_u32(v@[0], v@[1], v@[2], v@[3])
                    &&& f.metadata.max_len == le_u32(v@[4], v@[5], v@[6], v@[7])
                    &&& f.block_servant.entry.addr == le_u32(v@[8], v@[9], v@[10], v@[11])
                    &&& type_byte(f.file_type) == v@[12]
                },
                None => v@[12] != 0 && v@[12] != 1,
            },
    {
        let file_len = bytes4_to_u32(v[0], v[1], v[2], v[3]);
        let max_len = bytes4_to_u32(v[4], v[5], v[6], v[7]);
        let entry = bytes4_to_u32(v[8], v[9], v[10], v[11]);
        let file_type = if v[12] == 0 {
            FileType::File
        } else if v[12] == 1 {
            FileType::Dir
        } else {
            return None;
        };
        Some(RawFile {
            metadata: Metadata::new(file_len, max_len),
            block_servant: BlockServant::new(BlockAddr::new(entry)),
            file_type,
        })
    }

    /// Opens the file whose header is stored at the start of `block`. `Err`
    /// when the block does not exist or is free, when the header's type is
    /// not valid, or when the header does not describe a well-formed file.
    pub fn open(disk: &VirtualDisk, block: BlockAddr) -> (r: Result<RawFile, ()>)
        requires
            fs_wf(disk@),
        ensures
            match r {
                Ok(f) => {
                    &&& block.addr < num_blocks(disk@)
                    &&& !is_free(disk@, block.addr as nat)
                    &&& decode_header(disk@, block.addr as nat) == Some(f)
                    &&& f.wf(disk@)
                },
                Err(_) => !(block.addr < num_blocks(disk@) && !is_free(disk@, block.addr as nat)
                    && decode_header(disk@, block.addr as nat) is Some
                    && decode_header(disk@, block.addr as nat).unwrap().wf(disk@)),
            },
    {
        let nb = (disk.len() / 1024) as u32;
        if block.addr >= nb {
            return Err(());
        }
        let bit_map = BlockBitmap::new(BlockAddr { addr: FAT_ENTRY }, 256, 2);
        proof { lemma_fat_in_table(disk@, 0); }
        if bit_map.get_content(disk, block).addr == NON_OCCUPY_NUM {
            return Err(());
        }
        proof {
            assert((block.addr + 1) * 1024 <= disk@.len()) by (nonlinear_arith)
                requires block.addr < disk@.len() / 1024;
        }
        let offset = block.addr * BLOCK_SIZE;
        let bytes = disk.read_bytes(offset, ZFILE_SIZE as u32);
        let mut fa: [u8; ZFILE_SIZE] = [0u8; ZFILE_SIZE];
        let mut i: usize = 0;
        while i < ZFILE_SIZE
            invariant
                i <= ZFILE_SIZE,
                bytes@.len() == ZFILE_SIZE,
                fa@.len() == ZFILE_SIZE,
                forall|j: int| 0 <= j < i ==> fa@[j] == bytes@[j],
            decreases ZFILE_SIZE - i,
        {
            fa[i] = bytes[i];
            i = i + 1;
        }
        let f = match RawFile::u8_to_file(fa) {
            Some(f) => f,
            None => {
                return Err(());
            },
        };
        let m = f.metadata;
        if m.max_len % BLOCK_SIZE != 0 || m.max_len < BLOCK_SIZE || m.max_len > MAX_VADDR
            || m.file_len < ZFILE_SIZE as u32 || m.file_len > m.max_len {
            return Err(());
        }
        if !check_chain(disk, f.block_servant.entry, m.max_len / BLOCK_SIZE) {
            return Err(());
        }
        Ok(f)
    }

    /// Writes the file's header back at its start.
    pub fn close(&mut self, disk: &mut VirtualDisk)
        requires
            old(self).wf(old(disk)@),
        ensures
            *final(self) == *old(self),
            final(self).wf(final(disk)@),
            write_post(*old(self), old(disk)@, *final(self), final(disk)@, 0, old(self).header(), 16),
    {
        let temp = RawFile::file_to_u8(*self);
        let mut buf: Vec<u8> = Vec::new();
        let mut i: usize = 0;
        while i < ZFILE_SIZE
            invariant
                i <= ZFILE_SIZE,
                temp@.len() == ZFILE_SIZE,
                buf@ == temp@.subrange(0, i as int),
            decreases ZFILE_SIZE - i,
        {
            buf.push(temp[i]);
            i = i + 1;
            assert(buf@ =~= temp@.subrange(0, i as int));
        }
        assert(buf@ =~= temp@);
        assert(blocks_needed(self.metadata.max_len as nat, 16) == 0);
        let _ = self.raw_write(disk, 0, &buf, ZFILE_SIZE as u32);
    }

    /// Appends `buf[0 .. size]` at the end of the file.
    pub fn add_write(&mut self, disk: &mut VirtualDisk, buf: &Vec<u8>, size: u32) -> (r: Result<(), ()>)
        requires
            old(self).wf(old(disk)@),
            old(self).metadata.file_len + size <= MAX_VADDR,
            size <= buf@.len(),
        ensures
            r is Ok <==> blocks_needed(old(self).metadata.max_len as nat, (old(self).metadata.file_len + size) as nat)
                <= free_count(old(disk)@, num_blocks(old(disk)@)),
            r is Ok ==> write_post(*old(self), old(disk)@, *final(self), final(disk)@, old(self).metadata.file_len as nat, buf@, size as nat),
            r is Ok ==> final(self).wf(final(disk)@),
            r is Err ==> *final(self) == *old(self) && final(disk)@ == old(disk)@,
    {
        let offset = self.metadata.get_file_len();
        self.raw_write(disk, offset, buf, size)
    }

    /// Removes `size` bytes from the end of the file and frees the blocks it
    /// no longer needs. When no more than the header would remain, the file
    /// keeps only its header and its first block.
    pub fn reduce(&mut self, disk: &mut VirtualDisk, size: u32)
        requires
            old(self).wf(old(disk)@),
        ensures
            final(self).wf(final(disk)@),
            final(self).block_servant == old(self).block_servant,
            final(self).file_type == old(self).file_type,
            final(self).metadata.file_len == if old(self).metadata.file_len <= size + ZFILE_SIZE { ZFILE_SIZE as int }
                else { old(self).metadata.file_len - size },
            final(self).metadata.max_len == if old(self).metadata.file_len <= size + ZFILE_SIZE { 1024 }
                else { 1024 * ((old(self).metadata.file_len - size + 1023) / 1024) },
            forall|p: nat| p < final(self).metadata.file_len ==> #[trigger] final(disk)@[phys(final(disk)@, final(self).entry(), p) as int]
                == old(disk)@[phys(old(disk)@, old(self).entry(), p) as int],
            forall|k: nat| final(self).blocks() <= k < old(self).blocks()
                ==> is_free(final(disk)@, #[trigger] chain_block(old(disk)@, old(self).entry(), k)),
            forall|c: nat| c < num_blocks(old(disk)@) && !in_chain(old(disk)@, old(self).entry(), old(self).blocks(), c)
                ==> #[trigger] fat(final(disk)@, c) == fat(old(disk)@, c),
            forall|a: int| 0 <= a < old(disk)@.len() && (a < FAT_ENTRY * 1024 || a >= table_end(old(disk)@))
                ==> #[trigger] final(disk)@[a] == old(disk)@[a],
    {
        let i = self.metadata.get_file_len();
        if i as u64 <= size as u64 + ZFILE_SIZE as u64 {
            self.del_init(disk);
            return;
        }
        let after_i = i - size;
        let keep = (after_i + 1023) / BLOCK_SIZE;
        let n = self.metadata.get_max_len() / BLOCK_SIZE;
        proof {
            assert(1 <= keep <= n) by (nonlinear_arith)
                requires keep == (after_i + 1023) / 1024, after_i >= 17, after_i <= self.metadata.max_len,
                    n == self.metadata.max_len / 1024, self.metadata.max_len % 1024 == 0;
        }
        let ghost d0 = disk@;
        let ghost e = self.entry();
        shrink_chain(disk, self.block_servant.entry, n, keep);
        self.metadata.set_file_len(after_i);
        self.metadata.set_max_len(keep * BLOCK_SIZE);
        proof {
            lemma_reduce_post(d0, disk@, e, n as nat, keep as nat, after_i as nat);
            assert(self.blocks() == keep);
        }
    }

    /// Frees every block of the file but the first; the file keeps only its
    /// header.
    pub fn del_init(&mut self, disk: &mut VirtualDisk)
        requires
            old(self).wf(old(disk)@),
        ensures
            final(self).wf(final(disk)@),
            final(self).block_servant == old(self).block_servant,
            final(self).file_type == old(self).file_type,
            final(self).metadata.file_len == ZFILE_SIZE,
            final(self).metadata.max_len == 1024,
            forall|p: nat| p < ZFILE_SIZE ==> #[trigger] final(disk)@[phys(final(disk)@, final(self).entry(), p) as int]
                == old(disk)@[phys(old(disk)@, old(self).entry(), p) as int],
            forall|k: nat| 1 <= k < old(self).blocks() ==> is_free(final(disk)@, #[trigger] chain_block(old(disk)@, old(self).entry(), k)),
            forall|c: nat| c < num_blocks(old(disk)@) && !in_chain(old(disk)@, old(self).entry(), old(self).blocks(), c)
                ==> #[trigger] fat(final(disk)@, c) == fat(old(disk)@, c),
            forall|a: int| 0 <= a < old(disk)@.len() && (a < FAT_ENTRY * 1024 || a >= table_end(old(disk)@))
                ==> #[trigger] final(disk)@[a] == old(disk)@[a],
    {
        let i = self.metadata.get_max_len() / BLOCK_SIZE;
        let ghost d0 = disk@;
        let ghost e = self.entry();
        shrink_chain(disk, self.block_servant.entry, i, 1);
        self.metadata.set_file_len(ZFILE_SIZE as u32);
        self.metadata.set_max_len(BLOCK_SIZE);
        proof {
            assert forall|p: nat| p < ZFILE_SIZE implies #[trigger] disk@[phys(disk@, e, p) as int] == d0[phys(d0, e, p) as int] by {
                assert(chain_block(disk@, e, p / 1024) == chain_block(d0, e, p / 1024));
                lemma_phys_data(d0, e, i as nat, p);
            }
        }
    }

    /// Frees every block of the file.
    pub fn del(&mut self, disk: &mut VirtualDisk)
        requires
            old(self).wf(old(disk)@),
        ensures
            fs_wf(final(disk)@),
            final(disk)@.len() == old(disk)@.len(),
            forall|k: nat| k < old(self).blocks() ==> is_free(final(disk)@, #[trigger] chain_block(old(disk)@, old(self).entry(), k)),
            forall|c: nat| c < num_blocks(old(disk)@) && !in_chain(old(disk)@, old(self).entry(), old(self).blocks(), c)
                ==> #[trigger] fat(final(disk)@, c) == fat(old(disk)@, c),
            forall|a: int| 0 <= a < old(disk)@.len() && (a < FAT_ENTRY * 1024 || a >= table_end(old(disk)@))
                ==> #[trigger] final(disk)@[a] == old(disk)@[a],
    {
        let ghost d0 = disk@;
        let ghost f0 = *self;
        let ghost e = self.entry();
        let i = self.metadata.get_max_len() / BLOCK_SIZE;
        shrink_chain(disk, self.block_servant.entry, i, 1);
        let ghost d1 = disk@;
        let bit_map = BlockBitmap::new(BlockAddr { addr: FAT_ENTRY }, 256, 2);
        proof {
            lemma_fat_in_table(d1, 0);
            assert(chain_block(d1, e, 0) == e);
            assert(is_data_block(d1, e));
        }
        bit_map.set_empty_block(disk, self.block_servant.entry);
        proof {
            crate::bitmap::lemma_fs_wf_entry_write(d1, disk@, e, NON_OCCUPY_NUM);
            lemma_del_post(d0, d1, disk@, e, f0.blocks());
        }
    }

    /// The length of the file whose header is at the start of `block`.
    pub fn simple_get_len(disk: &VirtualDisk, block: BlockAddr) -> (r: Result<u32, FileSystemOperationError>)
        requires
            fs_wf(disk@),
        ensures
            match r {
                Ok(n) => file_len_at(disk@, block.addr as nat) == Some(n),
                Err(e) => file_len_at(disk@, block.addr as nat) is None && e is DiskError,
            },
    {
        match RawFile::open(disk, block) {
            Ok(f) => Ok(f.metadata.get_file_len()),
            Err(_) => Err(FileSystemOperationError::DiskError("无法打开文件".to_owned())),
        }
    }

    /// The first block of the file.
    pub fn get_block_entry(&self) -> (b: BlockAddr)
        ensures
            b == self.block_servant.entry,
    {
        self.block_servant.entry
    }
}


/// Reading back what a successful write wrote gives the written bytes.
pub proof fn law_read_after_write(f0: RawFile, d0: Seq<u8>, f1: RawFile, d1: Seq<u8>, offset: nat, buf: Seq<u8>, size: nat)
    requires
        f0.wf(d0),
        size <= buf.len(),
        write_post(f0, d0, f1, d1, (offset + ZFILE_SIZE) as nat, buf, size),
    ensures
        spec_read(f1, d1, offset, size) == Some(buf.subrange(0, size as int)),
{
}

/// A write leaves the bytes of the file outside the written range as they
/// were.
pub proof fn law_write_keeps_other_bytes(
    f0: RawFile,
    d0: Seq<u8>,
    f1: RawFile,
    d1: Seq<u8>,
    offset: nat,
    buf: Seq<u8>,
    size: nat,
    p: nat,
    len: nat,
)
    requires
        f0.wf(d0),
        write_post(f0, d0, f1, d1, (offset + ZFILE_SIZE) as nat, buf, size),
        p + len <= offset || offset + size <= p,
        spec_read(f0, d0, p, len) is Some,
    ensures
        spec_read(f1, d1, p, len) == spec_read(f0, d0, p, len),
{
    let e = f0.entry();
    assert(file_range(d1, e, (p + ZFILE_SIZE) as nat, len) =~= file_range(d0, e, (p + ZFILE_SIZE) as nat, len)) by {
        assert forall|i: int| 0 <= i < len implies #[trigger] file_range(d1, e, (p + ZFILE_SIZE) as nat, len)[i]
            == file_range(d0, e, (p + ZFILE_SIZE) as nat, len)[i] by {
            let q = (p + ZFILE_SIZE + i) as nat;
            assert(q < f0.metadata.file_len);
            assert(!(offset + ZFILE_SIZE <= q < offset + ZFILE_SIZE + size));
            assert(d1[phys(d1, e, q) as int] == d0[phys(d0, e, q) as int]);
        }
    }
}

/// A write to one file leaves every file whose blocks it does not share
/// well formed and reading as before.
pub proof fn law_write_keeps_other_files(
    f0: RawFile,
    d0: Seq<u8>,
    f1: RawFile,
    d1: Seq<u8>,
    offset: nat,
    buf: Seq<u8>,
    size: nat,
    g: RawFile,
    p: nat,
    len: nat,
)
    requires
        f0.wf(d0),
        g.wf(d0),
        write_post(f0, d0, f1, d1, (offset + ZFILE_SIZE) as nat, buf, size),
        forall|b: nat| !(in_chain(d0, f0.entry(), f0.blocks(), b) && in_chain(d0, g.entry(), g.blocks(), b)),
    ensures
        g.wf(d1),
        spec_read(g, d1, p, len) == spec_read(g, d0, p, len),
{
    lemma_other_file_kept(d0, d1, f0.entry(), f0.blocks(), g);
}

/// A file none of whose blocks is among the first `n` of the chain at `e`
/// survives a change that kept every other block in use.
pub proof fn lemma_other_file_kept(d0: Seq<u8>, d1: Seq<u8>, e: nat, n: nat, g: RawFile)
    requires
        g.wf(d0),
        fs_wf(d1),
        others_kept(d0, d1, e, n),
        forall|b: nat| !(in_chain(d0, e, n, b) && in_chain(d0, g.entry(), g.blocks(), b)),
    ensures
        g.wf(d1),
        forall|k: nat| k < g.blocks() ==> #[trigger] chain_block(d1, g.entry(), k) == chain_block(d0, g.entry(), k),
        forall|p: nat| p < g.blocks() * 1024 ==> #[trigger] d1[phys(d1, g.entry(), p) as int] == d0[phys(d0, g.entry(), p) as int],
        forall|p: nat, len: nat| spec_read(g, d1, p, len) == spec_read(g, d0, p, len),
{
    let ge = g.entry();
    let gn = g.blocks();
    crate::bitmap::lemma_chain_entries(d0, ge, gn);
    assert forall|k: nat| k < gn implies #[trigger] fat(d1, chain_block(d0, ge, k)) == fat(d0, chain_block(d0, ge, k)) by {
        let b = chain_block(d0, ge, k);
        assert(in_chain(d0, ge, gn, b));
        assert(!in_chain(d0, e, n, b));
        assert(!is_free(d0, b));
        assert(is_data_block(d0, b));
    }
    crate::bitmap::lemma_chain_kept(d0, d1, ge, gn);
    assert forall|p: nat| p < gn * 1024 implies #[trigger] d1[phys(d1, ge, p) as int] == d0[phys(d0, ge, p) as int] by {
        assert(p / 1024 < gn) by (nonlinear_arith)
            requires p < gn * 1024;
        let b = chain_block(d0, ge, p / 1024);
        assert(chain_block(d1, ge, p / 1024) == b);
        lemma_phys_in_block(d0, ge, p);
        lemma_phys_data(d0, ge, gn, p);
        assert(in_chain(d0, ge, gn, b));
        assert(!is_free(d0, b));
        assert(!in_chain(d0, e, n, b));
        let a = phys(d0, ge, p) as int;
        assert(d1[a] == d0[a]);
    }
    assert forall|p: nat, len: nat| spec_read(g, d1, p, len) == spec_read(g, d0, p, len) by {
        if p + ZFILE_SIZE + len <= g.metadata.file_len {
            assert(file_range(d1, ge, (p + ZFILE_SIZE) as nat, len) =~= file_range(d0, ge, (p + ZFILE_SIZE) as nat, len)) by {
                assert forall|i: int| 0 <= i < len implies #[trigger] file_range(d1, ge, (p + ZFILE_SIZE) as nat, len)[i]
                    == file_range(d0, ge, (p + ZFILE_SIZE) as nat, len)[i] by {
                    let q = (p + ZFILE_SIZE + i) as nat;
                    assert(q < gn * 1024) by (nonlinear_arith)
                        requires q < g.metadata.file_len, g.metadata.file_len <= g.metadata.max_len,
                            gn == g.metadata.max_len / 1024, g.metadata.max_len % 1024 == 0;
                    assert(d1[phys(d1, ge, q) as int] == d0[phys(d0, ge, q) as int]);
                }
            }
        }
    }
}


/// Bytes of a file that a write did not reach keep their values.
pub proof fn lemma_range_kept(d0: Seq<u8>, d1: Seq<u8>, e: nat, flen: nat, off: nat, size: nat, p: nat, len: nat)
    requires
        forall|q: nat| q < flen && !(off <= q < off + size) ==> #[trigger] d1[phys(d1, e, q) as int] == d0[phys(d0, e, q) as int],
        p + len <= flen,
        p + len <= off || off + size <= p,
    ensures
        file_range(d1, e, p, len) == file_range(d0, e, p, len),
{
    assert forall|i: int| 0 <= i < len implies #[trigger] file_range(d1, e, p, len)[i] == file_range(d0, e, p, len)[i] by {
        let q = (p + i) as nat;
        assert(d1[phys(d1, e, q) as int] == d0[phys(d0, e, q) as int]);
    }
    assert(file_range(d1, e, p, len) =~= file_range(d0, e, p, len));
}

/// Bytes of a file inside a write read back as the written bytes.
pub proof fn lemma_range_written(d1: Seq<u8>, e: nat, off: nat, buf: Seq<u8>, size: nat, p: nat, len: nat)
    requires
        file_range(d1, e, off, size) == buf.subrange(0, size as int),
        size <= buf.len(),
        off <= p,
        p + len <= off + size,
    ensures
        file_range(d1, e, p, len) == buf.subrange(p - off, p - off + len),
{
    assert forall|i: int| 0 <= i < len implies #[trigger] file_range(d1, e, p, len)[i] == buf.subrange(p - off, p - off + len)[i] by {
        let j: int = p - off + i;
        assert(0 <= j < size);
        assert(file_range(d1, e, off, size)[j] == buf.subrange(0, size as int)[j]);
        assert((off + j) as nat == (p + i) as nat);
        assert(file_range(d1, e, p, len)[i] == d1[phys(d1, e, (p + i) as nat) as int]);
        assert(file_range(d1, e, off, size)[j] == d1[phys(d1, e, (off + j) as nat) as int]);
    }
    assert(file_range(d1, e, p, len) =~= buf.subrange(p - off, p - off + len));
}

/// A write that stays inside a file leaves its description as it was.
pub proof fn lemma_write_in_place(f0: RawFile, d0: Seq<u8>, f1: RawFile, d1: Seq<u8>, off: nat, buf: Seq<u8>, size: nat)
    requires
        f0.wf(d0),
        write_post(f0, d0, f1, d1, off, buf, size),
        off + size <= f0.metadata.file_len,
    ensures
        f1 == f0,
        f1.wf(d1),
{
    assert(f1.metadata == f0.metadata);
    assert(f1.block_servant.entry == f0.block_servant.entry);
    assert(f1.block_servant == f0.block_servant);
}

/// Two writes in a row, each keeping the blocks in use outside one chain
/// that they kept, keep them together.
pub proof fn lemma_others_kept_trans(d0: Seq<u8>, d1: Seq<u8>, d2: Seq<u8>, e: nat, n: nat)
    requires
        fs_wf(d0),
        chain_wf(d0, e, n),
        others_kept(d0, d1, e, n),
        others_kept(d1, d2, e, n),
        forall|k: nat| k < n ==> #[trigger] chain_block(d1, e, k) == chain_block(d0, e, k),
    ensures
        others_kept(d0, d2, e, n),
{
    assert forall|b: nat| in_chain(d1, e, n, b) <==> in_chain(d0, e, n, b) by {
        if in_chain(d1, e, n, b) {
            let k = choose|k: nat| k < n && #[trigger] chain_block(d1, e, k) == b;
            assert(chain_block(d0, e, k) == b);
        }
        if in_chain(d0, e, n, b) {
            let k = choose|k: nat| k < n && #[trigger] chain_block(d0, e, k) == b;
            assert(chain_block(d1, e, k) == b);
        }
    }
    assert forall|b: nat| b < num_blocks(d0) && !is_free(d0, b) && !in_chain(d0, e, n, b) implies #[trigger] fat(d2, b) == fat(d0, b) by {
        assert(fat(d1, b) == fat(d0, b));
        assert(!is_free(d1, b));
    }
    assert forall|a: int| table_end(d0) <= a < num_blocks(d0) * 1024 && !is_free(d0, (a / 1024) as nat) && !in_chain(d0, e, n, (a / 1024) as nat)
        implies #[trigger] d2[a] == d0[a] by {
        let bl = (a / 1024) as nat;
        assert(bl < num_blocks(d0)) by (nonlinear_arith)
            requires bl == a / 1024, a < num_blocks(d0) * 1024, a >= 0;
        assert(fat(d1, bl) == fat(d0, bl));
        assert(!is_free(d1, bl));
        assert(d1[a] == d0[a]);
    }
    assert forall|a: int| 0 <= a < FAT_ENTRY * 1024 implies #[trigger] d2[a] == d0[a] by {
        assert(d1[a] == d0[a]);
    }
}

/// A file whose header was written at its first block opens as itself.
#[verifier::rlimit(40)]
pub proof fn lemma_file_at_written(d: Seq<u8>, f: RawFile)
    requires
        f.wf(d),
        file_range(d, f.entry(), 0, 16) == f.header(),
    ensures
        file_at(d, f.entry()) == Some(f),
{
    let b = f.entry();
    let o = (b * 1024) as int;
    crate::bitmap::lemma_chain_entries(d, b, f.blocks());
    assert(chain_block(d, b, 0) == b);
    assert(!is_free(d, b));
    assert forall|k: int| 0 <= k < 16 implies d[o + k] == #[trigger] f.header()[k] by {
        assert(file_range(d, b, 0, 16)[k] == d[phys(d, b, k as nat) as int]);
        assert(phys(d, b, k as nat) == b * 1024 + k);
    }
    crate::function::lemma_u32_bytes_roundtrip(f.metadata.file_len);
    crate::function::lemma_u32_bytes_roundtrip(f.metadata.max_len);
    crate::function::lemma_u32_bytes_roundtrip(f.block_servant.entry.addr);
    assert(d[o] == f.header()[0] && d[o + 1] == f.header()[1] && d[o + 2] == f.header()[2] && d[o + 3] == f.header()[3]);
    assert(d[o + 4] == f.header()[4] && d[o + 5] == f.header()[5] && d[o + 6] == f.header()[6] && d[o + 7] == f.header()[7]);
    assert(d[o + 8] == f.header()[8] && d[o + 9] == f.header()[9] && d[o + 10] == f.header()[10] && d[o + 11] == f.header()[11]);
    assert(d[o + 12] == f.header()[12]);
    let g = decode_header(d, b).unwrap();
    assert(g.metadata == f.metadata);
    assert(g.block_servant == f.block_servant);
    assert(g.file_type == f.file_type);
    assert(b < num_blocks(d));
}

/// The two kinds of file, by their lower-case names.
#[allow(non_camel_case_types)]
pub enum file_type {
    File,
    Dir,
}

/// A file that can tell its kind.
#[allow(non_camel_case_types)]
pub trait raw_file {
    fn get_file_type(&self) -> Result<file_type, ()>;
}

} // verus!
