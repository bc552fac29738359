use vstd::prelude::*;
use crate::addr::BlockAddr;
use crate::bitmap::{table_fits, BlockBitmap};
use crate::config::{END_NUM, FAT_ENTRY, NON_OCCUPY_NUM};
use crate::dir_create::{child_made, lemma_child_dir_made};
use crate::disk::{chain_wf, fat, fat_entry, fs_wf, is_data_block, is_free, num_blocks, table_end, VirtualDisk};
use crate::file_shell::error::FileSystemOperationError;
use crate::function::{bytes4_to_u32, le_u32, lemma_u32_bytes_roundtrip, spec_u32_to_bytes, u32_to_vec};
use crate::zdir::{dir_at, ZDir};

verus! {

/// The eight little-endian bytes of `n`.
pub open spec fn spec_u64_to_bytes(n: u64) -> Seq<u8> {
    spec_u32_to_bytes((n % 0x1_0000_0000) as u32) + spec_u32_to_bytes((n / 0x1_0000_0000) as u32)
}

/// The 32 bytes a super block is stored as at the start of the disk: its
/// four counts and addresses, its magic number, whether the file system is
/// still to be formatted, and seven zero bytes.
pub open spec fn pack_image(p: SuperPack) -> Seq<u8> {
    spec_u32_to_bytes(p.block_num) + spec_u32_to_bytes(p.reserve_num) + spec_u32_to_bytes(p.bitmap_num)
        + spec_u32_to_bytes(p.root_dir_addr.addr) + spec_u64_to_bytes(p.magic_num)
        + seq![if p.first_init { 1u8 } else { 0u8 }] + Seq::new(7, |i: int| 0u8)
}

/// The number held by the eight bytes at `o`, read little-endian.
pub open spec fn u64_at(s: Seq<u8>, o: int) -> int {
    le_u32(s[o], s[o + 1], s[o + 2], s[o + 3]) + 0x1_0000_0000 * le_u32(s[o + 4], s[o + 5], s[o + 6], s[o + 7])
}

/// The super block decoded from the first 32 bytes of `s`.
pub open spec fn decode_pack(s: Seq<u8>) -> SuperPack {
    SuperPack {
        block_num: le_u32(s[0], s[1], s[2], s[3]) as u32,
        reserve_num: le_u32(s[4], s[5], s[6], s[7]) as u32,
        bitmap_num: le_u32(s[8], s[9], s[10], s[11]) as u32,
        root_dir_addr: BlockAddr { addr: le_u32(s[12], s[13], s[14], s[15]) as u32 },
        magic_num: u64_at(s, 16) as u64,
        first_init: s[24] != 0,
    }
}

/// A super block read back from its bytes is itself.
pub proof fn law_super_pack_roundtrip(p: SuperPack)
    ensures
        pack_image(p).len() == 32,
        decode_pack(pack_image(p)) == p,
{
    let s = pack_image(p);
    lemma_u32_bytes_roundtrip(p.block_num);
    lemma_u32_bytes_roundtrip(p.reserve_num);
    lemma_u32_bytes_roundtrip(p.bitmap_num);
    lemma_u32_bytes_roundtrip(p.root_dir_addr.addr);
    let lo = (p.magic_num % 0x1_0000_0000) as u32;
    let hi = (p.magic_num / 0x1_0000_0000) as u32;
    lemma_u32_bytes_roundtrip(lo);
    lemma_u32_bytes_roundtrip(hi);
    assert(u64_at(s, 16) == lo + 0x1_0000_0000 * hi);
    assert(decode_pack(s).root_dir_addr == p.root_dir_addr);
}

/// The super block as stored on disk.
#[derive(Clone, Copy, Debug)]
pub struct SuperPack {
    pub block_num: u32,
    pub reserve_num: u32,
    pub bitmap_num: u32,
    pub root_dir_addr: BlockAddr,
    pub magic_num: u64,
    pub first_init: bool,
}

impl SuperPack {
    /// Stores the super block in the first 32 bytes of the disk.
    pub fn dump(self, disk: &mut VirtualDisk) -> (r: Result<(), FileSystemOperationError>)
        requires
            old(disk)@.len() >= 32,
        ensures
            r is Ok,
            final(disk)@.len() == old(disk)@.len(),
            final(disk)@.subrange(0, 32) == pack_image(self),
            forall|i: int| 32 <= i < old(disk)@.len() ==> #[trigger] final(disk)@[i] == old(disk)@[i],
    {
        let mut buf: Vec<u8> = Vec::new();
        let a = u32_to_vec(self.block_num);
        let b = u32_to_vec(self.reserve_num);
        let c = u32_to_vec(self.bitmap_num);
        let d = u32_to_vec(self.root_dir_addr.addr);
        let lo = u32_to_vec((self.magic_num % 0x1_0000_0000) as u32);
        let hi = u32_to_vec((self.magic_num / 0x1_0000_0000) as u32);
        buf.append(&mut a.clone());
        buf.append(&mut b.clone());
        buf.append(&mut c.clone());
        buf.append(&mut d.clone());
        buf.append(&mut lo.clone());
        buf.append(&mut hi.clone());
        buf.push(if self.first_init { 1u8 } else { 0u8 });
        let mut i: usize = 0;
        while i < 7
            invariant
                buf@.len() == 25 + i,
                i <= 7,
                buf@.subrange(0, 25) == pack_image(self).subrange(0, 25),
                forall|j: int| 25 <= j < buf@.len() ==> buf@[j] == 0u8,
            decreases 7 - i,
        {
            buf.push(0u8);
            i = i + 1;
            assert(buf@.subrange(0, 25) =~= pack_image(self).subrange(0, 25));
        }
        proof {
            lemma_u32_bytes_roundtrip(self.block_num);
            lemma_u32_bytes_roundtrip(self.reserve_num);
            lemma_u32_bytes_roundtrip(self.bitmap_num);
            lemma_u32_bytes_roundtrip(self.root_dir_addr.addr);
            lemma_u32_bytes_roundtrip((self.magic_num % 0x1_0000_0000) as u32);
            lemma_u32_bytes_roundtrip((self.magic_num / 0x1_0000_0000) as u32);
            let head = spec_u32_to_bytes(self.block_num) + spec_u32_to_bytes(self.reserve_num) + spec_u32_to_bytes(self.bitmap_num)
                + spec_u32_to_bytes(self.root_dir_addr.addr) + spec_u64_to_bytes(self.magic_num)
                + seq![if self.first_init { 1u8 } else { 0u8 }];
            assert(head.len() == 25);
            assert(pack_image(self) == head + Seq::new(7, |i: int| 0u8));
            assert forall|j: int| 25 <= j < 32 implies #[trigger] pack_image(self)[j] == 0u8 by {
                assert((head + Seq::new(7, |i: int| 0u8))[j] == Seq::new(7, |i: int| 0u8)[j - 25]);
            }
            assert forall|j: int| 0 <= j < 25 implies #[trigger] buf@[j] == pack_image(self)[j] by {
                assert(buf@.subrange(0, 25)[j] == pack_image(self).subrange(0, 25)[j]);
            }
        }
        assert(buf@ =~= pack_image(self));
        let sl = buf.as_slice();
        assert(sl@ == buf@);
        disk.write_bytes(0, sl);
        assert forall|i: int| 0 <= i < 32 implies #[trigger] disk@.subrange(0, 32)[i] == pack_image(self)[i] by {
            assert(disk@[0 + i] == sl@[i]);
        }
        assert(disk@.subrange(0, 32) =~= pack_image(self));
        Ok(())
    }

    /// The super block stored in the first 32 bytes of the disk;
    /// `Err(DiskError)` when the disk is shorter.
    pub fn load(disk: &VirtualDisk) -> (r: Result<SuperPack, FileSystemOperationError>)
        ensures
            disk@.len() >= 32 ==> r == Ok::<SuperPack, FileSystemOperationError>(decode_pack(disk@)),
            disk@.len() < 32 ==> (r matches Err(e) && e is DiskError),
    {
        if disk.len() < 32 {
            return Err(FileSystemOperationError::DiskError("the disk holds no super block".to_owned()));
        }
        let s = disk.as_bytes();
        let lo = bytes4_to_u32(s[16], s[17], s[18], s[19]);
        let hi = bytes4_to_u32(s[20], s[21], s[22], s[23]);
        let p = SuperPack {
            block_num: bytes4_to_u32(s[0], s[1], s[2], s[3]),
            reserve_num: bytes4_to_u32(s[4], s[5], s[6], s[7]),
            bitmap_num: bytes4_to_u32(s[8], s[9], s[10], s[11]),
            root_dir_addr: BlockAddr::new(bytes4_to_u32(s[12], s[13], s[14], s[15])),
            magic_num: lo as u64 + hi as u64 * 0x1_0000_0000,
            first_init: s[24] != 0,
        };
        assert(p.root_dir_addr == decode_pack(disk@).root_dir_addr);
        Ok(p)
    }

    /// Whether the bytes hold a super block: the magic number matches.
    pub fn is_legal(&self) -> (b: bool)
        ensures
            b == (self.magic_num == SuperBlock::MAGIC_FLAG),
    {
        self.magic_num == SuperBlock::MAGIC_FLAG
    }
}

/// What the file system knows of its disk: how many blocks it has, how many
/// the super block and the allocation table take, where the root directory
/// starts, and whether the disk is still to be formatted.
#[derive(Debug)]
pub struct SuperBlock {
    pub block_num: u32,
    pub reserve_num: u32,
    pub bitmap_num: u32,
    pub root_dir_addr: BlockAddr,
    pub magic_num: u64,
    pub first_init: bool,
    pub user_manager_entry: u32,
}

impl From<SuperPack> for SuperBlock {
    fn from(value: SuperPack) -> (r: SuperBlock) {
        SuperBlock {
            block_num: value.block_num,
            reserve_num: value.reserve_num,
            bitmap_num: value.bitmap_num,
            root_dir_addr: value.root_dir_addr,
            magic_num: value.magic_num,
            first_init: value.first_init,
            user_manager_entry: 0,
        }
    }
}

impl vstd::std_specs::convert::FromSpecImpl<SuperPack> for SuperBlock {
    open spec fn obeys_from_spec() -> bool {
        true
    }

    open spec fn from_spec(value: SuperPack) -> SuperBlock {
        SuperBlock {
            block_num: value.block_num,
            reserve_num: value.reserve_num,
            bitmap_num: value.bitmap_num,
            root_dir_addr: value.root_dir_addr,
            magic_num: value.magic_num,
            first_init: value.first_init,
            user_manager_entry: 0,
        }
    }
}

/// `sb` has the layout a disk of `nb` blocks gets: the super block in
/// block 0, the allocation table from block 1 on, and the root directory in
/// the first block after the table's blocks.
pub open spec fn layout_ok(sb: SuperBlock, nb: nat) -> bool {
    &&& sb.block_num == nb
    &&& sb.reserve_num == 1
    &&& sb.bitmap_num == nb / 256
    &&& sb.root_dir_addr.addr == nb / 256 + 2
}

/// The super block a stored one stands for.
pub open spec fn block_of_pack(value: SuperPack) -> SuperBlock {
    SuperBlock {
        block_num: value.block_num,
        reserve_num: value.reserve_num,
        bitmap_num: value.bitmap_num,
        root_dir_addr: value.root_dir_addr,
        magic_num: value.magic_num,
        first_init: value.first_init,
        user_manager_entry: 0,
    }
}

/// The stored super block fits a disk of `nb` blocks.
pub open spec fn pack_layout_ok(p: SuperPack, nb: nat) -> bool {
    &&& p.block_num == nb
    &&& p.reserve_num == 1
    &&& p.bitmap_num == nb / 256
    &&& p.root_dir_addr.addr == nb / 256 + 2
}

/// The disk can be mounted as far as its size and super block go: it holds
/// the bytes of a super block, fits 32-bit offsets, has at least three
/// blocks, and the super block it holds, if any, fits it.
pub open spec fn mount_fits(d: Seq<u8>) -> bool {
    &&& d.len() >= 32
    &&& d.len() <= u32::MAX
    &&& num_blocks(d) >= 3
    &&& decode_pack(d).magic_num == SuperBlock::MAGIC_FLAG ==> pack_layout_ok(decode_pack(d), num_blocks(d))
}

/// Blocks before the root directory's are reserved: they point to
/// themselves; the root's ends its chain; all others are free.
pub open spec fn formatted_table(d: Seq<u8>, root: nat) -> bool {
    forall|b: nat| b < num_blocks(d) ==> #[trigger] fat(d, b) == if b < root { b as u32 } else if b == root { END_NUM } else { NON_OCCUPY_NUM }
}

/// Facts on the layout of a disk of `nb` blocks.
proof fn lemma_layout(nb: nat)
    requires
        nb >= 3,
    ensures
        nb / 256 + 2 < nb,
        1024 + 4 * nb <= (nb / 256 + 2) * 1024,
        nb / 256 + 2 <= u32::MAX ==> true,
{
    assert(nb / 256 + 2 < nb) by (nonlinear_arith)
        requires nb >= 3;
    assert(1024 + 4 * nb <= (nb / 256 + 2) * 1024) by (nonlinear_arith)
        requires nb >= 3;
}

/// A formatted table keeps the file system well formed.
proof fn lemma_formatted_wf(d: Seq<u8>, root: nat)
    requires
        d.len() <= u32::MAX,
        num_blocks(d) >= 3,
        root == num_blocks(d) / 256 + 2,
        formatted_table(d, root),
    ensures
        fs_wf(d),
        is_data_block(d, root),
        fat(d, root) == END_NUM,
{
    let nb = num_blocks(d);
    lemma_layout(nb);
    assert(nb * 1024 <= d.len()) by (nonlinear_arith)
        requires nb == d.len() / 1024;
    assert forall|b: nat| b < num_blocks(d) && #[trigger] is_free(d, b) implies is_data_block(d, b) by {
        assert(b > root);
        assert(b * 1024 >= root * 1024) by (nonlinear_arith)
            requires b > root;
    }
    assert(root * 1024 >= table_end(d));
}

/// Whether the disk holds a well-formed file system: it fits 32-bit
/// offsets, has at least two blocks and room for its allocation table, and
/// only blocks after the table are free.
pub fn check_fs(disk: &VirtualDisk) -> (b: bool)
    ensures
        b == fs_wf(disk@),
{
    if disk.len() > u32::MAX as usize {
        return false;
    }
    let nb = (disk.len() / 1024) as u32;
    if nb < 2 {
        return false;
    }
    let end: u64 = 1024 + 4 * nb as u64;
    if end > disk.len() as u64 {
        return false;
    }
    let bitmap = BlockBitmap::new(BlockAddr::new(FAT_ENTRY), nb / 256, 0);
    let mut b: u32 = 0;
    while b < nb
        invariant
            nb == num_blocks(disk@),
            end == table_end(disk@),
            disk@.len() <= u32::MAX,
            nb >= 2,
            end <= disk@.len(),
            table_fits(disk@, FAT_ENTRY as nat),
            bitmap.entry() == FAT_ENTRY,
            b <= nb,
            forall|c: nat| c < b && #[trigger] is_free(disk@, c) ==> is_data_block(disk@, c),
        decreases nb - b,
    {
        if bitmap.check_block_empty(disk, BlockAddr::new(b)) {
            if (b as u64) * 1024 < end {
                assert(is_free(disk@, b as nat));
                return false;
            }
        }
        b = b + 1;
    }
    true
}

impl SuperBlock {
    /// The magic number of a super block.
    pub const MAGIC_FLAG: u64 = 1130423011300520113;

    /// The size of a stored super block.
    pub const SUPER_BLOCK_SIZE: u32 = 32;

    /// The super block of a disk still to be formatted; `Err(DiskError)`
    /// when the disk is too large for 32-bit offsets.
    pub fn new(disk: &VirtualDisk) -> (r: Result<SuperBlock, FileSystemOperationError>)
        ensures
            match r {
                Ok(sb) => {
                    &&& disk@.len() <= u32::MAX
                    &&& layout_ok(sb, num_blocks(disk@))
                    &&& sb.first_init
                    &&& sb.magic_num == Self::MAGIC_FLAG
                    &&& sb.user_manager_entry == 0
                },
                Err(e) => disk@.len() > u32::MAX && e is DiskError,
            },
    {
        if disk.len() > u32::MAX as usize {
            return Err(FileSystemOperationError::DiskError("the disk is too large".to_owned()));
        }
        let disk_len = disk.len() as u32;
        let block_num = disk_len / 1024;
        let reserve_num: u32 = 1;
        let bitmap_num = block_num / (1024 / 4);
        let root_dir_addr = BlockAddr::new(reserve_num + bitmap_num + 1);
        Ok(SuperBlock {
            block_num,
            reserve_num,
            bitmap_num,
            root_dir_addr,
            magic_num: Self::MAGIC_FLAG,
            first_init: true,
            user_manager_entry: 0,
        })
    }

    /// The super block as stored.
    pub fn into_super_pack(&self) -> (p: SuperPack)
        ensures
            p.block_num == self.block_num,
            p.reserve_num == self.reserve_num,
            p.bitmap_num == self.bitmap_num,
            p.root_dir_addr == self.root_dir_addr,
            p.magic_num == self.magic_num,
            p.first_init == self.first_init,
    {
        SuperPack {
            block_num: self.block_num,
            reserve_num: self.reserve_num,
            bitmap_num: self.bitmap_num,
            root_dir_addr: self.root_dir_addr,
            magic_num: self.magic_num,
            first_init: self.first_init,
        }
    }

    /// Stores the super block at the start of the disk.
    pub fn write_super_block(&self, disk: &mut VirtualDisk) -> (r: Result<(), FileSystemOperationError>)
        requires
            old(disk)@.len() >= 32,
        ensures
            r is Ok,
            final(disk)@.len() == old(disk)@.len(),
            final(disk)@.subrange(0, 32) == pack_image(SuperPack {
                block_num: self.block_num,
                reserve_num: self.reserve_num,
                bitmap_num: self.bitmap_num,
                root_dir_addr: self.root_dir_addr,
                magic_num: self.magic_num,
                first_init: self.first_init,
            }),
            forall|i: int| 32 <= i < old(disk)@.len() ==> #[trigger] final(disk)@[i] == old(disk)@[i],
    {
        let pk = self.into_super_pack();
        pk.dump(disk)
    }

    /// Marks the root directory's block as the end of a chain when it is
    /// free.
    pub fn init(&mut self, disk: &mut VirtualDisk) -> (r: Result<(), FileSystemOperationError>)
        requires
            table_fits(old(disk)@, FAT_ENTRY as nat),
            old(self).root_dir_addr.addr < num_blocks(old(disk)@),
        ensures
            r is Ok,
            *final(self) == *old(self),
            final(disk)@.len() == old(disk)@.len(),
            fat(final(disk)@, old(self).root_dir_addr.addr as nat)
                == if is_free(old(disk)@, old(self).root_dir_addr.addr as nat) { END_NUM } else { fat(old(disk)@, old(self).root_dir_addr.addr as nat) },
            forall|b: nat| b < num_blocks(old(disk)@) && b != old(self).root_dir_addr.addr ==> #[trigger] fat(final(disk)@, b) == fat(old(disk)@, b),
            forall|i: int| 0 <= i < old(disk)@.len() && (i < FAT_ENTRY * 1024 || i >= table_end(old(disk)@)) ==> #[trigger] final(disk)@[i] == old(disk)@[i],
            !is_free(old(disk)@, old(self).root_dir_addr.addr as nat) ==> final(disk)@ == old(disk)@,
    {
        let bitmap = BlockBitmap::new(BlockAddr::new(FAT_ENTRY), self.bitmap_num, self.root_dir_addr.addr);
        if bitmap.check_block_empty(disk, self.root_dir_addr) {
            let ghost d0 = disk@;
            bitmap.set_value(disk, self.root_dir_addr, BlockAddr::new(END_NUM));
            proof {
                crate::disk::lemma_fat_offset(FAT_ENTRY as nat, self.root_dir_addr.addr as nat);
                assert forall|i: int| 0 <= i < d0.len() && (i < FAT_ENTRY * 1024 || i >= table_end(d0)) implies #[trigger] disk@[i] == d0[i] by {
                    let o = crate::disk::fat_offset(FAT_ENTRY as nat, self.root_dir_addr.addr as nat);
                    assert(!(o <= i < o + 4));
                }
            }
        }
        Ok(())
    }

    /// Formats the disk when it is still to be formatted: marks it as
    /// formatted in the super block, formats the allocation table with the
    /// blocks before the root's reserved, and makes the root directory.
    pub fn init_rootdir(&mut self, disk: &mut VirtualDisk) -> (r: Result<(), FileSystemOperationError>)
        requires
            old(disk)@.len() <= u32::MAX,
            num_blocks(old(disk)@) >= 3,
            layout_ok(*old(self), num_blocks(old(disk)@)),
        ensures
            r is Ok,
            final(self).block_num == old(self).block_num,
            final(self).reserve_num == old(self).reserve_num,
            final(self).bitmap_num == old(self).bitmap_num,
            final(self).root_dir_addr == old(self).root_dir_addr,
            final(self).magic_num == old(self).magic_num,
            !final(self).first_init,
            final(disk)@.len() == old(disk)@.len(),
            old(self).first_init ==> {
                &&& fs_wf(final(disk)@)
                &&& formatted_table(final(disk)@, old(self).root_dir_addr.addr as nat)
                &&& child_made(final(disk)@, old(self).root_dir_addr.addr as nat, crate::raw_file::FileType::Dir)
                &&& final(disk)@.subrange(0, 32) == pack_image(SuperPack {
                    block_num: old(self).block_num,
                    reserve_num: old(self).reserve_num,
                    bitmap_num: old(self).bitmap_num,
                    root_dir_addr: old(self).root_dir_addr,
                    magic_num: old(self).magic_num,
                    first_init: false,
                })
            },
            !old(self).first_init ==> final(disk)@ == old(disk)@ && *final(self) == *old(self),
    {
        if !self.first_init {
            return Ok(());
        }
        let ghost d0 = disk@;
        let ghost nb = num_blocks(disk@);
        let ghost root = self.root_dir_addr.addr as nat;
        self.first_init = false;
        let _ = self.write_super_block(disk);
        let ghost d1 = disk@;
        let bitmap = BlockBitmap::new(BlockAddr::new(FAT_ENTRY), self.bitmap_num, self.root_dir_addr.addr);
        proof {
            assert(num_blocks(d1) == nb);
            lemma_layout(nb);
        }
        bitmap.init(disk);
        let ghost d2 = disk@;
        bitmap.set_value(disk, self.root_dir_addr, BlockAddr::new(END_NUM));
        let ghost d3 = disk@;
        proof {
            crate::disk::lemma_fat_offset(FAT_ENTRY as nat, root);
            lemma_formatted_wf(d3, root);
            assert(disk@.subrange(0, 32) =~= d1.subrange(0, 32)) by {
                assert forall|i: int| 0 <= i < 32 implies #[trigger] disk@[i] == d1[i] by {
                    assert(d2[i] == d1[i]);
                }
            }
            assert(chain_wf(d3, root, 1)) by {
                assert(crate::disk::chain_block(d3, root, 0) == root);
            }
        }
        let mut zd = ZDir::new_root(disk, self.root_dir_addr);
        let ghost d4 = disk@;
        let ghost s = zd.servant;
        let _ = zd.close(disk);
        proof {
            crate::disk::lemma_fs_wf_table_same(d3, d4);
            crate::disk::lemma_fs_wf_table_same(d4, disk@);
            assert(disk@.subrange(0, 32) =~= d1.subrange(0, 32)) by {
                assert forall|i: int| 0 <= i < 32 implies #[trigger] disk@[i] == d1[i] by {
                    assert(d4[i] == d3[i]);
                }
            }
            assert(s.raw.block_servant == crate::block_servant::BlockServant { entry: BlockAddr { addr: root as u32 } });
            assert(s.raw == crate::dir_create::child_file(root, crate::raw_file::FileType::Dir));
            lemma_child_dir_made(disk@, s);
        }
        Ok(())
    }

    /// The super block the disk holds, or a new one when it holds none;
    /// `Err` when the disk is too small or too large, or the super block does
    /// not fit it.
    fn prepare(disk: &VirtualDisk) -> (r: Result<SuperBlock, FileSystemOperationError>)
        ensures
            r matches Ok(sb) ==> {
                &&& disk@.len() <= u32::MAX
                &&& num_blocks(disk@) >= 3
                &&& layout_ok(sb, num_blocks(disk@))
                &&& decode_pack(disk@).magic_num != Self::MAGIC_FLAG ==> sb.first_init
            },
            (disk@.len() >= 32 && disk@.len() <= u32::MAX && num_blocks(disk@) >= 3
                && decode_pack(disk@).magic_num != Self::MAGIC_FLAG) ==> r is Ok,
            r is Ok <==> mount_fits(disk@),
            r matches Err(e) ==> e is DiskError || e is InitError,
            r is Ok && decode_pack(disk@).magic_num == Self::MAGIC_FLAG ==> r->Ok_0 == block_of_pack(decode_pack(disk@)),
    {
        let temp = SuperPack::load(disk)?;
        let mut sb = if temp.is_legal() {
            SuperBlock::from(temp)
        } else {
            SuperBlock::new(disk)?
        };
        if disk.len() > u32::MAX as usize {
            return Err(FileSystemOperationError::DiskError("the disk is too large".to_owned()));
        }
        let nb = (disk.len() / 1024) as u32;
        if nb < 3 {
            return Err(FileSystemOperationError::DiskError("the disk is too small".to_owned()));
        }
        if sb.block_num != nb || sb.reserve_num != 1 || sb.bitmap_num != nb / 256 || sb.root_dir_addr.addr != nb / 256 + 2 {
            return Err(FileSystemOperationError::InitError("the super block does not fit the disk".to_owned()));
        }
        Ok(sb)
    }

    /// Mounts the file system of the disk: reads its super block, or makes
    /// one when there is none, formats the disk when it is still to be
    /// formatted, and checks that it holds a well-formed file system with
    /// its root directory. `Err(InitError)` when the super block does not fit
    /// the disk, `Err(DiskError)` when the disk is too small or too large or
    /// its file system or root directory is not well formed.
    #[verifier::rlimit(50)]
    pub fn init_main(disk: &mut VirtualDisk) -> (r: Result<SuperBlock, FileSystemOperationError>)
        ensures
            !mount_fits(old(disk)@) ==> r is Err && final(disk)@ == old(disk)@,
            r matches Err(e) ==> e is DiskError || e is InitError,
            match r {
                Ok(sb) => {
                    &&& fs_wf(final(disk)@)
                    &&& dir_at(final(disk)@, sb.root_dir_addr.addr as nat) is Some
                    &&& layout_ok(sb, num_blocks(final(disk)@))
                    &&& !sb.first_init
                },
                Err(_) => true,
            },
            (old(disk)@.len() >= 32 && old(disk)@.len() <= u32::MAX && num_blocks(old(disk)@) >= 3
                && decode_pack(old(disk)@).magic_num != Self::MAGIC_FLAG) ==> ({
                let root = (num_blocks(old(disk)@) / 256 + 2) as nat;
                &&& r is Ok
                &&& formatted_table(final(disk)@, root)
                &&& child_made(final(disk)@, root, crate::raw_file::FileType::Dir)
            }),
            mount_fits(old(disk)@) && decode_pack(old(disk)@).magic_num == Self::MAGIC_FLAG && decode_pack(old(disk)@).first_init
                ==> ({
                let root = (num_blocks(old(disk)@) / 256 + 2) as nat;
                &&& r is Ok
                &&& formatted_table(final(disk)@, root)
                &&& child_made(final(disk)@, root, crate::raw_file::FileType::Dir)
            }),
            mount_fits(old(disk)@) && decode_pack(old(disk)@).magic_num == Self::MAGIC_FLAG && !decode_pack(old(disk)@).first_init
                && fs_wf(old(disk)@) && dir_at(old(disk)@, decode_pack(old(disk)@).root_dir_addr.addr as nat) is Some
                ==> r == Ok::<SuperBlock, FileSystemOperationError>(block_of_pack(decode_pack(old(disk)@)))
                    && final(disk)@ == old(disk)@,
    {
        let mut sb = Self::prepare(disk)?;
        proof {
            let nb = num_blocks(disk@);
            lemma_layout(nb);
            assert(table_fits(disk@, FAT_ENTRY as nat)) by {
                assert(nb * 1024 <= disk@.len()) by (nonlinear_arith)
                    requires nb == disk@.len() / 1024;
            }
        }
        Self::mount(sb, disk)
    }

    /// Marks the root's block, formats the disk when `sb` says it is still
    /// to be formatted, and checks the result.
    #[verifier::rlimit(80)]
    fn mount(sb: SuperBlock, disk: &mut VirtualDisk) -> (r: Result<SuperBlock, FileSystemOperationError>)
        requires
            old(disk)@.len() <= u32::MAX,
            num_blocks(old(disk)@) >= 3,
            layout_ok(sb, num_blocks(old(disk)@)),
            table_fits(old(disk)@, FAT_ENTRY as nat),
        ensures
            r matches Err(e) ==> e is DiskError,
            match r {
                Ok(s) => {
                    &&& fs_wf(final(disk)@)
                    &&& dir_at(final(disk)@, s.root_dir_addr.addr as nat) is Some
                    &&& layout_ok(s, num_blocks(final(disk)@))
                    &&& !s.first_init
                },
                Err(_) => true,
            },
            sb.first_init ==> ({
                let root = sb.root_dir_addr.addr as nat;
                &&& r is Ok
                &&& formatted_table(final(disk)@, root)
                &&& child_made(final(disk)@, root, crate::raw_file::FileType::Dir)
            }),
            !sb.first_init && fs_wf(old(disk)@) && dir_at(old(disk)@, sb.root_dir_addr.addr as nat) is Some
                ==> r == Ok::<SuperBlock, FileSystemOperationError>(sb) && final(disk)@ == old(disk)@,
    {
        let mut sb = sb;
        proof {
            lemma_layout(num_blocks(disk@));
        }
        if !sb.first_init {
            proof { crate::zdir::lemma_dir_at(disk@, sb.root_dir_addr.addr as nat); }
            let ghost d0 = disk@;
            let _ = sb.init(disk);
            assert(dir_at(d0, sb.root_dir_addr.addr as nat) is Some ==> disk@ == d0);
            let _ = sb.init_rootdir(disk);
            return Self::checked(sb, disk);
        }
        let _ = sb.init(disk);
        let _ = sb.init_rootdir(disk);
        Self::checked(sb, disk)
    }

    /// `sb`, when the disk holds a well-formed file system with its root
    /// directory at `sb`'s root; `Err(DiskError)` otherwise.
    fn checked(sb: SuperBlock, disk: &VirtualDisk) -> (r: Result<SuperBlock, FileSystemOperationError>)
        ensures
            match r {
                Ok(s) => s == sb && fs_wf(disk@) && dir_at(disk@, sb.root_dir_addr.addr as nat) is Some,
                Err(_) => !(fs_wf(disk@) && dir_at(disk@, sb.root_dir_addr.addr as nat) is Some),
            },
            r matches Err(e) ==> e is DiskError,
    {
        if !check_fs(disk) {
            return Err(FileSystemOperationError::DiskError("the file system is not well formed".to_owned()));
        }
        match ZDir::open(disk, sb.root_dir_addr) {
            Ok(_) => Ok(sb),
            Err(()) => Err(FileSystemOperationError::DiskError("the root directory does not open".to_owned())),
        }
    }
}

} // verus!
