use vstd::prelude::*;
use crate::addr::BlockAddr;
use crate::allocation::{fresh_file_post, lemma_fresh_then_kept, take_free_block};
use crate::block_servant::BlockServant;
use crate::config::BLOCK_SIZE;
use crate::dir_edit::{formatted, lemma_in_place_frame, lemma_item_inside, zeros};
use crate::dir_item::item_offset;
use crate::block_servant::MAX_VADDR;
use crate::dir_create::new_item_spec;
use crate::dir_delete::del_item_spec;
use crate::dir_item::{MAX_NAME_LEN, SHORT_FLAG};
use crate::dir_servant::{dir_item_bytes, dir_items, first_named, item_entry, ls_l_head, ls_l_text, ls_text, status_text, DirServant};
use crate::text::push_char;
use vstd::string::StringSliceAdditionalSpecFns;
use crate::disk::{chain_block, chain_wf, file_range, free_count, fs_wf, num_blocks, others_kept, phys, table_end, VirtualDisk};
use crate::file_shell::error::FileSystemOperationError;
use crate::function::{bytes4_to_u32, le_u32, lemma_u32_bytes_roundtrip, spec_u32_to_bytes, u32_to_vec};
use crate::metadata::Metadata;
use crate::raw_file::{
    file_at, header_bytes, lemma_range_kept, lemma_range_written, lemma_write_in_place, write_post, FileType, RawFile,
    ZFILE_SIZE,
};

verus! {

/// The 8 bytes of a directory's pack: its number of entries, then its
/// first block, little-endian.
pub open spec fn pack_bytes(num: u32, entry: u32) -> Seq<u8> {
    spec_u32_to_bytes(num) + spec_u32_to_bytes(entry)
}

/// The directory stored at block `b`: the file there opens as a directory,
/// its pack names a file that opens, and that file holds exactly the
/// entries the pack counts.
#[verifier::opaque]
pub open spec fn dir_at(d: Seq<u8>, b: nat) -> Option<DirServant> {
    match file_at(d, b) {
        Some(f) => {
            if f.file_type == FileType::Dir && f.metadata.file_len >= 24 {
                let p = file_range(d, f.entry(), 16, 8);
                let num = le_u32(p[0], p[1], p[2], p[3]) as u32;
                let entry = le_u32(p[4], p[5], p[6], p[7]) as nat;
                match file_at(d, entry) {
                    Some(g) => if (DirServant { raw: g, num }).wf(d) {
                        Some(DirServant { raw: g, num })
                    } else {
                        None
                    },
                    None => None,
                }
            } else {
                None
            }
        },
        None => None,
    }
}

/// Going from `d0` to `d1` kept the chain of `f`, the allocation table and
/// every block in use outside `f`.
pub open spec fn file_frame(f: RawFile, d0: Seq<u8>, d1: Seq<u8>) -> bool {
    &&& d1.len() == d0.len()
    &&& others_kept(d0, d1, f.entry(), f.blocks())
    &&& forall|a: int| 0 <= a < table_end(d0) ==> #[trigger] d1[a] == d0[a]
    &&& forall|k: nat| k < f.blocks() ==> #[trigger] chain_block(d1, f.entry(), k) == chain_block(d0, f.entry(), k)
}

/// `s` on `d1` is the empty directory just made from the free block `c` of
/// `d0`: 31 zero entries, its pack, and its header as first written.
pub open spec fn new_dir_post(d0: Seq<u8>, d1: Seq<u8>, s: DirServant) -> bool {
    let c = s.raw.entry();
    &&& fresh_file_post(d0, d1, c)
    &&& s.raw.metadata == Metadata { file_len: 1024, max_len: 1024 }
    &&& s.raw.file_type == FileType::Dir
    &&& s.num == 31
    &&& s.wf(d1)
    &&& s.items(d1) == Seq::new(31, |i: int| zeros(32))
    &&& file_range(d1, c, 16, 8) == pack_bytes(31, s.raw.block_servant.entry.addr)
    &&& file_range(d1, c, 0, 16) == header_bytes(0, BLOCK_SIZE, s.raw.block_servant.entry.addr, FileType::Dir)
}

/// What opening a directory depends on, step by step.
pub proof fn lemma_dir_at(d: Seq<u8>, b: nat)
    ensures
        file_at(d, b) is None ==> dir_at(d, b) is None,
        file_at(d, b) matches Some(f) && (f.file_type != FileType::Dir || f.metadata.file_len < 24) ==> dir_at(d, b) is None,
        file_at(d, b) is Some && file_at(d, b).unwrap().file_type == FileType::Dir
            && file_at(d, b).unwrap().metadata.file_len >= 24 ==> ({
            let p = file_range(d, file_at(d, b).unwrap().entry(), 16, 8);
            let num = le_u32(p[0], p[1], p[2], p[3]) as u32;
            let entry = le_u32(p[4], p[5], p[6], p[7]) as nat;
            dir_at(d, b) == match file_at(d, entry) {
                Some(g) => if (DirServant { raw: g, num }).wf(d) { Some(DirServant { raw: g, num }) } else { None },
                None => None,
            }
        }),
{
    reveal(dir_at);
}

/// Decoding the bytes of a pack gives back its numbers.
pub proof fn law_pack_roundtrip(num: u32, entry: u32)
    ensures
        ({
            let p = pack_bytes(num, entry);
            &&& p.len() == 8
            &&& le_u32(p[0], p[1], p[2], p[3]) == num
            &&& le_u32(p[4], p[5], p[6], p[7]) == entry
        }),
{
    lemma_u32_bytes_roundtrip(num);
    lemma_u32_bytes_roundtrip(entry);
}

/// What writing the pack of a directory did.
proof fn lemma_pack_written(s: DirServant, d0: Seq<u8>, raw1: RawFile, d1: Seq<u8>, p: Seq<u8>)
    requires
        s.wf(d0),
        p.len() == 8,
        write_post(s.raw, d0, raw1, d1, 16, p, 8),
    ensures
        raw1 == s.raw,
        s.wf(d1),
        s.items(d1) == s.items(d0),
        file_range(d1, s.raw.entry(), 16, 8) == p,
        file_range(d1, s.raw.entry(), 0, 16) == file_range(d0, s.raw.entry(), 0, 16),
        file_frame(s.raw, d0, d1),
{
    let e = s.raw.entry();
    let flen = s.raw.metadata.file_len as nat;
    lemma_write_in_place(s.raw, d0, raw1, d1, 16, p, 8);
    lemma_in_place_frame(s.raw, d0, raw1, d1, 16, p, 8);
    assert forall|k: int| 0 <= k < s.num implies #[trigger] s.items(d1)[k] == s.items(d0)[k] by {
        lemma_item_inside(s.num as nat, k as nat);
        lemma_range_kept(d0, d1, e, flen, 16, 8, (ZFILE_SIZE + item_offset(k as nat)) as nat, 32);
    }
    assert(s.items(d1) =~= s.items(d0));
    lemma_range_written(d1, e, 16, p, 8, 16, 8);
    assert(p.subrange(0, 8) =~= p);
    lemma_range_kept(d0, d1, e, flen, 16, 8, 0, 16);
    lemma_range_kept(d0, d1, e, flen, 16, 8, (ZFILE_SIZE + item_offset(s.num as nat)) as nat, 8);
}

/// What writing the header of a directory's file did.
proof fn lemma_header_written(s: DirServant, d0: Seq<u8>, raw1: RawFile, d1: Seq<u8>)
    requires
        s.wf(d0),
        write_post(s.raw, d0, raw1, d1, 0, s.raw.header(), 16),
    ensures
        raw1 == s.raw,
        s.wf(d1),
        s.items(d1) == s.items(d0),
        file_range(d1, s.raw.entry(), 0, 16) == s.raw.header(),
        file_range(d1, s.raw.entry(), 16, 8) == file_range(d0, s.raw.entry(), 16, 8),
        file_frame(s.raw, d0, d1),
{
    let e = s.raw.entry();
    let flen = s.raw.metadata.file_len as nat;
    let h = s.raw.header();
    lemma_write_in_place(s.raw, d0, raw1, d1, 0, h, 16);
    lemma_in_place_frame(s.raw, d0, raw1, d1, 0, h, 16);
    assert forall|k: int| 0 <= k < s.num implies #[trigger] s.items(d1)[k] == s.items(d0)[k] by {
        lemma_item_inside(s.num as nat, k as nat);
        lemma_range_kept(d0, d1, e, flen, 0, 16, (ZFILE_SIZE + item_offset(k as nat)) as nat, 32);
    }
    assert(s.items(d1) =~= s.items(d0));
    lemma_range_written(d1, e, 0, h, 16, 0, 16);
    assert(h.subrange(0, 16) =~= h);
    lemma_range_kept(d0, d1, e, flen, 0, 16, 16, 8);
    lemma_range_kept(d0, d1, e, flen, 0, 16, (ZFILE_SIZE + item_offset(s.num as nat)) as nat, 8);
}

/// Two changes that each kept the frame of `f` keep it together.
proof fn lemma_file_frame_trans(f: RawFile, d0: Seq<u8>, d1: Seq<u8>, d2: Seq<u8>)
    requires
        f.wf(d0),
        file_frame(f, d0, d1),
        file_frame(f, d1, d2),
    ensures
        file_frame(f, d0, d2),
{
    crate::raw_file::lemma_others_kept_trans(d0, d1, d2, f.entry(), f.blocks());
}

/// Three changes that each kept every block in use outside a chain of one
/// block and the allocation table keep them together.
proof fn lemma_new_root_frame(d0: Seq<u8>, d1: Seq<u8>, d2: Seq<u8>, d3: Seq<u8>, c: nat)
    requires
        fs_wf(d0),
        chain_wf(d0, c, 1),
        others_kept(d0, d1, c, 1),
        forall|a: int| 0 <= a < table_end(d0) ==> #[trigger] d1[a] == d0[a],
        others_kept(d1, d2, c, 1),
        forall|a: int| 0 <= a < table_end(d1) ==> #[trigger] d2[a] == d1[a],
        others_kept(d2, d3, c, 1),
        forall|a: int| 0 <= a < table_end(d2) ==> #[trigger] d3[a] == d2[a],
    ensures
        others_kept(d0, d3, c, 1),
        forall|a: int| 0 <= a < table_end(d0) ==> #[trigger] d3[a] == d0[a],
{
    assert(chain_block(d1, c, 0) == c && chain_block(d0, c, 0) == c && chain_block(d2, c, 0) == c);
    crate::disk::lemma_fs_wf_table_same(d0, d1);
    crate::disk::lemma_fs_wf_table_same(d1, d2);
    crate::raw_file::lemma_others_kept_trans(d0, d1, d2, c, 1);
    crate::raw_file::lemma_others_kept_trans(d0, d2, d3, c, 1);
}

/// A directory: the keeper of its entries.
#[derive(Debug)]
pub struct ZDir {
    pub servant: DirServant,
}

/// A directory's pack: its number of entries and its first block, stored
/// at the start of its file.
#[derive(Debug)]
pub struct ZDirPack {
    pub num: u32,
    pub entry: BlockAddr,
}

/// The 8 bytes after the header of `f`; `Err` when the file is shorter.
fn read_pack(disk: &VirtualDisk, f: &RawFile) -> (r: Result<[u8; 8], ()>)
    requires
        f.wf(disk@),
    ensures
        match r {
            Ok(p) => f.metadata.file_len >= 24 && p@ == file_range(disk@, f.entry(), 16, 8),
            Err(_) => f.metadata.file_len < 24,
        },
{
    let mut buf: Vec<u8> = Vec::new();
    match f.read(disk, 0, &mut buf, ZDirPack::PACK_SIZE) {
        Ok(()) => {},
        Err(()) => {
            return Err(());
        },
    }
    let data: [u8; 8] = [buf[0], buf[1], buf[2], buf[3], buf[4], buf[5], buf[6], buf[7]];
    assert(data@ =~= buf@);
    Ok(data)
}

impl ZDirPack {
    /// The size of a pack.
    pub const PACK_SIZE: u32 = 8;

    /// The pack of a directory.
    pub fn new(zd: &ZDir) -> (p: ZDirPack)
        ensures
            p.num == zd.servant.num,
            p.entry == zd.servant.raw.block_servant.entry,
    {
        ZDirPack { num: zd.get_item_num(), entry: zd.get_block_entry() }
    }

    /// The pack stored in 8 bytes.
    pub fn from_u8(data: [u8; 8]) -> (p: ZDirPack)
        ensures
            p.num == le_u32(data@[0], data@[1], data@[2], data@[3]),
            p.entry.addr == le_u32(data@[4], data@[5], data@[6], data@[7]),
    {
        ZDirPack {
            num: bytes4_to_u32(data[0], data[1], data[2], data[3]),
            entry: BlockAddr::new(bytes4_to_u32(data[4], data[5], data[6], data[7])),
        }
    }

    /// The 8 bytes to store.
    pub fn into_u8(data: ZDirPack) -> (a: [u8; 8])
        ensures
            a@ == pack_bytes(data.num, data.entry.addr),
    {
        let n = u32_to_vec(data.num);
        let e = u32_to_vec(data.entry.addr);
        let a: [u8; 8] = [n[0], n[1], n[2], n[3], e[0], e[1], e[2], e[3]];
        assert(a@ =~= pack_bytes(data.num, data.entry.addr));
        a
    }

    /// The directory the pack describes: the file at its first block, with
    /// its number of entries; `Err` when that does not make a directory.
    pub fn into_zdir(self, disk: &VirtualDisk) -> (r: Result<ZDir, ()>)
        requires
            fs_wf(disk@),
        ensures
            match file_at(disk@, self.entry.addr as nat) {
                Some(g) => if (DirServant { raw: g, num: self.num }).wf(disk@) {
                    r matches Ok(zd) && zd.servant == DirServant { raw: g, num: self.num }
                } else {
                    r is Err
                },
                None => r is Err,
            },
    {
        let rf = match RawFile::open(disk, self.entry) {
            Ok(f) => f,
            Err(()) => {
                return Err(());
            },
        };
        let want: u64 = ZFILE_SIZE as u64 + self.num as u64 * 32 + 8 + 8;
        if want != rf.metadata.get_file_len() as u64 {
            return Err(());
        }
        let s = DirServant::new(rf, self.num);
        let mut tail: Vec<u8> = Vec::new();
        let off: u32 = self.num * 32 + 8;
        assert(off + ZFILE_SIZE + 8 == s.raw.metadata.file_len);
        if s.raw.read(disk, off, &mut tail, 8).is_err() {
            return Err(());
        }
        assert(tail@ == s.tail(disk@));
        if !all_zero(&tail) {
            return Err(());
        }
        Ok(ZDir { servant: s })
    }
}

/// Whether every byte of `v` is zero.
fn all_zero(v: &Vec<u8>) -> (b: bool)
    ensures
        b <==> v@ == crate::dir_edit::zeros(v@.len()),
{
    let mut i: usize = 0;
    while i < v.len()
        invariant
            i <= v@.len(),
            forall|j: int| 0 <= j < i ==> v@[j] == 0u8,
        decreases v@.len() - i,
    {
        if v[i] != 0 {
            assert(v@[i as int] != crate::dir_edit::zeros(v@.len())[i as int]);
            return false;
        }
        i = i + 1;
    }
    assert(v@ =~= crate::dir_edit::zeros(v@.len()));
    true
}

impl ZDir {
    /// The number of entries.
    pub fn get_item_num(&self) -> (n: u32)
        ensures
            n == self.servant.num,
    {
        self.servant.get_item_num()
    }

    /// The first block of the directory.
    pub fn get_block_entry(&self) -> (b: BlockAddr)
        ensures
            b == self.servant.raw.block_servant.entry,
    {
        self.servant.get_block_entry()
    }

    /// Stores the directory's pack and its file's header.
    pub fn close(&mut self, disk: &mut VirtualDisk) -> (r: Result<(), FileSystemOperationError>)
        requires
            old(self).servant.wf(old(disk)@),
        ensures
            r is Ok,
            final(self).servant == old(self).servant,
            final(self).servant.wf(final(disk)@),
            final(self).servant.items(final(disk)@) == old(self).servant.items(old(disk)@),
            file_range(final(disk)@, old(self).servant.raw.entry(), 16, 8)
                == pack_bytes(old(self).servant.num, old(self).servant.raw.block_servant.entry.addr),
            file_range(final(disk)@, old(self).servant.raw.entry(), 0, 16) == old(self).servant.raw.header(),
            file_frame(old(self).servant.raw, old(disk)@, final(disk)@),
    {
        let ghost d0 = disk@;
        let ghost s0 = self.servant;
        let _ = self.write_self(disk);
        let ghost d1 = disk@;
        self.servant.raw.close(disk);
        proof {
            lemma_header_written(s0, d1, self.servant.raw, disk@);
            lemma_file_frame_trans(s0.raw, d0, d1, disk@);
        }
        Ok(())
    }

    /// Opens the directory whose file starts at `addr`; `Err` when no
    /// directory is stored there.
    pub fn open(disk: &VirtualDisk, addr: BlockAddr) -> (r: Result<ZDir, ()>)
        requires
            fs_wf(disk@),
        ensures
            match dir_at(disk@, addr.addr as nat) {
                Some(s) => r matches Ok(zd) && zd.servant == s,
                None => r is Err,
            },
    {
        proof { lemma_dir_at(disk@, addr.addr as nat); }
        let f = match crate::zfile::ZFile::open(disk, addr) {
            Ok(zf) => zf.raw,
            Err(_) => {
                return Err(());
            },
        };
        match f.file_type {
            FileType::Dir => {},
            FileType::File => {
                return Err(());
            },
        }
        let data = match read_pack(disk, &f) {
            Ok(p) => p,
            Err(()) => {
                return Err(());
            },
        };
        let zd = ZDirPack::from_u8(data);
        zd.into_zdir(disk)
    }

    /// A new empty directory in the lowest free block; `Err`, with nothing
    /// changed, when no block is free.
    pub fn new(disk: &mut VirtualDisk) -> (r: Result<ZDir, FileSystemOperationError>)
        requires
            fs_wf(old(disk)@),
        ensures
            match r {
                Ok(zd) => new_dir_post(old(disk)@, final(disk)@, zd.servant),
                Err(e) => {
                    &&& final(disk)@ == old(disk)@
                    &&& free_count(old(disk)@, num_blocks(old(disk)@)) == 0
                    &&& e is FileCreateError
                },
            },
    {
        let ghost d0 = disk@;
        let b = take_free_block(disk)?;
        let ghost d1 = disk@;
        let raw = RawFile::new(disk, FileType::Dir, b);
        let ghost d2 = disk@;
        proof { lemma_fresh_then_kept(d0, d1, d2, b.addr as nat); }
        let mut serve = DirServant::new(raw, 0);
        serve.init(disk);
        let ghost d3 = disk@;
        proof {
            lemma_fresh_then_kept(d0, d2, d3, b.addr as nat);
        }
        let mut zd = ZDir { servant: serve };
        let _ = zd.write_self(disk);
        proof {
            lemma_fresh_then_kept(d0, d3, disk@, b.addr as nat);
        }
        Ok(zd)
    }

    /// An empty root directory at `root_entry`, a block that already forms
    /// a chain of one block.
    pub fn new_root(disk: &mut VirtualDisk, root_entry: BlockAddr) -> (zd: ZDir)
        requires
            fs_wf(old(disk)@),
            chain_wf(old(disk)@, root_entry.addr as nat, 1),
        ensures
            zd.servant.raw.metadata == (Metadata { file_len: 1024, max_len: 1024 }),
            zd.servant.raw.block_servant.entry == root_entry,
            zd.servant.raw.file_type == FileType::Dir,
            zd.servant.num == 31,
            zd.servant.wf(final(disk)@),
            zd.servant.items(final(disk)@) == Seq::new(31, |i: int| zeros(32)),
            file_range(final(disk)@, root_entry.addr as nat, 16, 8) == pack_bytes(31, root_entry.addr),
            file_range(final(disk)@, root_entry.addr as nat, 0, 16) == header_bytes(0, BLOCK_SIZE, root_entry.addr, FileType::Dir),
            others_kept(old(disk)@, final(disk)@, root_entry.addr as nat, 1),
            forall|a: int| 0 <= a < table_end(old(disk)@) ==> #[trigger] final(disk)@[a] == old(disk)@[a],
    {
        let ghost d0 = disk@;
        let raw = RawFile::new(disk, FileType::Dir, root_entry);
        let ghost d1 = disk@;
        let mut serve = DirServant::new(raw, 0);
        serve.init(disk);
        let ghost d2 = disk@;
        let mut zd = ZDir { servant: serve };
        let _ = zd.write_self(disk);
        proof {
            lemma_new_root_frame(d0, d1, d2, disk@, root_entry.addr as nat);
        }
        zd
    }

    /// Formats `raw`, a file holding only its header, as an empty directory.
    pub fn init_raw(disk: &mut VirtualDisk, raw: RawFile)
        requires
            raw.wf(old(disk)@),
            raw.metadata.file_len == ZFILE_SIZE,
        ensures
            exists|s: DirServant| formatted(DirServant { raw, num: 0 }, old(disk)@, s, final(disk)@),
    {
        let mut serve = DirServant::new(raw, 0);
        serve.init(disk);
    }

    /// What `ls` shows of the directory.
    pub fn ls(&self, disk: &VirtualDisk) -> (s: String)
        requires
            self.servant.wf(disk@),
        ensures
            s@ == ls_text(self.servant.items(disk@), 0),
    {
        self.servant.command_ls(disk)
    }

    /// Makes a file of type `file_type` named `name` owned by `owner_u_id`.
    pub fn insert_item(&mut self, disk: &mut VirtualDisk, name: &str, file_type: FileType, owner_u_id: u8) -> (r: Result<(), FileSystemOperationError>)
        requires
            old(self).servant.wf(old(disk)@),
            1 <= name.spec_bytes().len() <= MAX_NAME_LEN,
            old(self).servant.raw.metadata.file_len + 1024 <= MAX_VADDR,
        ensures
            new_item_spec(old(self).servant, old(disk)@, final(self).servant, final(disk)@, name@, file_type, owner_u_id, r),
    {
        self.servant.new_dir_item(disk, name, file_type, owner_u_id)
    }

    /// The first block of the file named `name`; `None` when no entry that
    /// starts a name has that name.
    pub fn get_item_block_entry(&self, disk: &VirtualDisk, name: &str) -> (r: Option<BlockAddr>)
        requires
            self.servant.wf(disk@),
        ensures
            r == match first_named(self.servant.items(disk@), name@, 0) {
                Some(i) => Some(BlockAddr { addr: item_entry(self.servant.items(disk@)[i as int]) }),
                None => None,
            },
    {
        self.servant.find_item(disk, name)
    }

    /// Deletes the file or empty directory named `name`.
    pub fn del_item(&mut self, disk: &mut VirtualDisk, name: &str) -> (r: Result<(), FileSystemOperationError>)
        requires
            old(self).servant.wf(old(disk)@),
        ensures
            del_item_spec(old(self).servant, old(disk)@, final(self).servant, final(disk)@, name@, r),
    {
        self.servant.del_item(disk, name)
    }

    /// The kinds of the directory's entries, one word each, then a line
    /// break.
    pub fn status(&self, disk: &VirtualDisk) -> (s: String)
        requires
            self.servant.wf(disk@),
        ensures
            s@ == status_text(self.servant.items(disk@), 0).push('\n'),
    {
        let mut s = self.servant.item_status(disk);
        push_char(&mut s, '\n');
        s
    }

    /// Makes an empty file named `name` owned by `owner_u_id`.
    pub fn touch(&mut self, disk: &mut VirtualDisk, name: &str, owner_u_id: u8) -> (r: Result<(), FileSystemOperationError>)
        requires
            old(self).servant.wf(old(disk)@),
            1 <= name.spec_bytes().len() <= MAX_NAME_LEN,
            old(self).servant.raw.metadata.file_len + 1024 <= MAX_VADDR,
        ensures
            new_item_spec(old(self).servant, old(disk)@, final(self).servant, final(disk)@, name@, FileType::File, owner_u_id, r),
    {
        self.servant.new_dir_item(disk, name, FileType::File, owner_u_id)
    }

    /// Makes an empty directory named `name` owned by `owner_u_id`.
    pub fn mkdir(&mut self, disk: &mut VirtualDisk, name: &str, owner_u_id: u8) -> (r: Result<(), FileSystemOperationError>)
        requires
            old(self).servant.wf(old(disk)@),
            1 <= name.spec_bytes().len() <= MAX_NAME_LEN,
            old(self).servant.raw.metadata.file_len + 1024 <= MAX_VADDR,
        ensures
            new_item_spec(old(self).servant, old(disk)@, final(self).servant, final(disk)@, name@, FileType::Dir, owner_u_id, r),
    {
        self.servant.new_dir_item(disk, name, FileType::Dir, owner_u_id)
    }

    /// The owner of the file named `name`.
    pub fn get_owner_id(&self, disk: &VirtualDisk, name: &str) -> (r: Result<u8, FileSystemOperationError>)
        requires
            self.servant.wf(disk@),
        ensures
            match first_named(self.servant.items(disk@), name@, 0) {
                Some(i) => r == Ok::<u8, FileSystemOperationError>(self.servant.items(disk@)[i as int][6]),
                None => r matches Err(FileSystemOperationError::NotFoundError(m)) && m@ == name@ + " is not found in dir"@,
            },
    {
        self.servant.get_owner_id(disk, name)
    }

    /// The detailed listing of the directory.
    pub fn dir_ls_l(&self, disk: &VirtualDisk) -> (r: Result<String, FileSystemOperationError>)
        requires
            self.servant.wf(disk@),
        ensures
            match ls_l_text(disk@, self.servant.items(disk@), 0) {
                Some(t) => r is Ok && r->Ok_0@ == ls_l_head() + t,
                None => r is Err && r->Err_0 is DiskError,
            },
    {
        self.servant.dir_ls_l(disk)
    }

    /// Stores the directory's pack at the start of its file.
    pub fn write_self(&mut self, disk: &mut VirtualDisk) -> (r: Result<(), FileSystemOperationError>)
        requires
            old(self).servant.wf(old(disk)@),
        ensures
            r is Ok,
            final(self).servant == old(self).servant,
            final(self).servant.wf(final(disk)@),
            final(self).servant.items(final(disk)@) == old(self).servant.items(old(disk)@),
            file_range(final(disk)@, old(self).servant.raw.entry(), 16, 8)
                == pack_bytes(old(self).servant.num, old(self).servant.raw.block_servant.entry.addr),
            file_range(final(disk)@, old(self).servant.raw.entry(), 0, 16) == file_range(old(disk)@, old(self).servant.raw.entry(), 0, 16),
            file_frame(old(self).servant.raw, old(disk)@, final(disk)@),
    {
        let ghost d0 = disk@;
        let ghost s0 = self.servant;
        let a = ZDirPack::new(self);
        let bytes = ZDirPack::into_u8(a);
        let mut buf: Vec<u8> = Vec::new();
        let mut i: usize = 0;
        while i < 8
            invariant
                i <= 8,
                bytes@.len() == 8,
                buf@ == bytes@.subrange(0, i as int),
            decreases 8 - i,
        {
            buf.push(bytes[i]);
            i = i + 1;
            assert(buf@ =~= bytes@.subrange(0, i as int));
        }
        assert(buf@ =~= bytes@);
        let _ = self.servant.raw.write(disk, 0, &buf, ZDirPack::PACK_SIZE);
        proof { lemma_pack_written(s0, d0, self.servant.raw, disk@, buf@); }
        Ok(())
    }
}

} // verus!
