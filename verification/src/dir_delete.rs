use vstd::prelude::*;
use crate::text::push_str;
use vstd::utf8::encode_utf8;
use crate::addr::BlockAddr;
use crate::bitmap::BlockBitmap;
use crate::config::FAT_ENTRY;
use crate::dir_edit::{clear_end, cleared, dir_frame};
use crate::dir_item::{DirItem, ItemAddr, SHORT_FLAG};
use crate::dir_servant::{first_named, item_entry, lemma_named_addr, DirServant};
use crate::disk::{
    chain_block, chain_wf, fat, file_range, fs_wf, in_chain, is_free, lemma_fat_in_table, num_blocks, table_end,
    VirtualDisk,
};
use crate::file_shell::error::FileSystemOperationError;
use crate::raw_file::{file_at, FileType, RawFile};
use crate::zdir::{dir_at, ZDir};
use crate::zfile::ZFile;

verus! {

/// The message for a name missing from a directory.
fn not_found_text(name: &str) -> (s: String)
    ensures
        s@ == "not found "@ + name@ + " in dir"@,
{
    let mut s = "not found ".to_owned();
    push_str(&mut s, name);
    push_str(&mut s, " in dir");
    s
}

/// Why a deletion was refused.
pub enum DirDeleleError {
    NotFoundError(String),
    NotShortItemError(String),
    NotEmptyDirError(String),
}

/// No block lies in both chains.
pub open spec fn chains_apart(d: Seq<u8>, e1: nat, n1: nat, e2: nat, n2: nat) -> bool {
    forall|b: nat| !(#[trigger] in_chain(d, e1, n1, b) && in_chain(d, e2, n2, b))
}

/// The blocks of a well-formed chain, in order.
fn chain_blocks(disk: &VirtualDisk, e: u32, n: u32) -> (v: Vec<u32>)
    requires
        fs_wf(disk@),
        chain_wf(disk@, e as nat, n as nat),
    ensures
        v@.len() == n,
        forall|k: int| 0 <= k < n ==> #[trigger] v@[k] == chain_block(disk@, e as nat, k as nat),
{
    let bit_map = BlockBitmap::new(BlockAddr { addr: FAT_ENTRY }, 256, 2);
    proof { lemma_fat_in_table(disk@, 0); }
    let mut v: Vec<u32> = Vec::new();
    let mut cur = e;
    let mut k: u32 = 0;
    while k < n
        invariant
            fs_wf(disk@),
            chain_wf(disk@, e as nat, n as nat),
            bit_map.is_file_table(),
            bit_map.entry() == FAT_ENTRY,
            crate::bitmap::table_fits(disk@, FAT_ENTRY as nat),
            k <= n,
            v@.len() == k,
            forall|j: int| 0 <= j < k ==> #[trigger] v@[j] == chain_block(disk@, e as nat, j as nat),
            k < n ==> cur == chain_block(disk@, e as nat, k as nat),
        decreases n - k,
    {
        v.push(cur);
        assert(crate::disk::is_data_block(disk@, chain_block(disk@, e as nat, k as nat)));
        if k + 1 < n {
            let next = bit_map.get_content(disk, BlockAddr::new(cur));
            assert(chain_block(disk@, e as nat, (k + 1) as nat) == fat(disk@, chain_block(disk@, e as nat, k as nat)) as nat);
            cur = next.addr;
        }
        k = k + 1;
    }
    v
}

/// Whether no block lies in both chains.
pub(crate) fn check_apart(disk: &VirtualDisk, e1: u32, n1: u32, e2: u32, n2: u32) -> (b: bool)
    requires
        fs_wf(disk@),
        chain_wf(disk@, e1 as nat, n1 as nat),
        chain_wf(disk@, e2 as nat, n2 as nat),
    ensures
        b == chains_apart(disk@, e1 as nat, n1 as nat, e2 as nat, n2 as nat),
{
    let a = chain_blocks(disk, e1, n1);
    let c = chain_blocks(disk, e2, n2);
    let mut i: usize = 0;
    while i < a.len()
        invariant
            a@.len() == n1,
            c@.len() == n2,
            forall|k: int| 0 <= k < n1 ==> #[trigger] a@[k] == chain_block(disk@, e1 as nat, k as nat),
            forall|k: int| 0 <= k < n2 ==> #[trigger] c@[k] == chain_block(disk@, e2 as nat, k as nat),
            i <= n1,
            forall|x: int, y: int| 0 <= x < i && 0 <= y < n2 ==> a@[x] != c@[y],
        decreases n1 - i,
    {
        let mut j: usize = 0;
        while j < c.len()
            invariant
                a@.len() == n1,
                c@.len() == n2,
                forall|k: int| 0 <= k < n1 ==> #[trigger] a@[k] == chain_block(disk@, e1 as nat, k as nat),
                forall|k: int| 0 <= k < n2 ==> #[trigger] c@[k] == chain_block(disk@, e2 as nat, k as nat),
                i < n1,
                j <= n2,
                forall|y: int| 0 <= y < j ==> a@[i as int] != c@[y],
            decreases n2 - j,
        {
            if a[i] == c[j] {
                proof {
                    let b = chain_block(disk@, e1 as nat, i as nat);
                    assert(in_chain(disk@, e1 as nat, n1 as nat, b));
                    assert(chain_block(disk@, e2 as nat, j as nat) == b);
                    assert(in_chain(disk@, e2 as nat, n2 as nat, b));
                }
                return false;
            }
            j = j + 1;
        }
        i = i + 1;
    }
    proof {
        assert forall|b: nat| !(#[trigger] in_chain(disk@, e1 as nat, n1 as nat, b) && in_chain(disk@, e2 as nat, n2 as nat, b)) by {
            if in_chain(disk@, e1 as nat, n1 as nat, b) && in_chain(disk@, e2 as nat, n2 as nat, b) {
                let x = choose|x: nat| x < n1 && #[trigger] chain_block(disk@, e1 as nat, x) == b;
                let y = choose|y: nat| y < n2 && #[trigger] chain_block(disk@, e2 as nat, y) == b;
                assert(a@[x as int] == c@[y as int]);
            }
        }
    }
    true
}

/// No entry starts a name: the directory holds no file.
pub open spec fn holds_no_file(items: Seq<Seq<u8>>) -> bool {
    forall|i: int| 0 <= i < items.len() ==> #[trigger] items[i][0] != SHORT_FLAG
}

/// The file that deleting the entry stored as `b` frees: for a directory,
/// the file its pack names; for a file, the file at its block.
pub open spec fn del_target(d: Seq<u8>, b: Seq<u8>) -> Option<RawFile> {
    let c = item_entry(b) as nat;
    if b[5] == 1 {
        match dir_at(d, c) {
            Some(s) => Some(s.raw),
            None => None,
        }
    } else {
        file_at(d, c)
    }
}

/// `s1` on `d1` is `s0` on `d0` with the file `v` of entry `i` deleted:
/// every block of `v` is free, the entries of its name are cleared, and no
/// other block in use changed.
#[verifier::opaque]
pub open spec fn deleted_post(s0: DirServant, d0: Seq<u8>, s1: DirServant, d1: Seq<u8>, i: nat, v: RawFile) -> bool {
    let items0 = s0.items(d0);
    let pe = s0.raw.entry();
    let pn = s0.raw.blocks();
    &&& s1 == s0
    &&& s1.wf(d1)
    &&& s1.items(d1) == cleared(items0, i, clear_end(items0, i, false))
    &&& file_range(d1, pe, 0, 24) == file_range(d0, pe, 0, 24)
    &&& d1.len() == d0.len()
    &&& forall|k: nat| k < v.blocks() ==> is_free(d1, #[trigger] chain_block(d0, v.entry(), k))
    &&& forall|c: nat| c < num_blocks(d0) && !in_chain(d0, v.entry(), v.blocks(), c) ==> #[trigger] fat(d1, c) == fat(d0, c)
    &&& forall|a: int| table_end(d0) <= a < num_blocks(d0) * 1024 && !is_free(d0, (a / 1024) as nat)
        && !in_chain(d0, pe, pn, (a / 1024) as nat) && !in_chain(d0, v.entry(), v.blocks(), (a / 1024) as nat)
        ==> #[trigger] d1[a] == d0[a]
    &&& forall|a: int| 0 <= a < FAT_ENTRY * 1024 ==> #[trigger] d1[a] == d0[a]
}

/// Freeing a file none of whose blocks is the directory's leaves the
/// directory as it was.
proof fn lemma_parent_after_del(s0: DirServant, d0: Seq<u8>, d1: Seq<u8>, v: RawFile)
    requires
        s0.wf(d0),
        fs_wf(d1),
        d1.len() == d0.len(),
        chains_apart(d0, s0.raw.entry(), s0.raw.blocks(), v.entry(), v.blocks()),
        forall|c: nat| c < num_blocks(d0) && !in_chain(d0, v.entry(), v.blocks(), c) ==> #[trigger] fat(d1, c) == fat(d0, c),
        forall|a: int| 0 <= a < d0.len() && (a < FAT_ENTRY * 1024 || a >= table_end(d0)) ==> #[trigger] d1[a] == d0[a],
    ensures
        s0.wf(d1),
        s0.items(d1) == s0.items(d0),
        file_range(d1, s0.raw.entry(), 0, 24) == file_range(d0, s0.raw.entry(), 0, 24),
        forall|k: nat| k < s0.raw.blocks() ==> #[trigger] chain_block(d1, s0.raw.entry(), k) == chain_block(d0, s0.raw.entry(), k),
{
    let pe = s0.raw.entry();
    let pn = s0.raw.blocks();
    assert forall|k: nat| k < pn implies #[trigger] fat(d1, chain_block(d0, pe, k)) == fat(d0, chain_block(d0, pe, k)) by {
        let b = chain_block(d0, pe, k);
        assert(in_chain(d0, pe, pn, b));
        assert(!in_chain(d0, v.entry(), v.blocks(), b));
        assert(crate::disk::is_data_block(d0, b));
    }
    crate::bitmap::lemma_chain_kept(d0, d1, pe, pn);
    assert forall|p: nat| p < pn * 1024 implies #[trigger] d1[crate::disk::phys(d1, pe, p) as int] == d0[crate::disk::phys(d0, pe, p) as int] by {
        crate::file_io::lemma_phys_data(d0, pe, pn, p);
        assert(p / 1024 < pn) by (nonlinear_arith)
            requires p < pn * 1024;
        assert(chain_block(d1, pe, p / 1024) == chain_block(d0, pe, p / 1024));
    }
    assert forall|p: nat, len: nat| p + len <= s0.raw.metadata.file_len implies #[trigger] file_range(d1, pe, p, len) == file_range(d0, pe, p, len) by {
        assert forall|j: int| 0 <= j < len implies #[trigger] file_range(d1, pe, p, len)[j] == file_range(d0, pe, p, len)[j] by {
            let q = (p + j) as nat;
            assert(q < pn * 1024) by (nonlinear_arith)
                requires q < s0.raw.metadata.file_len, s0.raw.metadata.file_len <= s0.raw.metadata.max_len,
                    pn == s0.raw.metadata.max_len / 1024, s0.raw.metadata.max_len % 1024 == 0;
            assert(d1[crate::disk::phys(d1, pe, q) as int] == d0[crate::disk::phys(d0, pe, q) as int]);
        }
        assert(file_range(d1, pe, p, len) =~= file_range(d0, pe, p, len));
    }
    assert forall|k: int| 0 <= k < s0.num implies #[trigger] s0.items(d1)[k] == s0.items(d0)[k] by {
        crate::dir_edit::lemma_item_inside(s0.num as nat, k as nat);
        assert(file_range(d1, pe, (crate::raw_file::ZFILE_SIZE + crate::dir_item::item_offset(k as nat)) as nat, 32)
            == file_range(d0, pe, (crate::raw_file::ZFILE_SIZE + crate::dir_item::item_offset(k as nat)) as nat, 32));
    }
    assert(s0.items(d1) =~= s0.items(d0));
    assert(file_range(d1, pe, 0, 24) == file_range(d0, pe, 0, 24));
}

/// The blocks of the freed file stay free and the other entries keep
/// their values across a change that kept the allocation table.
proof fn lemma_del_table(d0: Seq<u8>, d1: Seq<u8>, d2: Seq<u8>, v: RawFile)
    requires
        fs_wf(d1),
        d1.len() == d0.len(),
        d2.len() == d1.len(),
        forall|a: int| 0 <= a < table_end(d1) ==> #[trigger] d2[a] == d1[a],
        forall|k: nat| k < v.blocks() ==> is_free(d1, #[trigger] chain_block(d0, v.entry(), k)),
        forall|k: nat| k < v.blocks() ==> #[trigger] chain_block(d0, v.entry(), k) < num_blocks(d0),
        forall|c: nat| c < num_blocks(d0) && !in_chain(d0, v.entry(), v.blocks(), c) ==> #[trigger] fat(d1, c) == fat(d0, c),
    ensures
        forall|k: nat| k < v.blocks() ==> is_free(d2, #[trigger] chain_block(d0, v.entry(), k)),
        forall|c: nat| c < num_blocks(d0) && !in_chain(d0, v.entry(), v.blocks(), c) ==> #[trigger] fat(d2, c) == fat(d0, c),
{
    crate::disk::lemma_fs_wf_table_same(d1, d2);
    assert forall|k: nat| k < v.blocks() implies is_free(d2, #[trigger] chain_block(d0, v.entry(), k)) by {
        assert(fat(d2, chain_block(d0, v.entry(), k)) == fat(d1, chain_block(d0, v.entry(), k)));
    }
}

/// Blocks in use outside both files keep their bytes.
proof fn lemma_del_bytes(d0: Seq<u8>, d1: Seq<u8>, d2: Seq<u8>, pe: nat, pn: nat, v: RawFile)
    requires
        fs_wf(d0),
        d1.len() == d0.len(),
        forall|k: nat| k < pn ==> #[trigger] chain_block(d1, pe, k) == chain_block(d0, pe, k),
        forall|c: nat| c < num_blocks(d0) && !in_chain(d0, v.entry(), v.blocks(), c) ==> #[trigger] fat(d1, c) == fat(d0, c),
        forall|a: int| 0 <= a < d0.len() && (a < FAT_ENTRY * 1024 || a >= table_end(d0)) ==> #[trigger] d1[a] == d0[a],
        crate::disk::others_kept(d1, d2, pe, pn),
    ensures
        forall|a: int| table_end(d0) <= a < num_blocks(d0) * 1024 && !is_free(d0, (a / 1024) as nat)
            && !in_chain(d0, pe, pn, (a / 1024) as nat) && !in_chain(d0, v.entry(), v.blocks(), (a / 1024) as nat)
            ==> #[trigger] d2[a] == d0[a],
        forall|a: int| 0 <= a < FAT_ENTRY * 1024 ==> #[trigger] d2[a] == d0[a],
{
    assert forall|a: int| table_end(d0) <= a < num_blocks(d0) * 1024 && !is_free(d0, (a / 1024) as nat)
        && !in_chain(d0, pe, pn, (a / 1024) as nat) && !in_chain(d0, v.entry(), v.blocks(), (a / 1024) as nat)
        implies #[trigger] d2[a] == d0[a] by {
        let bl = (a / 1024) as nat;
        assert(bl < num_blocks(d0)) by (nonlinear_arith)
            requires bl == a / 1024, a < num_blocks(d0) * 1024, a >= 0;
        assert(fat(d1, bl) == fat(d0, bl));
        assert(!in_chain(d1, pe, pn, bl)) by {
            if in_chain(d1, pe, pn, bl) {
                let k = choose|k: nat| k < pn && #[trigger] chain_block(d1, pe, k) == bl;
                assert(chain_block(d0, pe, k) == bl);
            }
        }
        assert(d1[a] == d0[a]);
    }
    assert forall|a: int| 0 <= a < FAT_ENTRY * 1024 implies #[trigger] d2[a] == d0[a] by {
        assert(d1[a] == d0[a]);
    }
}

/// Freeing the file and clearing its entries, put together.
proof fn lemma_del_post(s0: DirServant, d0: Seq<u8>, d1: Seq<u8>, s2: DirServant, d2: Seq<u8>, i: nat, v: RawFile)
    requires
        s0.wf(d0),
        v.wf(d0),
        fs_wf(d1),
        d1.len() == d0.len(),
        s0.items(d1) == s0.items(d0),
        file_range(d1, s0.raw.entry(), 0, 24) == file_range(d0, s0.raw.entry(), 0, 24),
        forall|k: nat| k < s0.raw.blocks() ==> #[trigger] chain_block(d1, s0.raw.entry(), k) == chain_block(d0, s0.raw.entry(), k),
        forall|k: nat| k < v.blocks() ==> is_free(d1, #[trigger] chain_block(d0, v.entry(), k)),
        forall|c: nat| c < num_blocks(d0) && !in_chain(d0, v.entry(), v.blocks(), c) ==> #[trigger] fat(d1, c) == fat(d0, c),
        forall|a: int| 0 <= a < d0.len() && (a < FAT_ENTRY * 1024 || a >= table_end(d0)) ==> #[trigger] d1[a] == d0[a],
        s2 == s0,
        s2.wf(d2),
        s2.items(d2) == cleared(s0.items(d1), i, clear_end(s0.items(d1), i, false)),
        dir_frame(s0, d1, d2),
    ensures
        deleted_post(s0, d0, s2, d2, i, v),
{
    reveal(deleted_post);
    assert forall|k: nat| k < v.blocks() implies #[trigger] chain_block(d0, v.entry(), k) < num_blocks(d0) by {
        assert(crate::disk::is_data_block(d0, chain_block(d0, v.entry(), k)));
    }
    lemma_del_table(d0, d1, d2, v);
    lemma_del_bytes(d0, d1, d2, s0.raw.entry(), s0.raw.blocks(), v);
}

/// What deleting the entry named `name` gives: `r`, and `s1` on `d1`
/// from `s0` on `d0`.
pub open spec fn del_item_spec(s0: DirServant, d0: Seq<u8>, s1: DirServant, d1: Seq<u8>, name: Seq<char>,
    r: Result<(), FileSystemOperationError>) -> bool {
    ({
        let items0 = s0.items(d0);
        match first_named(items0, name, 0) {
            None => r matches Err(FileSystemOperationError::NotFoundError(m)) && m@ == "not found "@ + name + " in dir"@
                && s1 == s0 && d1 == d0,
            Some(i) => {
                let b = items0[i as int];
                match del_target(d0, b) {
                    None => r matches Err(e) && e is UnableToOpenFile && s1 == s0 && d1 == d0,
                    Some(v) => if b[5] == 1 && !holds_no_file(dir_at(d0, item_entry(b) as nat).unwrap().items(d0)) {
                        r matches Err(e) && e is DeleteError && e.message() == "删除失败，文件夹不为空"@ && s1 == s0 && d1 == d0
                    } else if !chains_apart(d0, s0.raw.entry(), s0.raw.blocks(), v.entry(), v.blocks()) {
                        r matches Err(e) && e is BadStructureError && s1 == s0 && d1 == d0
                    } else {
                        r is Ok && deleted_post(s0, d0, s1, d1, i, v)
                    },
                }
            },
        }
    })
}

impl DirServant {
    /// The file that deleting entry `addr` frees; `Err(DeleteError)` when
    /// the entry does not start a name or names a directory that is not
    /// empty, `Err(UnableToOpenFile)` when its file does not open.
    fn victim_of(&self, disk: &VirtualDisk, addr: ItemAddr) -> (r: Result<RawFile, FileSystemOperationError>)
        requires
            self.wf(disk@),
            addr.addr < self.num,
        ensures
            ({
                let b = self.items(disk@)[addr.addr as int];
                if b[0] != SHORT_FLAG {
                    r matches Err(e) && e is DeleteError
                } else {
                    match del_target(disk@, b) {
                        None => r matches Err(e) && e is UnableToOpenFile,
                        Some(v) => if b[5] == 1 && !holds_no_file(dir_at(disk@, item_entry(b) as nat).unwrap().items(disk@)) {
                            r matches Err(e) && e is DeleteError && e.message() == "删除失败，文件夹不为空"@
                        } else {
                            r == Ok::<RawFile, FileSystemOperationError>(v) && v.wf(disk@)
                        },
                    }
                }
            }),
    {
        let ghost b = self.items(disk@)[addr.addr as int];
        let item = match self.get_item(disk, addr) {
            Ok(i) => i,
            Err(_) => {
                return Err(FileSystemOperationError::DeleteError("the entry does not read".to_owned()));
            },
        };
        assert(item.bytes() == b);
        match item.into_dir_item() {
            DirItem::Short(s) => {
                proof {
                    assert(s.data.addr@ == b.subrange(1, 5));
                    assert(b.subrange(1, 32)[4] == b[5]);
                }
                let entry = s.get_block();
                match s.get_type() {
                    FileType::Dir => {
                        proof { crate::zdir::lemma_dir_at(disk@, entry.addr as nat); }
                        match ZDir::open(disk, entry) {
                            Ok(zd) => {
                                if zd.servant.dir_empty(disk) {
                                    Ok(zd.servant.raw)
                                } else {
                                    Err(FileSystemOperationError::DeleteError("删除失败，文件夹不为空".to_owned()))
                                }
                            },
                            Err(()) => Err(FileSystemOperationError::UnableToOpenFile("the directory does not open".to_owned())),
                        }
                    },
                    FileType::File => {
                        match ZFile::open(disk, entry) {
                            Ok(f) => Ok(f.raw),
                            Err(e) => Err(e),
                        }
                    },
                }
            },
            _ => Err(FileSystemOperationError::DeleteError("找到的item不是shortitem，考虑get_item是否有问题".to_owned())),
        }
    }

    /// Deletes the file or empty directory named `name`: frees its blocks
    /// and clears its entries. `Err(NotFoundError)` when no entry has that
    /// name, `Err(DeleteError)` when it names a directory that is not empty, `Err(UnableToOpenFile)` when its
    /// file does not open, `Err(BadStructureError)` when its blocks and the
    /// directory's overlap; nothing changes then.
    pub fn del_item(&mut self, disk: &mut VirtualDisk, name: &str) -> (r: Result<(), FileSystemOperationError>)
        requires
            old(self).wf(old(disk)@),
        ensures
            del_item_spec(*old(self), old(disk)@, *final(self), final(disk)@, name@, r),
    {
        let ghost d0 = disk@;
        let ghost s0 = *self;
        let found = self.has_name(disk, name);
        proof { lemma_named_addr(self.items(disk@), name@); }
        let addr = match found {
            Some(a) => a,
            None => {
                return Err(FileSystemOperationError::NotFoundError(not_found_text(name)));
            },
        };
        let victim = match self.victim_of(disk, addr) {
            Ok(v) => v,
            Err(e) => {
                return Err(e);
            },
        };
        let ve = victim.block_servant.entry.addr;
        let vn = victim.metadata.max_len / 1024;
        let pe = self.raw.block_servant.entry.addr;
        let pn = self.raw.metadata.max_len / 1024;
        if !check_apart(disk, pe, pn, ve, vn) {
            return Err(FileSystemOperationError::BadStructureError("the file shares blocks with its directory".to_owned()));
        }
        let mut v = victim;
        v.del(disk);
        let ghost d1 = disk@;
        proof { lemma_parent_after_del(s0, d0, d1, victim); }
        self.set_empty_item(disk, addr);
        proof { lemma_del_post(s0, d0, d1, *self, disk@, addr.addr as nat, victim); }
        Ok(())
    }
}

} // verus!
