use vstd::prelude::*;
use crate::block_servant::{blocks_needed, MAX_VADDR};
use crate::dir_create::{lemma_dir_kept, lemma_free_not_in_chain, new_item_spec};
use crate::dir_delete::{chains_apart, check_apart};
use crate::dir_item::{MAX_NAME_LEN, SHORT_FLAG};
use crate::dir_servant::{first_named, item_entry, DirServant};
use crate::disk::{chain_block, file_range, free_count, fs_wf, in_chain, is_free, num_blocks, VirtualDisk};
use crate::file_shell::error::FileSystemOperationError;
use crate::raw_file::{file_at, lemma_file_at_written, spec_read, write_post, FileType, RawFile, ZFILE_SIZE};
use crate::zdir::ZDir;
use crate::zfile::ZFile;
use vstd::string::StringSliceAdditionalSpecFns;
use vstd::utf8::encode_utf8;

verus! {

/// A name a directory can hold: 1 to `MAX_NAME_LEN` bytes.
pub open spec fn name_fits(name: Seq<char>) -> bool {
    1 <= encode_utf8(name).len() <= MAX_NAME_LEN
}

/// A directory that can still grow by a block.
pub open spec fn can_grow(s: DirServant) -> bool {
    s.raw.metadata.file_len + 1024 <= MAX_VADDR
}

/// The directory after the attempt to make an entry `name` for a copy:
/// made as `new_item_spec` says when the name and the directory allow it,
/// whatever that gave; else as it was.
pub open spec fn copy_entry_made(s0: DirServant, d0: Seq<u8>, s1: DirServant, d1: Seq<u8>, name: Seq<char>, uid: u8) -> bool {
    if name_fits(name) && can_grow(s0) {
        exists|r: Result<(), FileSystemOperationError>| new_item_spec(s0, d0, s1, d1, name, FileType::File, uid, r)
    } else {
        s1 == s0 && d1 == d0
    }
}

/// The file `f` on `d0` became a file on `d1` that opens at the same block
/// and holds what it held followed by `bytes`.
pub open spec fn file_appended(f: RawFile, d0: Seq<u8>, d1: Seq<u8>, bytes: Seq<u8>) -> bool {
    let l0 = (f.metadata.file_len - ZFILE_SIZE) as nat;
    exists|f1: RawFile| {
        &&& file_at(d1, f.entry()) == Some(f1)
        &&& f1.metadata.file_len == f.metadata.file_len + bytes.len()
        &&& spec_read(f1, d1, l0, bytes.len()) == Some(bytes)
        &&& #[trigger] spec_read(f1, d1, 0, l0) == spec_read(f, d0, 0, l0)
    }
}

/// What appending `bytes` to the file named `name` in the directory `s` on
/// `d0` gives: `r`, and the disk `d1`.
pub open spec fn appended_to_named(s: DirServant, d0: Seq<u8>, d1: Seq<u8>, name: Seq<char>, bytes: Seq<u8>,
    r: Result<(), FileSystemOperationError>) -> bool {
    match first_named(s.items(d0), name, 0) {
        None => r matches Err(e) && e is HostError && d1 == d0,
        Some(i) => if s.items(d0)[i as int][0] != SHORT_FLAG {
            r matches Err(e) && e is HostError && d1 == d0
        } else {
            match file_at(d0, item_entry(s.items(d0)[i as int]) as nat) {
                None => r matches Err(e) && e is UnableToOpenFile && d1 == d0,
                Some(f) => if !chains_apart(d0, s.raw.entry(), s.raw.blocks(), f.entry(), f.blocks()) {
                    r matches Err(e) && e is BadStructureError && d1 == d0
                } else if f.metadata.file_len + bytes.len() > MAX_VADDR
                    || blocks_needed(f.metadata.max_len as nat, (f.metadata.file_len + bytes.len()) as nat)
                    > free_count(d0, num_blocks(d0)) {
                    r matches Err(e) && e is WriteError && d1 == d0
                } else {
                    &&& r is Ok
                    &&& file_appended(f, d0, d1, bytes)
                    &&& s.wf(d1)
                    &&& s.items(d1) == s.items(d0)
                },
            }
        },
    }
}

/// What copying `content` into the directory `s0` on `d0` as the file
/// `name` owned by `uid` gives: the entry is made when it can be, and the
/// bytes of `content` are appended to the file the name then names.
pub open spec fn host_cp_spec(s0: DirServant, d0: Seq<u8>, s1: DirServant, d1: Seq<u8>, content: Seq<char>, name: Seq<char>, uid: u8,
    r: Result<(), FileSystemOperationError>) -> bool {
    exists|dm: Seq<u8>| #[trigger] copy_entry_made(s0, d0, s1, dm, name, uid)
        && appended_to_named(s1, dm, d1, name, encode_utf8(content), r)
}

/// Appending to a file and storing its header: what was there stays, the
/// appended bytes follow.
pub proof fn lemma_write_then_close(f0: RawFile, d0: Seq<u8>, f1: RawFile, d1: Seq<u8>, d2: Seq<u8>, bytes: Seq<u8>)
    requires
        f0.wf(d0),
        f1.wf(d1),
        write_post(f0, d0, f1, d1, f0.metadata.file_len as nat, bytes, bytes.len()),
        write_post(f1, d1, f1, d2, 0, f1.header(), 16),
    ensures
        f1.wf(d2),
        f1.metadata.file_len == f0.metadata.file_len + bytes.len(),
        spec_read(f1, d2, (f0.metadata.file_len - ZFILE_SIZE) as nat, bytes.len()) == Some(bytes),
        spec_read(f1, d2, 0, (f0.metadata.file_len - ZFILE_SIZE) as nat)
            == spec_read(f0, d0, 0, (f0.metadata.file_len - ZFILE_SIZE) as nat),
{
    let l0 = f0.metadata.file_len as nat;
    let n = bytes.len();
    let e = f0.entry();
    crate::raw_file::lemma_write_in_place(f1, d1, f1, d2, 0, f1.header(), 16);
    crate::raw_file::lemma_range_written(d1, e, l0, bytes, n, l0, n);
    assert(bytes.subrange(0, n as int) =~= bytes);
    crate::raw_file::lemma_range_kept(d1, d2, e, f1.metadata.file_len as nat, 0, 16, l0, n);
    crate::raw_file::lemma_range_kept(d0, d1, e, l0, l0, n, ZFILE_SIZE as nat, (l0 - ZFILE_SIZE) as nat);
    crate::raw_file::lemma_range_kept(d1, d2, e, f1.metadata.file_len as nat, 0, 16, ZFILE_SIZE as nat, (l0 - ZFILE_SIZE) as nat);
}

/// A file grown by blocks that were free stays apart from a directory it
/// was apart from.
proof fn lemma_grown_apart(s: DirServant, d0: Seq<u8>, d1: Seq<u8>, e: nat, n0: nat, n1: nat)
    requires
        s.wf(d0),
        chains_apart(d0, s.raw.entry(), s.raw.blocks(), e, n0),
        forall|k: nat| k < n0 ==> #[trigger] chain_block(d1, e, k) == chain_block(d0, e, k),
        forall|k: nat| n0 <= k < n1 ==> is_free(d0, #[trigger] chain_block(d1, e, k)),
        forall|k: nat| k < s.raw.blocks() ==> #[trigger] chain_block(d1, s.raw.entry(), k) == chain_block(d0, s.raw.entry(), k),
    ensures
        forall|b: nat| !(in_chain(d1, e, n1, b) && in_chain(d1, s.raw.entry(), s.raw.blocks(), b)),
{
    let se = s.raw.entry();
    let sn = s.raw.blocks();
    assert forall|b: nat| !(in_chain(d1, e, n1, b) && in_chain(d1, se, sn, b)) by {
        if in_chain(d1, e, n1, b) && in_chain(d1, se, sn, b) {
            let k = choose|k: nat| k < n1 && #[trigger] chain_block(d1, e, k) == b;
            let j = choose|j: nat| j < sn && #[trigger] chain_block(d1, se, j) == b;
            assert(chain_block(d0, se, j) == b);
            assert(in_chain(d0, se, sn, b));
            if k < n0 {
                assert(chain_block(d0, e, k) == b);
                assert(in_chain(d0, e, n0, b));
            } else {
                assert(is_free(d0, b));
                lemma_free_not_in_chain(d0, se, sn, b);
            }
        }
    }
}

/// Appending to a file apart from the directory `s` and storing its
/// header: the file holds its old bytes and then the new ones, and the
/// directory is as it was.
proof fn lemma_append_done(s: DirServant, d0: Seq<u8>, f0: RawFile, d1: Seq<u8>, f1: RawFile, d2: Seq<u8>, bytes: Seq<u8>)
    requires
        s.wf(d0),
        f0.wf(d0),
        f1.wf(d1),
        chains_apart(d0, s.raw.entry(), s.raw.blocks(), f0.entry(), f0.blocks()),
        write_post(f0, d0, f1, d1, f0.metadata.file_len as nat, bytes, bytes.len()),
        f1.wf(d2),
        write_post(f1, d1, f1, d2, 0, f1.header(), 16),
    ensures
        file_appended(f0, d0, d2, bytes),
        s.wf(d2),
        s.items(d2) == s.items(d0),
{
    lemma_dir_kept(s, d0, d1, f0.entry(), f0.blocks());
    lemma_grown_apart(s, d0, d1, f0.entry(), f0.blocks(), f1.blocks());
    lemma_dir_kept(s, d1, d2, f1.entry(), f1.blocks());
    lemma_write_then_close(f0, d0, f1, d1, d2, bytes);
    assert(f1.header().len() == 16);
    assert(f1.header().subrange(0, 16) =~= f1.header());
    lemma_file_at_written(d2, f1);
    let l0 = (f0.metadata.file_len - ZFILE_SIZE) as nat;
    assert(spec_read(f1, d2, 0, l0) == spec_read(f0, d0, 0, l0));
}

impl DirServant {
    /// Appends the bytes of `content` to the file of entry `name`, which
    /// must start a name and lie apart from this directory.
    fn append_to_named(&self, disk: &mut VirtualDisk, content: String, name: &str) -> (r: Result<(), FileSystemOperationError>)
        requires
            self.wf(old(disk)@),
        ensures
            appended_to_named(*self, old(disk)@, final(disk)@, name@, encode_utf8(content@), r),
            self.wf(final(disk)@),
    {
        let ghost d0 = disk@;
        let iaddr = match self.has_name(disk, name) {
            Some(a) => a,
            None => {
                return Err(FileSystemOperationError::HostError("创建复制文件失败".to_owned()));
            },
        };
        proof { crate::dir_servant::lemma_named_addr(self.items(disk@), name@); }
        if self.get_flag(disk, iaddr) != SHORT_FLAG {
            return Err(FileSystemOperationError::HostError("创建复制文件失败".to_owned()));
        }
        let entry = self.get_item_block_entry(disk, iaddr);
        let mut zf = ZFile::open(disk, entry)?;
        let ghost f0 = zf.raw;
        if !check_apart(disk, self.raw.block_servant.entry.addr, self.raw.metadata.get_max_len() / 1024,
            zf.raw.block_servant.entry.addr, zf.raw.metadata.get_max_len() / 1024) {
            return Err(FileSystemOperationError::BadStructureError("the file shares blocks with its directory".to_owned()));
        }
        let n = content.as_str().as_bytes().len();
        if n > MAX_VADDR as usize || zf.raw.metadata.get_file_len() as u64 + n as u64 > MAX_VADDR as u64 {
            return Err(FileSystemOperationError::WriteError("the file would be too long".to_owned()));
        }
        zf.write(disk, content)?;
        let ghost d1 = disk@;
        let ghost f1 = zf.raw;
        let _ = zf.close(disk);
        proof { lemma_append_done(*self, d0, f0, d1, f1, disk@, encode_utf8(content@)); }
        Ok(())
    }

    /// Copies `content`, read from the host, into this directory as the file
    /// `file_name` owned by `owner_u_id`: makes the entry when it can, then
    /// appends the bytes of `content` to the file the name names.
    pub fn host_cp(&mut self, disk: &mut VirtualDisk, content: String, file_name: &str, owner_u_id: u8) -> (r: Result<(), FileSystemOperationError>)
        requires
            old(self).wf(old(disk)@),
        ensures
            final(self).wf(final(disk)@),
            host_cp_spec(*old(self), old(disk)@, *final(self), final(disk)@, content@, file_name@, owner_u_id, r),
    {
        let ghost s0 = *self;
        let ghost d0 = disk@;
        let n = file_name.as_bytes().len();
        if 1 <= n && n <= MAX_NAME_LEN && self.raw.metadata.get_file_len() as u64 + 1024 <= MAX_VADDR as u64 {
            let made = self.new_dir_item(disk, file_name, FileType::File, owner_u_id);
            proof {
                crate::file_shell::root_file::lemma_new_item_wf(s0, d0, *self, disk@, file_name, FileType::File, owner_u_id, made);
            }
        }
        let ghost sm = *self;
        let ghost dm = disk@;
        assert(copy_entry_made(s0, d0, sm, dm, file_name@, owner_u_id));
        let r = self.append_to_named(disk, content, file_name);
        assert(copy_entry_made(s0, d0, *self, dm, file_name@, owner_u_id)
            && appended_to_named(*self, dm, disk@, file_name@, encode_utf8(content@), r));
        r
    }
}

impl ZDir {
    /// Copies `content`, read from the host, into this directory as the file
    /// `file_name` owned by `owner_u_id`.
    pub fn host_cp(&mut self, disk: &mut VirtualDisk, content: String, file_name: &str, owner_u_id: u8) -> (r: Result<(), FileSystemOperationError>)
        requires
            old(self).servant.wf(old(disk)@),
        ensures
            final(self).servant.wf(final(disk)@),
            host_cp_spec(old(self).servant, old(disk)@, final(self).servant, final(disk)@, content@, file_name@, owner_u_id, r),
    {
        self.servant.host_cp(disk, content, file_name, owner_u_id)
    }
}

} // verus!
