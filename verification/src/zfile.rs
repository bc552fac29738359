use vstd::prelude::*;
use crate::addr::BlockAddr;
use crate::allocation::{fresh_file_post, lemma_fresh_then_kept, take_free_block};
use crate::block_servant::{blocks_needed, MAX_VADDR};
use crate::config::{BLOCK_SIZE, FAT_ENTRY};
use crate::dir_servant::bytes_to_chars;
use crate::disk::{
    chain_block, fat, file_range, free_count, fs_wf, in_chain, is_free, num_blocks, phys, table_end,
    VirtualDisk,
};
use crate::file_shell::error::{unopened, FileSystemOperationError};
use crate::metadata::Metadata;
use crate::raw_file::{file_at, header_bytes, spec_read, write_post, FileType, RawFile, ZFILE_SIZE};
use crate::text::string_from_chars;
use vstd::utf8::encode_utf8;

verus! {

/// Characters stored one byte each: the low byte of each code.
pub open spec fn chars_to_bytes(s: Seq<char>) -> Seq<u8> {
    Seq::new(s.len(), |i: int| (s[i] as u32 % 256) as u8)
}

/// Bytes read as characters and stored again are the same bytes.
pub proof fn lemma_bytes_chars_roundtrip(s: Seq<u8>)
    ensures
        chars_to_bytes(bytes_to_chars(s)) == s,
{
    assert forall|i: int| 0 <= i < s.len() implies #[trigger] chars_to_bytes(bytes_to_chars(s))[i] == s[i] by {
        assert((s[i] as char) as u32 == s[i] as u32);
    }
    assert(chars_to_bytes(bytes_to_chars(s)) =~= s);
}

/// The bytes a file holds after its header.
pub open spec fn content(f: RawFile, d: Seq<u8>) -> Seq<u8> {
    file_range(d, f.entry(), ZFILE_SIZE as nat, (f.metadata.file_len - ZFILE_SIZE) as nat)
}

/// `f1` on `d1` is `f0` on `d0` with its last `size` bytes of content cut
/// off (all of them when it held fewer): same file, shorter, its blocks
/// past the new end given back, the bytes before the end kept.
pub open spec fn reduced(f0: RawFile, d0: Seq<u8>, f1: RawFile, d1: Seq<u8>, size: u32) -> bool {
    &&& f1.block_servant == f0.block_servant
    &&& f1.file_type == f0.file_type
    &&& f1.metadata.file_len == if f0.metadata.file_len <= size + ZFILE_SIZE { ZFILE_SIZE as int }
        else { f0.metadata.file_len - size }
    &&& f1.metadata.max_len == if f0.metadata.file_len <= size + ZFILE_SIZE { 1024 }
        else { 1024 * ((f0.metadata.file_len - size + 1023) / 1024) }
    &&& forall|p: nat| p < f1.metadata.file_len ==> #[trigger] d1[phys(d1, f1.entry(), p) as int]
        == d0[phys(d0, f0.entry(), p) as int]
    &&& forall|k: nat| f1.blocks() <= k < f0.blocks() ==> is_free(d1, #[trigger] chain_block(d0, f0.entry(), k))
}

/// Cutting `size` bytes off a file leaves what it read whole before,
/// without its last `size` bytes (without any, when it held fewer).
pub proof fn law_reduce_content(f0: RawFile, d0: Seq<u8>, f1: RawFile, d1: Seq<u8>, size: u32)
    requires
        f0.wf(d0),
        reduced(f0, d0, f1, d1, size),
    ensures
        ({
            let c = content(f0, d0);
            let cut: int = if size < c.len() { size as int } else { c.len() as int };
            content(f1, d1) == c.subrange(0, c.len() - cut)
        }),
{
    let c = content(f0, d0);
    let cut: int = if size < c.len() { size as int } else { c.len() as int };
    assert forall|i: int| 0 <= i < content(f1, d1).len() implies #[trigger] content(f1, d1)[i] == c.subrange(0, c.len() - cut)[i] by {
        let p = (ZFILE_SIZE + i) as nat;
        assert(d1[phys(d1, f1.entry(), p) as int] == d0[phys(d0, f0.entry(), p) as int]);
    }
    assert(content(f1, d1) =~= c.subrange(0, c.len() - cut));
}

/// Copying bytes over the start of a file: what it then reads whole is the
/// copied bytes, followed by what it held past their length.
pub proof fn law_copy_over_content(f0: RawFile, d0: Seq<u8>, f1: RawFile, d1: Seq<u8>, src: Seq<u8>)
    requires
        f0.wf(d0),
        write_post(f0, d0, f1, d1, ZFILE_SIZE as nat, src, src.len()),
    ensures
        ({
            let c = content(f0, d0);
            let k: int = if src.len() < c.len() { src.len() as int } else { c.len() as int };
            content(f1, d1) == src + c.subrange(k, c.len() as int)
        }),
{
    let c = content(f0, d0);
    let e = f0.entry();
    let k: int = if src.len() < c.len() { src.len() as int } else { c.len() as int };
    let rhs = src + c.subrange(k, c.len() as int);
    assert forall|i: int| 0 <= i < content(f1, d1).len() implies #[trigger] content(f1, d1)[i] == rhs[i] by {
        let p = (ZFILE_SIZE + i) as nat;
        if i < src.len() {
            assert(file_range(d1, e, ZFILE_SIZE as nat, src.len())[i] == src.subrange(0, src.len() as int)[i]);
        } else {
            assert(d1[phys(d1, e, p) as int] == d0[phys(d0, e, p) as int]);
        }
    }
    assert(content(f1, d1) =~= rhs);
}

/// Appending bytes to a file: what it then reads whole is what it held,
/// followed by the appended bytes.
pub proof fn law_append_content(f0: RawFile, d0: Seq<u8>, f1: RawFile, d1: Seq<u8>, bytes: Seq<u8>)
    requires
        f0.wf(d0),
        write_post(f0, d0, f1, d1, f0.metadata.file_len as nat, bytes, bytes.len()),
    ensures
        content(f1, d1) == content(f0, d0) + bytes,
{
    let c = content(f0, d0);
    let e = f0.entry();
    let l0 = f0.metadata.file_len as nat;
    let rhs = c + bytes;
    assert forall|i: int| 0 <= i < content(f1, d1).len() implies #[trigger] content(f1, d1)[i] == rhs[i] by {
        let p = (ZFILE_SIZE + i) as nat;
        if p < l0 {
            assert(d1[phys(d1, e, p) as int] == d0[phys(d0, e, p) as int]);
        } else {
            let j: int = p - l0;
            assert(file_range(d1, e, l0, bytes.len())[j] == bytes.subrange(0, bytes.len() as int)[j]);
            assert((l0 + j) as nat == p);
        }
    }
    assert(content(f1, d1) =~= rhs);
}

/// A file of data.
#[derive(Debug)]
pub struct ZFile {
    pub raw: RawFile,
}

impl ZFile {
    /// A new empty file in the lowest free block; `Err`, with nothing
    /// changed, when no block is free.
    pub fn new(disk: &mut VirtualDisk) -> (r: Result<ZFile, FileSystemOperationError>)
        requires
            fs_wf(old(disk)@),
        ensures
            match r {
                Ok(f) => {
                    &&& fresh_file_post(old(disk)@, final(disk)@, f.raw.entry())
                    &&& f.raw.metadata == Metadata { file_len: ZFILE_SIZE as u32, max_len: BLOCK_SIZE }
                    &&& f.raw.file_type == FileType::File
                    &&& f.raw.wf(final(disk)@)
                    &&& file_range(final(disk)@, f.raw.entry(), 0, 16)
                        == header_bytes(0, BLOCK_SIZE, f.raw.block_servant.entry.addr, FileType::File)
                },
                Err(e) => {
                    &&& final(disk)@ == old(disk)@
                    &&& free_count(old(disk)@, num_blocks(old(disk)@)) == 0
                    &&& e is FileCreateError
                },
            },
    {
        let ghost d0 = disk@;
        let entry = take_free_block(disk)?;
        let ghost d1 = disk@;
        let raw = RawFile::new(disk, FileType::File, entry);
        proof { lemma_fresh_then_kept(d0, d1, disk@, entry.addr as nat); }
        Ok(ZFile { raw })
    }

    /// Opens the file whose header is at `ba`; `Err` when it does not open.
    pub fn open(disk: &VirtualDisk, ba: BlockAddr) -> (r: Result<ZFile, FileSystemOperationError>)
        requires
            fs_wf(disk@),
        ensures
            match r {
                Ok(f) => file_at(disk@, ba.addr as nat) == Some(f.raw),
                Err(e) => file_at(disk@, ba.addr as nat) is None && unopened(e),
            },
    {
        match RawFile::open(disk, ba) {
            Ok(raw) => Ok(ZFile { raw }),
            Err(_) => Err(FileSystemOperationError::UnableToOpenFile("the file does not open".to_owned())),
        }
    }

    /// Writes the file's header back at its start.
    pub fn close(&mut self, disk: &mut VirtualDisk) -> (r: Result<(), FileSystemOperationError>)
        requires
            old(self).raw.wf(old(disk)@),
        ensures
            r is Ok,
            *final(self) == *old(self),
            final(self).raw.wf(final(disk)@),
            write_post(old(self).raw, old(disk)@, final(self).raw, final(disk)@, 0, old(self).raw.header(), 16),
    {
        self.raw.close(disk);
        Ok(())
    }

    /// Makes a file of `raw` and writes its header.
    pub fn init_raw(disk: &mut VirtualDisk, raw: RawFile)
        requires
            raw.wf(old(disk)@),
        ensures
            write_post(raw, old(disk)@, raw, final(disk)@, 0, raw.header(), 16),
            raw.wf(final(disk)@),
    {
        let mut f = ZFile { raw };
        let _ = f.close(disk);
    }

    /// The `size` bytes at `offset`, one character each; empty when they run
    /// past the end of the file.
    pub fn char_read(&self, disk: &VirtualDisk, offset: u32, size: u32) -> (v: Vec<char>)
        requires
            self.raw.wf(disk@),
        ensures
            v@ == match spec_read(self.raw, disk@, offset as nat, size as nat) {
                Some(s) => bytes_to_chars(s),
                None => Seq::<char>::empty(),
            },
    {
        let mut buf: Vec<u8> = Vec::new();
        let _ = self.raw.read(disk, offset, &mut buf, size);
        let mut ans: Vec<char> = Vec::new();
        let mut i: usize = 0;
        while i < buf.len()
            invariant
                i <= buf@.len(),
                ans@ == bytes_to_chars(buf@.subrange(0, i as int)),
            decreases buf@.len() - i,
        {
            ans.push(buf[i] as char);
            i = i + 1;
            assert(ans@ =~= bytes_to_chars(buf@.subrange(0, i as int)));
        }
        assert(buf@.subrange(0, buf@.len() as int) =~= buf@);
        ans
    }

    /// Writes the first `size` characters of `buf`, one byte each, at
    /// `offset`; `Err` when `offset` lies past the end of the file or the
    /// disk lacks free blocks, with nothing changed.
    pub fn char_write(&mut self, disk: &mut VirtualDisk, offset: u32, size: u32, buf: Vec<char>) -> (r: Result<(), FileSystemOperationError>)
        requires
            old(self).raw.wf(old(disk)@),
            offset + ZFILE_SIZE + size <= MAX_VADDR,
            size <= buf@.len(),
        ensures
            r is Ok <==> (offset + ZFILE_SIZE <= old(self).raw.metadata.file_len
                && blocks_needed(old(self).raw.metadata.max_len as nat, (offset + ZFILE_SIZE + size) as nat)
                <= free_count(old(disk)@, num_blocks(old(disk)@))),
            r is Ok ==> write_post(old(self).raw, old(disk)@, final(self).raw, final(disk)@, (offset + ZFILE_SIZE) as nat, chars_to_bytes(buf@), size as nat),
            r is Ok ==> final(self).raw.wf(final(disk)@),
            r matches Err(e) ==> *final(self) == *old(self) && final(disk)@ == old(disk)@ && e is WriteError,
    {
        let mut b: Vec<u8> = Vec::new();
        let mut i: usize = 0;
        while i < buf.len()
            invariant
                i <= buf@.len(),
                b@ == chars_to_bytes(buf@.subrange(0, i as int)),
            decreases buf@.len() - i,
        {
            let c = buf[i] as u32;
            b.push((c % 256) as u8);
            i = i + 1;
            assert(b@ =~= chars_to_bytes(buf@.subrange(0, i as int)));
        }
        assert(buf@.subrange(0, buf@.len() as int) =~= buf@);
        match self.raw.write(disk, offset, &b, size) {
            Ok(()) => Ok(()),
            Err(()) => Err(FileSystemOperationError::WriteError("the write does not fit".to_owned())),
        }
    }

    /// Removes `size` bytes from the end of the file.
    pub fn reduce(&mut self, disk: &mut VirtualDisk, size: u32)
        requires
            old(self).raw.wf(old(disk)@),
        ensures
            final(self).raw.wf(final(disk)@),
            reduced(old(self).raw, old(disk)@, final(self).raw, final(disk)@, size),
            forall|c: nat| c < num_blocks(old(disk)@) && !in_chain(old(disk)@, old(self).raw.entry(), old(self).raw.blocks(), c)
                ==> #[trigger] fat(final(disk)@, c) == fat(old(disk)@, c),
            forall|a: int| 0 <= a < old(disk)@.len() && (a < FAT_ENTRY * 1024 || a >= table_end(old(disk)@))
                ==> #[trigger] final(disk)@[a] == old(disk)@[a],
    {
        self.raw.reduce(disk, size);
    }

    /// The first block of the file.
    pub fn get_block_entry(&self) -> (b: BlockAddr)
        ensures
            b == self.raw.block_servant.entry,
    {
        self.raw.get_block_entry()
    }

    /// Frees every block of the file.
    pub fn del(&mut self, disk: &mut VirtualDisk)
        requires
            old(self).raw.wf(old(disk)@),
        ensures
            fs_wf(final(disk)@),
            final(disk)@.len() == old(disk)@.len(),
            forall|k: nat| k < old(self).raw.blocks() ==> is_free(final(disk)@, #[trigger] chain_block(old(disk)@, old(self).raw.entry(), k)),
            forall|c: nat| c < num_blocks(old(disk)@) && !in_chain(old(disk)@, old(self).raw.entry(), old(self).raw.blocks(), c)
                ==> #[trigger] fat(final(disk)@, c) == fat(old(disk)@, c),
            forall|a: int| 0 <= a < old(disk)@.len() && (a < FAT_ENTRY * 1024 || a >= table_end(old(disk)@))
                ==> #[trigger] final(disk)@[a] == old(disk)@[a],
    {
        self.raw.del(disk);
    }

    /// The whole content of the file, one character per byte.
    pub fn cat(&self, disk: &VirtualDisk) -> (s: String)
        requires
            self.raw.wf(disk@),
        ensures
            s@ == bytes_to_chars(file_range(disk@, self.raw.entry(), ZFILE_SIZE as nat, (self.raw.metadata.file_len - ZFILE_SIZE) as nat)),
    {
        let len = self.raw.metadata.get_file_len() - ZFILE_SIZE as u32;
        let v = self.char_read(disk, 0, len);
        string_from_chars(&v)
    }

    /// Appends the bytes of `content` to the file and gives their number;
    /// `Err`, with nothing changed, when the disk lacks free blocks.
    pub fn write(&mut self, disk: &mut VirtualDisk, content: String) -> (r: Result<usize, FileSystemOperationError>)
        requires
            old(self).raw.wf(old(disk)@),
            old(self).raw.metadata.file_len + encode_utf8(content@).len() <= MAX_VADDR,
        ensures
            r is Ok <==> blocks_needed(old(self).raw.metadata.max_len as nat,
                (old(self).raw.metadata.file_len + encode_utf8(content@).len()) as nat)
                <= free_count(old(disk)@, num_blocks(old(disk)@)),
            r matches Ok(n) ==> n == encode_utf8(content@).len()
                && write_post(old(self).raw, old(disk)@, final(self).raw, final(disk)@, old(self).raw.metadata.file_len as nat,
                    encode_utf8(content@), n as nat)
                && final(self).raw.wf(final(disk)@),
            r matches Err(e) ==> *final(self) == *old(self) && final(disk)@ == old(disk)@ && e is WriteError,
    {
        let bytes = content.as_str().as_bytes();
        let mut buf: Vec<u8> = Vec::new();
        let mut i: usize = 0;
        while i < bytes.len()
            invariant
                i <= bytes@.len(),
                buf@ == bytes@.subrange(0, i as int),
            decreases bytes@.len() - i,
        {
            buf.push(bytes[i]);
            i = i + 1;
            assert(buf@ =~= bytes@.subrange(0, i as int));
        }
        assert(buf@ =~= bytes@);
        let n = bytes.len();
        match self.raw.add_write(disk, &buf, n as u32) {
            Ok(()) => Ok(n),
            Err(()) => Err(FileSystemOperationError::WriteError("the disk is full".to_owned())),
        }
    }

    /// Copies the content of `source` to the start of this file; a copy that
    /// does not fit leaves this file unchanged.
    pub fn cp_from(&mut self, disk: &mut VirtualDisk, source: &ZFile) -> (r: Result<(), FileSystemOperationError>)
        requires
            old(self).raw.wf(old(disk)@),
            source.raw.wf(old(disk)@),
        ensures
            r is Ok,
            ({
                let len = (source.raw.metadata.file_len - ZFILE_SIZE) as nat;
                let fits = ZFILE_SIZE <= old(self).raw.metadata.file_len
                    && blocks_needed(old(self).raw.metadata.max_len as nat, (ZFILE_SIZE + len) as nat)
                    <= free_count(old(disk)@, num_blocks(old(disk)@));
                &&& fits ==> write_post(old(self).raw, old(disk)@, final(self).raw, final(disk)@, ZFILE_SIZE as nat,
                    file_range(old(disk)@, source.raw.entry(), ZFILE_SIZE as nat, len), len)
                    && final(self).raw.wf(final(disk)@)
                &&& !fits ==> *final(self) == *old(self) && final(disk)@ == old(disk)@
            }),
    {
        let length = source.raw.metadata.get_file_len() - ZFILE_SIZE as u32;
        let content = source.char_read(disk, 0, length);
        proof {
            lemma_bytes_chars_roundtrip(file_range(disk@, source.raw.entry(), ZFILE_SIZE as nat, length as nat));
        }
        let _ = self.char_write(disk, 0, length, content);
        Ok(())
    }
}

} // verus!
