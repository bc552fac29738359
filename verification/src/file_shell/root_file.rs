use vstd::prelude::*;
use crate::addr::BlockAddr;
use crate::dir_item::SHORT_FLAG;
use crate::dir_servant::{first_named, item_entry, name_chars, DirServant};
use crate::disk::{fs_wf, VirtualDisk};
use crate::file_shell::error::{path_not_found, unopened, FileSystemOperationError};
use crate::block_servant::{blocks_needed, MAX_VADDR};
use crate::dir_create::new_item_spec;
use crate::dir_delete::del_item_spec;
use crate::dir_servant::{ls_l_head, ls_l_text};
use crate::file_shell::access_key::AccessKey;
use crate::dir_item::MAX_NAME_LEN;
use crate::dir_servant::bytes_to_chars;
use crate::disk::{file_range, free_count, num_blocks};
use crate::raw_file::{file_at, lemma_file_at_written, spec_read, write_post, FileType, RawFile, ZFILE_SIZE};
use crate::zdir::{dir_at, file_frame, lemma_dir_at, pack_bytes, ZDir};
use crate::zfile::ZFile;
use crate::host_copy::{can_grow, host_cp_spec, lemma_write_then_close, name_fits};
use vstd::string::StringSliceAdditionalSpecFns;
use vstd::utf8::encode_utf8;
use crate::text::{chars_of, concat, decimal, push_str, string_from_chars, u32_to_decimal};

verus! {

/// `s` cut at every `c`: the pieces between them, empty ones too.
pub open spec fn split_on(s: Seq<char>, c: char) -> Seq<Seq<char>>
    decreases s.len(),
{
    if s.len() == 0 {
        seq![Seq::empty()]
    } else {
        let rest = split_on(s.drop_last(), c);
        if s.last() == c {
            rest.push(Seq::empty())
        } else {
            rest.update(rest.len() - 1, rest.last().push(s.last()))
        }
    }
}

/// Cutting never gives no piece.
pub proof fn lemma_split_nonempty(s: Seq<char>, c: char)
    ensures
        split_on(s, c).len() >= 1,
    decreases s.len(),
{
    if s.len() > 0 {
        lemma_split_nonempty(s.drop_last(), c);
    }
}

/// The parts of a path: the pieces between its slashes, without the empty
/// piece a final slash leaves.
pub open spec fn path_parts(path: Seq<char>) -> Seq<Seq<char>> {
    let v = split_on(path, '/');
    if v.last().len() == 0 { v.drop_last() } else { v }
}

/// The pieces of `s` between its `c`s.
pub fn split_chars(s: &str, c: char) -> (v: Vec<String>)
    ensures
        v.deep_view() == split_on(s@, c),
{
    let chars = chars_of(s);
    let mut pieces: Vec<String> = Vec::new();
    let mut cur: Vec<char> = Vec::new();
    let mut i: usize = 0;
    while i < chars.len()
        invariant
            chars@ == s@,
            i <= chars@.len(),
            pieces.deep_view().push(cur@) == split_on(chars@.take(i as int), c),
        decreases chars@.len() - i,
    {
        let ghost before = chars@.take(i as int);
        let ch = chars[i];
        proof { lemma_split_nonempty(before, c); }
        assert(chars@.take(i + 1).drop_last() =~= before);
        assert(chars@.take(i + 1).last() == ch);
        if ch == c {
            let piece = string_from_chars(&cur);
            let ghost p0 = pieces.deep_view();
            pieces.push(piece);
            cur = Vec::new();
            assert(pieces.deep_view() =~= p0.push(piece@));
            assert(pieces.deep_view().push(cur@) =~= split_on(chars@.take(i + 1), c));
        } else {
            let ghost c0 = cur@;
            cur.push(ch);
            assert(pieces.deep_view().push(cur@) =~= split_on(before, c).update(split_on(before, c).len() - 1, c0.push(ch)));
        }
        i = i + 1;
    }
    assert(chars@.take(chars@.len() as int) =~= s@);
    let last = string_from_chars(&cur);
    let ghost p0 = pieces.deep_view();
    pieces.push(last);
    assert(pieces.deep_view() =~= p0.push(last@));
    pieces
}

/// The first block of the file named `name` in the directory `s` on `d`.
pub open spec fn entry_named(d: Seq<u8>, s: DirServant, name: Seq<char>) -> Option<nat> {
    match first_named(s.items(d), name, 0) {
        Some(i) => Some(item_entry(s.items(d)[i as int]) as nat),
        None => None,
    }
}

/// The block the parts from `i` on lead to from the directory `s`: each
/// part but the last names a directory inside the one before.
pub open spec fn walk_from(d: Seq<u8>, s: DirServant, parts: Seq<Seq<char>>, i: nat) -> Option<nat>
    decreases parts.len() - i,
{
    if i + 1 >= parts.len() {
        if i + 1 == parts.len() { entry_named(d, s, parts[i as int]) } else { None }
    } else {
        match entry_named(d, s, parts[i as int]) {
            Some(b) => match dir_at(d, b) {
                Some(s2) => walk_from(d, s2, parts, i + 1),
                None => None,
            },
            None => None,
        }
    }
}

/// What the search from entry `k` finds starts a name and has the name;
/// it finds one whenever an entry from `k` on does.
proof fn lemma_first_named_spec(items: Seq<Seq<u8>>, name: Seq<char>, k: nat)
    ensures
        first_named(items, name, k) matches Some(i) ==> k <= i < items.len() && items[i as int][0] == SHORT_FLAG
            && name_chars(items, i) == name,
        (exists|j: int| k <= j < items.len() && items[j][0] == SHORT_FLAG && #[trigger] name_chars(items, j as nat) == name)
            ==> first_named(items, name, k) is Some,
    decreases items.len() - k,
{
    if k < items.len() {
        lemma_first_named_spec(items, name, k + 1);
        if exists|j: int| k <= j < items.len() && items[j][0] == SHORT_FLAG && #[trigger] name_chars(items, j as nat) == name {
            let j = choose|j: int| k <= j < items.len() && items[j][0] == SHORT_FLAG && #[trigger] name_chars(items, j as nat) == name;
            if j > k {
                assert(k + 1 <= j);
            }
        }
    }
}

/// A name in a directory leads to the block of an entry that starts a
/// name and has that name, and every name such an entry has leads
/// somewhere.
pub proof fn law_entry_named(d: Seq<u8>, s: DirServant, name: Seq<char>)
    ensures
        entry_named(d, s, name) matches Some(b) ==> exists|i: int| 0 <= i < s.items(d).len()
            && s.items(d)[i][0] == SHORT_FLAG && #[trigger] name_chars(s.items(d), i as nat) == name
            && item_entry(s.items(d)[i]) == b,
        (exists|i: int| 0 <= i < s.items(d).len() && s.items(d)[i][0] == SHORT_FLAG
            && #[trigger] name_chars(s.items(d), i as nat) == name) ==> entry_named(d, s, name) is Some,
{
    lemma_first_named_spec(s.items(d), name, 0);
    if let Some(i) = first_named(s.items(d), name, 0) {
        assert(name_chars(s.items(d), (i as int) as nat) == name);
    }
}

/// A walk that reaches a directory, continued by one more part, reaches
/// what that directory holds under the part's name.
proof fn lemma_walk_one_more(d: Seq<u8>, s0: DirServant, parts: Seq<Seq<char>>, i: nat, b: nat, s: DirServant, n: Seq<char>)
    requires
        i < parts.len(),
        walk_from(d, s0, parts, i) == Some(b),
        dir_at(d, b) == Some(s),
    ensures
        walk_from(d, s0, parts.push(n), i) == entry_named(d, s, n),
    decreases parts.len() - i,
{
    let p2 = parts.push(n);
    assert(p2[i as int] == parts[i as int]);
    if i + 1 == parts.len() {
        assert(walk_from(d, s0, parts, i) == entry_named(d, s0, parts[i as int]));
        assert(p2[(i + 1) as int] == n);
        assert(walk_from(d, s, p2, i + 1) == entry_named(d, s, n));
        assert(walk_from(d, s0, p2, i) == walk_from(d, s, p2, i + 1));
    } else {
        match entry_named(d, s0, parts[i as int]) {
            Some(b1) => match dir_at(d, b1) {
                Some(s1) => {
                    lemma_walk_one_more(d, s1, parts, i + 1, b, s, n);
                    assert(walk_from(d, s0, p2, i) == walk_from(d, s1, p2, i + 1));
                },
                None => {},
            },
            None => {},
        }
    }
}

/// Resolving a path descends one directory per part, at every depth: when
/// the parts of a path lead to a directory, those parts and one more name
/// lead to what that directory holds under the name.
pub proof fn law_path_descends(d: Seq<u8>, root: nat, parts: Seq<Seq<char>>, b: nat, s: DirServant, n: Seq<char>)
    requires
        path_block(d, root, parts) == Some(b),
        dir_at(d, b) == Some(s),
    ensures
        path_block(d, root, parts.push(n)) == entry_named(d, s, n),
{
    let p2 = parts.push(n);
    if parts.len() == 1 {
        assert(b == root);
        assert(p2.len() == 2);
        assert(p2[1] == n);
        assert(walk_from(d, s, p2, 1) == entry_named(d, s, n));
        assert(path_block(d, root, p2) == walk_from(d, s, p2, 1));
    } else {
        let r = dir_at(d, root).unwrap();
        assert(dir_at(d, root) == Some(r));
        assert(path_block(d, root, parts) == walk_from(d, r, parts, 1));
        lemma_walk_one_more(d, r, parts, 1, b, s, n);
        assert(path_block(d, root, p2) == walk_from(d, r, p2, 1));
    }
}

/// The block a path of `parts` leads to from the root directory at `root`:
/// the root itself for a path of one part; the first part is not looked at.
pub open spec fn path_block(d: Seq<u8>, root: nat, parts: Seq<Seq<char>>) -> Option<nat> {
    if parts.len() == 0 {
        None
    } else if parts.len() == 1 {
        Some(root)
    } else {
        match dir_at(d, root) {
            Some(s) => walk_from(d, s, parts, 1),
            None => None,
        }
    }
}

/// Making an entry leaves a directory that agrees with the disk.
pub(crate) proof fn lemma_new_item_wf(s0: DirServant, d0: Seq<u8>, s1: DirServant, d1: Seq<u8>, name: &str, t: FileType, uid: u8,
    r: Result<(), FileSystemOperationError>)
    requires
        s0.wf(d0),
        new_item_spec(s0, d0, s1, d1, name@, t, uid, r),
    ensures
        s1.wf(d1),
{
    reveal(crate::dir_create::new_item_post);
}

/// The debug text of a file's header fields, as the derived `Debug` shows
/// them.
pub open spec fn raw_debug(f: RawFile) -> Seq<char> {
    "RawFile { metadata: Metadata { file_len: "@ + decimal(f.metadata.file_len as nat)
        + ", max_len: "@ + decimal(f.metadata.max_len as nat)
        + " }, block_servant: BlockServant { entry: BlockAddr { addr: "@ + decimal(f.block_servant.entry.addr as nat)
        + " } }, file_type: "@ + (if f.file_type == FileType::Dir { "Dir"@ } else { "File"@ }) + " }"@
}

/// The debug text of an open file, as the derived `Debug` shows it.
pub open spec fn vfile_debug(v: VFile) -> Seq<char> {
    match v {
        VFile::ZFile(f) => "ZFile(ZFile { raw: "@ + raw_debug(f.raw) + " })"@,
        VFile::ZDir(z) => "ZDir(ZDir { servant: DirServant { raw: "@ + raw_debug(z.servant.raw) + ", num: "@
            + decimal(z.servant.num as nat) + " } })"@,
    }
}

/// Appends the debug text of `f` to `s`.
fn push_raw_debug(s: &mut String, f: &RawFile)
    ensures
        final(s)@ == old(s)@ + raw_debug(*f),
{
    push_str(s, "RawFile { metadata: Metadata { file_len: ");
    push_str(s, u32_to_decimal(f.metadata.file_len).as_str());
    push_str(s, ", max_len: ");
    push_str(s, u32_to_decimal(f.metadata.max_len).as_str());
    push_str(s, " }, block_servant: BlockServant { entry: BlockAddr { addr: ");
    push_str(s, u32_to_decimal(f.block_servant.entry.addr).as_str());
    push_str(s, " } }, file_type: ");
    match f.file_type {
        FileType::Dir => push_str(s, "Dir"),
        FileType::File => push_str(s, "File"),
    }
    push_str(s, " }");
}

/// An open file: a file of data or a directory.
#[derive(Debug)]
pub enum VFile {
    ZFile(ZFile),
    ZDir(ZDir),
}

/// The file at block `b`, opened as what its header says it is.
pub open spec fn opened_at(d: Seq<u8>, b: nat) -> Option<VFile> {
    match file_at(d, b) {
        None => None,
        Some(f) => if f.file_type == FileType::File {
            Some(VFile::ZFile(ZFile { raw: f }))
        } else {
            match dir_at(d, b) {
                Some(s) => Some(VFile::ZDir(ZDir { servant: s })),
                None => None,
            }
        },
    }
}

/// What appending `bytes` to the file `f` on `d0` gives: `r`, and the file
/// `f1` on `d1`. A file that would grow too long, or a disk without the
/// blocks for it, is refused with nothing changed.
pub open spec fn appended(f: RawFile, d0: Seq<u8>, f1: RawFile, d1: Seq<u8>, bytes: Seq<u8>, r: Result<usize, FileSystemOperationError>) -> bool {
    let n = bytes.len();
    let l0 = (f.metadata.file_len - ZFILE_SIZE) as nat;
    if f.metadata.file_len + n > MAX_VADDR
        || blocks_needed(f.metadata.max_len as nat, (f.metadata.file_len + n) as nat) > free_count(d0, num_blocks(d0)) {
        r matches Err(e) && e is WriteError && f1 == f && d1 == d0
    } else {
        &&& r == Ok::<usize, FileSystemOperationError>(n as usize)
        &&& spec_read(f1, d1, l0, n) == Some(bytes)
        &&& spec_read(f1, d1, 0, l0) == spec_read(f, d0, 0, l0)
        &&& f1.metadata.file_len == f.metadata.file_len + n
    }
}

/// Appending to a file and then reading it whole gives what it held
/// followed by the appended bytes, one character per byte.
pub proof fn law_cat_after_write(f: RawFile, d0: Seq<u8>, f1: RawFile, d1: Seq<u8>, bytes: Seq<u8>,
    r: Result<usize, FileSystemOperationError>)
    requires
        f.wf(d0),
        appended(f, d0, f1, d1, bytes, r),
        r is Ok,
    ensures
        bytes_to_chars(file_range(d1, f1.entry(), ZFILE_SIZE as nat, (f1.metadata.file_len - ZFILE_SIZE) as nat))
            == bytes_to_chars(file_range(d0, f.entry(), ZFILE_SIZE as nat, (f.metadata.file_len - ZFILE_SIZE) as nat) + bytes),
{
    let l0 = (f.metadata.file_len - ZFILE_SIZE) as nat;
    let n = bytes.len();
    let all = file_range(d1, f1.entry(), ZFILE_SIZE as nat, l0 + n);
    assert(spec_read(f1, d1, 0, l0) == Some(file_range(d1, f1.entry(), ZFILE_SIZE as nat, l0)));
    assert(spec_read(f1, d1, l0, n) == Some(file_range(d1, f1.entry(), (l0 + ZFILE_SIZE) as nat, n)));
    assert(spec_read(f, d0, 0, l0) == Some(file_range(d0, f.entry(), ZFILE_SIZE as nat, l0)));
    assert(all =~= file_range(d1, f1.entry(), ZFILE_SIZE as nat, l0) + file_range(d1, f1.entry(), (l0 + ZFILE_SIZE) as nat, n));
}

/// The file at `path` from the root directory at `root`, opened.
pub open spec fn file_at_path(d: Seq<u8>, root: nat, path: Seq<char>) -> Option<VFile> {
    match path_block(d, root, path_parts(path)) {
        None => None,
        Some(b) => opened_at(d, b),
    }
}

/// `e` is the error that opening the file at `path` gives.
pub open spec fn open_error(d: Seq<u8>, root: nat, path: Seq<char>, e: FileSystemOperationError) -> bool {
    match path_block(d, root, path_parts(path)) {
        None => path_not_found(e, path),
        Some(_) => unopened(e),
    }
}

/// A file opened from the disk agrees with it.
pub proof fn lemma_opened_wf(d: Seq<u8>, b: nat)
    ensures
        opened_at(d, b) matches Some(v) ==> v.wf(d),
{
    lemma_dir_at(d, b);
}

/// `s` on `d1` is `s` on `d0` closed: its pack and header stored, its
/// entries kept, and nothing else in use changed.
pub open spec fn dir_closed(s: DirServant, d0: Seq<u8>, d1: Seq<u8>) -> bool {
    &&& s.wf(d1)
    &&& s.items(d1) == s.items(d0)
    &&& file_range(d1, s.raw.entry(), 16, 8) == pack_bytes(s.num, s.raw.block_servant.entry.addr)
    &&& file_range(d1, s.raw.entry(), 0, 16) == s.raw.header()
    &&& file_frame(s.raw, d0, d1)
}

/// What making an entry `name` in the directory `s0` on `d0` gives: a name
/// or directory too long is refused with nothing changed; else the entry is
/// made as `new_item_spec` says and the directory stored.
pub open spec fn entry_made(s0: DirServant, d0: Seq<u8>, s1: DirServant, d1: Seq<u8>, name: Seq<char>, t: FileType, uid: u8,
    r: Result<(), FileSystemOperationError>) -> bool {
    if !name_fits(name) || !can_grow(s0) {
        r matches Err(e) && e is FileCreateError && s1 == s0 && d1 == d0
    } else {
        exists|dm: Seq<u8>| new_item_spec(s0, d0, s1, dm, name, t, uid, r) && #[trigger] dir_closed(s1, dm, d1)
    }
}

/// Makes an entry in `zdir` and stores the directory.
fn make_entry(zdir: &mut ZDir, disk: &mut VirtualDisk, name: &str, t: FileType, owner_u_id: u8) -> (r: Result<(), FileSystemOperationError>)
    requires
        old(zdir).servant.wf(old(disk)@),
    ensures
        entry_made(old(zdir).servant, old(disk)@, final(zdir).servant, final(disk)@, name@, t, owner_u_id, r),
        final(zdir).servant.wf(final(disk)@),
{
    let n = name.as_bytes().len();
    if n < 1 || n > MAX_NAME_LEN
        || zdir.servant.raw.metadata.get_file_len() as u64 + 1024 > MAX_VADDR as u64 {
        return Err(FileSystemOperationError::FileCreateError("the name or the directory is too long".to_owned()));
    }
    let ghost s0 = zdir.servant;
    let ghost d0 = disk@;
    let r = zdir.insert_item(disk, name, t, owner_u_id);
    let ghost dm = disk@;
    let ghost s1 = zdir.servant;
    proof { lemma_new_item_wf(s0, d0, s1, dm, name, t, owner_u_id, r); }
    let _ = zdir.close(disk);
    assert(new_item_spec(s0, d0, s1, dm, name@, t, owner_u_id, r) && dir_closed(s1, dm, disk@));
    r
}

/// What deleting the entry `name` of the directory `s0` on `d0` gives:
/// `del_item_spec` on the way, and then the directory stored.
pub open spec fn entry_removed(s0: DirServant, d0: Seq<u8>, s1: DirServant, d1: Seq<u8>, name: Seq<char>,
    r: Result<(), FileSystemOperationError>) -> bool {
    exists|dm: Seq<u8>| del_item_spec(s0, d0, s1, dm, name, r) && #[trigger] dir_closed(s1, dm, d1)
}

/// Deleting an entry leaves a directory that agrees with the disk.
proof fn lemma_del_item_wf(s0: DirServant, d0: Seq<u8>, s1: DirServant, d1: Seq<u8>, name: &str,
    r: Result<(), FileSystemOperationError>)
    requires
        s0.wf(d0),
        del_item_spec(s0, d0, s1, d1, name@, r),
    ensures
        s1.wf(d1),
{
    reveal(crate::dir_delete::deleted_post);
}

/// Deletes the entry `name` of `zdir` and stores the directory.
fn remove_entry(zdir: &mut ZDir, disk: &mut VirtualDisk, name: &str) -> (r: Result<(), FileSystemOperationError>)
    requires
        old(zdir).servant.wf(old(disk)@),
    ensures
        entry_removed(old(zdir).servant, old(disk)@, final(zdir).servant, final(disk)@, name@, r),
        final(zdir).servant.wf(final(disk)@),
{
    let ghost s0 = zdir.servant;
    let ghost d0 = disk@;
    let r = zdir.del_item(disk, name);
    let ghost dm = disk@;
    let ghost s1 = zdir.servant;
    proof { lemma_del_item_wf(s0, d0, s1, dm, name, r); }
    let _ = zdir.close(disk);
    assert(del_item_spec(s0, d0, s1, dm, name@, r) && dir_closed(s1, dm, disk@));
    r
}

/// The user `uid` owns the file named `name` in the directory at `path`
/// from the root directory at `root`: the check of an access key passes.
pub open spec fn owner_ok(d: Seq<u8>, root: nat, path: Seq<char>, name: Seq<char>, uid: u8) -> bool {
    &&& path_block(d, root, path_parts(path)) matches Some(b)
    &&& dir_at(d, b) matches Some(s)
    &&& first_named(s.items(d), name, 0) matches Some(i)
    &&& s.items(d)[i as int][0] == SHORT_FLAG
    &&& s.items(d)[i as int][6] == uid
}

/// What checking `key` against the disk `d`, with the root directory at
/// `root`, gives: the directory at the key's path must hold the key's file,
/// owned by the key's user.
pub open spec fn access_ok(d: Seq<u8>, root: nat, uid: u8, name: Seq<char>, parent: Seq<char>, r: Result<(), FileSystemOperationError>) -> bool {
    match path_block(d, root, path_parts(parent)) {
        None => r matches Err(e) && path_not_found(e, parent),
        Some(b) => match dir_at(d, b) {
            None => r matches Err(e) && unopened(e),
            Some(s) => match first_named(s.items(d), name, 0) {
                None => r matches Err(FileSystemOperationError::NotFoundError(m)) && m@ == name + " is not found in dir"@,
                Some(i) => if s.items(d)[i as int][6] == uid {
                    r is Ok
                } else {
                    r matches Err(e) && e is PermissionError
                },
            },
        },
    }
}

/// What writing `bytes` over the start of the file `g0` on `dm` gives:
/// `Err(WriteError)`, with nothing changed, when the disk lacks the
/// blocks; else the file, stored, holds `bytes` from its start.
pub open spec fn copied(g0: RawFile, dm: Seq<u8>, d1: Seq<u8>, bytes: Seq<u8>, r: Result<(), FileSystemOperationError>) -> bool {
    if blocks_needed(g0.metadata.max_len as nat, (ZFILE_SIZE + bytes.len()) as nat) > free_count(dm, num_blocks(dm)) {
        r matches Err(e) && e is WriteError && d1 == dm
    } else {
        &&& r is Ok
        &&& exists|g: RawFile| {
            &&& g.entry() == g0.entry()
            &&& #[trigger] file_at(d1, g.entry()) == Some(g)
            &&& spec_read(g, d1, 0, bytes.len()) == Some(bytes)
            &&& g.metadata.file_len == if g0.metadata.file_len >= ZFILE_SIZE + bytes.len() { g0.metadata.file_len as int } else { ZFILE_SIZE + bytes.len() }
        }
    }
}

/// What copying the file `f` on `d0` into the directory at `dest` from the
/// root at `root`, as the new file `name` owned by `uid`, gives: the entry
/// is made as `entry_made` says, then the file its name names gets the
/// bytes of `f` over its start.
pub open spec fn file_cp_post(f: RawFile, d0: Seq<u8>, root: nat, dest: Seq<char>, name: Seq<char>, uid: u8, d1: Seq<u8>,
    r: Result<(), FileSystemOperationError>) -> bool {
    let bytes = file_range(d0, f.entry(), ZFILE_SIZE as nat, (f.metadata.file_len - ZFILE_SIZE) as nat);
    match path_block(d0, root, path_parts(dest)) {
        None => r matches Err(e) && path_not_found(e, dest) && d1 == d0,
        Some(b) => match dir_at(d0, b) {
            None => r matches Err(e) && unopened(e) && d1 == d0,
            Some(s) => exists|s1: DirServant, dm: Seq<u8>, rm: Result<(), FileSystemOperationError>| {
                &&& #[trigger] entry_made(s, d0, s1, dm, name, FileType::File, uid, rm)
                &&& rm is Err ==> r == rm && d1 == dm
                &&& rm is Ok ==> match entry_named(dm, s1, name) {
                    None => r matches Err(e) && e matches FileSystemOperationError::NotFoundError(m)
                        && m@ == "the copy was not made"@ && d1 == dm,
                    Some(c) => match file_at(dm, c) {
                        None => r matches Err(e) && unopened(e) && d1 == dm,
                        Some(g0) => copied(g0, dm, d1, bytes, r),
                    },
                }
            },
        },
    }
}

/// Writing bytes over the start of a file and storing its header: the file
/// opens at its block and holds the bytes from its start.
proof fn lemma_copy_done(g0: RawFile, dm: Seq<u8>, g1: RawFile, dw: Seq<u8>, d1: Seq<u8>, bytes: Seq<u8>)
    requires
        g0.wf(dm),
        g1.wf(dw),
        write_post(g0, dm, g1, dw, ZFILE_SIZE as nat, bytes, bytes.len()),
        g1.wf(d1),
        write_post(g1, dw, g1, d1, 0, g1.header(), 16),
    ensures
        file_at(d1, g1.entry()) == Some(g1),
        g1.entry() == g0.entry(),
        spec_read(g1, d1, 0, bytes.len()) == Some(bytes),
        g1.metadata.file_len == if g0.metadata.file_len >= ZFILE_SIZE + bytes.len() { g0.metadata.file_len as int } else { ZFILE_SIZE + bytes.len() },
{
    let e = g0.entry();
    let n = bytes.len();
    crate::raw_file::lemma_write_in_place(g1, dw, g1, d1, 0, g1.header(), 16);
    assert(g1.header().len() == 16);
    assert(g1.header().subrange(0, 16) =~= g1.header());
    lemma_file_at_written(d1, g1);
    crate::raw_file::lemma_range_written(dw, e, ZFILE_SIZE as nat, bytes, n, ZFILE_SIZE as nat, n);
    assert(bytes.subrange(0, n as int) =~= bytes);
    crate::raw_file::lemma_range_kept(dw, d1, e, g1.metadata.file_len as nat, 0, 16, ZFILE_SIZE as nat, n);
}

/// Copies `content` into `zdir` as the file `name` owned by `uid` and stores
/// the directory.
fn copy_into(zdir: &mut ZDir, disk: &mut VirtualDisk, content: String, name: &str, uid: u8) -> (r: Result<(), FileSystemOperationError>)
    requires
        old(zdir).servant.wf(old(disk)@),
    ensures
        final(zdir).servant.wf(final(disk)@),
        exists|dm: Seq<u8>| host_cp_spec(old(zdir).servant, old(disk)@, final(zdir).servant, dm, content@, name@, uid, r)
            && #[trigger] dir_closed(final(zdir).servant, dm, final(disk)@),
{
    let ghost s0 = zdir.servant;
    let ghost d0 = disk@;
    let ghost c = content@;
    let r = zdir.host_cp(disk, content, name, uid);
    let ghost dm = disk@;
    let ghost s1 = zdir.servant;
    let _ = zdir.close(disk);
    assert(host_cp_spec(s0, d0, s1, dm, c, name@, uid, r) && dir_closed(s1, dm, disk@));
    r
}

impl VFile {
    /// The debug text of the open file, as the derived `Debug` shows it.
    pub fn debug_text(&self) -> (s: String)
        ensures
            s@ == vfile_debug(*self),
    {
        let mut s = String::new();
        match self {
            VFile::ZFile(f) => {
                push_str(&mut s, "ZFile(ZFile { raw: ");
                push_raw_debug(&mut s, &f.raw);
                push_str(&mut s, " })");
            },
            VFile::ZDir(z) => {
                push_str(&mut s, "ZDir(ZDir { servant: DirServant { raw: ");
                push_raw_debug(&mut s, &z.servant.raw);
                push_str(&mut s, ", num: ");
                push_str(&mut s, u32_to_decimal(z.servant.num).as_str());
                push_str(&mut s, " } })");
            },
        }
        s
    }

    /// The open file agrees with the disk.
    pub open spec fn wf(&self, d: Seq<u8>) -> bool {
        match self {
            VFile::ZFile(f) => f.raw.wf(d),
            VFile::ZDir(z) => z.servant.wf(d),
        }
    }

    /// Makes an entry in the directory and stores the directory.
    fn dir_new_item(&mut self, disk: &mut VirtualDisk, name: &str, t: FileType, owner_u_id: u8) -> (r: Result<(), FileSystemOperationError>)
        requires
            old(self).wf(old(disk)@),
        ensures
            match *old(self) {
                VFile::ZFile(_) => r matches Err(e) && e is NotDirError && e.message() == (if t == FileType::Dir { "mkdir:这里需要一个目录，但是这里却是文件"@ } else { "touch:这里需要一个目录，但是这里却是文件"@ }) && *final(self) == *old(self) && final(disk)@ == old(disk)@,
                VFile::ZDir(z) => *final(self) matches VFile::ZDir(z1) && entry_made(z.servant, old(disk)@, z1.servant, final(disk)@, name@, t, owner_u_id, r),
            },
            final(self).wf(final(disk)@),
    {
        match self {
            VFile::ZFile(_) => Err(FileSystemOperationError::NotDirError(
                if t == FileType::Dir { "mkdir:这里需要一个目录，但是这里却是文件" } else { "touch:这里需要一个目录，但是这里却是文件" }.to_owned(),
            )),
            VFile::ZDir(zdir) => make_entry(zdir, disk, name, t, owner_u_id),
        }
    }

    /// Makes an empty directory named `name` owned by `owner_u_id` in this
    /// directory.
    pub fn dir_mkdir(&mut self, disk: &mut VirtualDisk, name: &str, owner_u_id: u8) -> (r: Result<(), FileSystemOperationError>)
        requires
            old(self).wf(old(disk)@),
        ensures
            match *old(self) {
                VFile::ZFile(_) => r matches Err(e) && e is NotDirError && e.message() == "mkdir:这里需要一个目录，但是这里却是文件"@ && *final(self) == *old(self) && final(disk)@ == old(disk)@,
                VFile::ZDir(z) => *final(self) matches VFile::ZDir(z1) && entry_made(z.servant, old(disk)@, z1.servant, final(disk)@, name@, FileType::Dir, owner_u_id, r),
            },
            final(self).wf(final(disk)@),
    {
        self.dir_new_item(disk, name, FileType::Dir, owner_u_id)
    }

    /// Makes an empty file named `name` owned by `owner_u_id` in this
    /// directory.
    pub fn dir_touch(&mut self, disk: &mut VirtualDisk, name: &str, owner_u_id: u8) -> (r: Result<(), FileSystemOperationError>)
        requires
            old(self).wf(old(disk)@),
        ensures
            match *old(self) {
                VFile::ZFile(_) => r matches Err(e) && e is NotDirError && e.message() == "touch:这里需要一个目录，但是这里却是文件"@ && *final(self) == *old(self) && final(disk)@ == old(disk)@,
                VFile::ZDir(z) => *final(self) matches VFile::ZDir(z1) && entry_made(z.servant, old(disk)@, z1.servant, final(disk)@, name@, FileType::File, owner_u_id, r),
            },
            final(self).wf(final(disk)@),
    {
        self.dir_new_item(disk, name, FileType::File, owner_u_id)
    }

    /// The content of the file, one character per byte.
    pub fn file_cat(&self, disk: &VirtualDisk) -> (r: Result<String, FileSystemOperationError>)
        requires
            self.wf(disk@),
        ensures
            match *self {
                VFile::ZDir(_) => r matches Err(e) && e is NotFileError && e.message() == "cat:这里需要一个文件，但是这里却是目录"@,
                VFile::ZFile(f) => r matches Ok(s) && s@ == bytes_to_chars(file_range(disk@, f.raw.entry(), ZFILE_SIZE as nat,
                    (f.raw.metadata.file_len - ZFILE_SIZE) as nat)),
            },
    {
        match self {
            VFile::ZDir(_) => Err(FileSystemOperationError::NotFileError("cat:这里需要一个文件，但是这里却是目录".to_owned())),
            VFile::ZFile(f) => Ok(f.cat(disk)),
        }
    }

    /// Appends the bytes of `content` to the file and stores its header;
    /// gives the number of bytes written.
    pub fn file_write(&mut self, disk: &mut VirtualDisk, content: String) -> (r: Result<usize, FileSystemOperationError>)
        requires
            old(self).wf(old(disk)@),
        ensures
            final(self).wf(final(disk)@),
            match *old(self) {
                VFile::ZDir(_) => r matches Err(e) && e is NotFileError && e.message() == "cat:这里需要一个文件，但是这里却是目录"@ && *final(self) == *old(self) && final(disk)@ == old(disk)@,
                VFile::ZFile(f) => *final(self) matches VFile::ZFile(f1)
                    && appended(f.raw, old(disk)@, f1.raw, final(disk)@, encode_utf8(content@), r),
            },
    {
        match self {
            VFile::ZDir(_) => Err(FileSystemOperationError::NotFileError("cat:这里需要一个文件，但是这里却是目录".to_owned())),
            VFile::ZFile(f) => {
                let n = content.as_str().as_bytes().len();
                if n > MAX_VADDR as usize || f.raw.metadata.get_file_len() as u64 + n as u64 > MAX_VADDR as u64 {
                    return Err(FileSystemOperationError::WriteError("the file would be too long".to_owned()));
                }
                let ghost d0 = disk@;
                let ghost f0 = f.raw;
                let r = f.write(disk, content);
                match r {
                    Ok(k) => {
                        let ghost d1 = disk@;
                        let ghost f1 = f.raw;
                        let _ = f.close(disk);
                        proof { lemma_write_then_close(f0, d0, f1, d1, disk@, encode_utf8(content@)); }
                        Ok(k)
                    },
                    Err(e) => Err(e),
                }
            },
        }
    }

    /// Copies `content`, read from the host, into this directory as the
    /// file `file_name` owned by `owner_u_id`, and stores the directory.
    pub fn dir_host_cp(&mut self, disk: &mut VirtualDisk, content: String, file_name: &str, owner_u_id: u8) -> (r: Result<(), FileSystemOperationError>)
        requires
            old(self).wf(old(disk)@),
        ensures
            final(self).wf(final(disk)@),
            match *old(self) {
                VFile::ZFile(_) => r matches Err(e) && e is NotDirError && e.message() == "a directory is needed here, not a file"@ && *final(self) == *old(self) && final(disk)@ == old(disk)@,
                VFile::ZDir(z) => *final(self) matches VFile::ZDir(z1) && exists|dm: Seq<u8>|
                    host_cp_spec(z.servant, old(disk)@, z1.servant, dm, content@, file_name@, owner_u_id, r)
                    && #[trigger] dir_closed(z1.servant, dm, final(disk)@),
            },
    {
        match self {
            VFile::ZFile(_) => Err(FileSystemOperationError::NotDirError("a directory is needed here, not a file".to_owned())),
            VFile::ZDir(zdir) => copy_into(zdir, disk, content, file_name, owner_u_id),
        }
    }

    /// Copies this file into the directory at `dest_path` from `root`, as a
    /// new file `file_name` owned by `u_id`.
    pub fn file_cp(&self, disk: &mut VirtualDisk, root: &RawRootFile, dest_path: &str, file_name: &str, u_id: u8) -> (r: Result<(), FileSystemOperationError>)
        requires
            self.wf(old(disk)@),
        ensures
            fs_wf(final(disk)@),
            match *self {
                VFile::ZDir(_) => r matches Err(e) && e is NotFileError && e.message() == "a file is needed here, not a directory"@ && final(disk)@ == old(disk)@,
                VFile::ZFile(f) => file_cp_post(f.raw, old(disk)@, root.dir.addr as nat, dest_path@, file_name@, u_id, final(disk)@, r),
            },
    {
        match self {
            VFile::ZDir(_) => Err(FileSystemOperationError::NotFileError("a file is needed here, not a directory".to_owned())),
            VFile::ZFile(f) => {
                let len = f.raw.metadata.get_file_len() - ZFILE_SIZE as u32;
                let content = f.char_read(disk, 0, len);
                let ghost d0 = disk@;
                let mut dir = match root.get_dir(disk, dest_path) {
                    Ok(VFile::ZDir(z)) => z,
                    Ok(VFile::ZFile(_)) => {
                        return Err(FileSystemOperationError::NotDirError("a directory is needed here, not a file".to_owned()));
                    },
                    Err(e) => {
                        return Err(e);
                    },
                };
                proof { lemma_dir_at(disk@, path_block(disk@, root.dir.addr as nat, path_parts(dest_path@)).unwrap()); }
                let ghost s = dir.servant;
                let rm = make_entry(&mut dir, disk, file_name, FileType::File, u_id);
                let ghost dm = disk@;
                assert(entry_made(s, d0, dir.servant, dm, file_name@, FileType::File, u_id, rm));
                match rm {
                    Ok(()) => {},
                    Err(e) => {
                        return Err(e);
                    },
                }
                let entry = match dir.get_item_block_entry(disk, file_name) {
                    Some(a) => a,
                    None => {
                        return Err(FileSystemOperationError::NotFoundError("the copy was not made".to_owned()));
                    },
                };
                let mut target = ZFile::open(disk, entry)?;
                let ghost g0 = target.raw;
                proof { crate::zfile::lemma_bytes_chars_roundtrip(file_range(d0, f.raw.entry(), ZFILE_SIZE as nat, len as nat)); }
                target.char_write(disk, 0, len, content)?;
                let ghost dw = disk@;
                let ghost g1 = target.raw;
                let _ = target.close(disk);
                proof { lemma_copy_done(g0, dm, g1, dw, disk@, file_range(d0, f.raw.entry(), ZFILE_SIZE as nat, len as nat)); }
                Ok(())
            },
        }
    }

    /// Deletes the file or empty directory named `name` in this directory
    /// and stores the directory.
    pub fn dir_rm(&mut self, disk: &mut VirtualDisk, name: &str) -> (r: Result<(), FileSystemOperationError>)
        requires
            old(self).wf(old(disk)@),
        ensures
            final(self).wf(final(disk)@),
            match *old(self) {
                VFile::ZFile(_) => r matches Err(e) && e is NotDirError && e.message() == "a directory is needed here, not a file"@ && *final(self) == *old(self) && final(disk)@ == old(disk)@,
                VFile::ZDir(z) => *final(self) matches VFile::ZDir(z1) && entry_removed(z.servant, old(disk)@, z1.servant, final(disk)@, name@, r),
            },
    {
        match self {
            VFile::ZFile(_) => Err(FileSystemOperationError::NotDirError("a directory is needed here, not a file".to_owned())),
            VFile::ZDir(zdir) => remove_entry(zdir, disk, name),
        }
    }

    /// The detailed listing of this directory.
    pub fn dir_ls_l(&self, disk: &VirtualDisk) -> (r: Result<String, FileSystemOperationError>)
        requires
            self.wf(disk@),
        ensures
            match *self {
                VFile::ZFile(_) => r matches Err(e) && e is NotDirError && e.message() == "a directory is needed here, not a file"@,
                VFile::ZDir(z) => match ls_l_text(disk@, z.servant.items(disk@), 0) {
                    Some(t) => r matches Ok(s) && s@ == ls_l_head() + t,
                    None => r matches Err(e) && e is DiskError,
                },
            },
    {
        match self {
            VFile::ZFile(_) => Err(FileSystemOperationError::NotDirError("a directory is needed here, not a file".to_owned())),
            VFile::ZDir(zdir) => zdir.dir_ls_l(disk),
        }
    }

    /// Checks that the user of `ackey` owns the file the key names, in the
    /// directory at the key's path from `root`.
    pub fn dir_user_check(&self, disk: &VirtualDisk, root: &RawRootFile, ackey: AccessKey) -> (r: Result<(), FileSystemOperationError>)
        requires
            fs_wf(disk@),
        ensures
            access_ok(disk@, root.dir.addr as nat, ackey.u_id, ackey.access_file_name@, ackey.parent_path@, r),
    {
        let parent = match root.get_dir(disk, ackey.parent_path.as_str()) {
            Ok(VFile::ZDir(z)) => {
                proof { lemma_dir_at(disk@, path_block(disk@, root.dir.addr as nat, path_parts(ackey.parent_path@)).unwrap()); }
                z
            },
            Ok(VFile::ZFile(_)) => {
                return Err(FileSystemOperationError::UnableToOpenFile("the file does not open".to_owned()));
            },
            Err(e) => {
                return Err(e);
            },
        };
        let owner = parent.get_owner_id(disk, ackey.access_file_name.as_str())?;
        if owner == ackey.u_id {
            Ok(())
        } else {
            Err(FileSystemOperationError::PermissionError("the file belongs to another user".to_owned()))
        }
    }
}

/// Finds files by path from the root directory.
#[derive(Debug)]
pub struct RawRootFile {
    pub dir: BlockAddr,
}

impl RawRootFile {
    /// Finds files from the root directory at `dir`.
    pub fn new(dir: BlockAddr) -> (r: RawRootFile)
        ensures
            r.dir == dir,
    {
        Self { dir }
    }

    /// The file at `path`, opened as what its header says it is.
    pub fn get_raw(&self, disk: &VirtualDisk, path: &str) -> (r: Result<VFile, FileSystemOperationError>)
        requires
            fs_wf(disk@),
        ensures
            match path_block(disk@, self.dir.addr as nat, path_parts(path@)) {
                None => r matches Err(e) && path_not_found(e, path@),
                Some(b) => match opened_at(disk@, b) {
                    Some(v) => r == Ok::<VFile, FileSystemOperationError>(v),
                    None => r matches Err(e) && unopened(e),
                },
            },
    {
        let addr = self.get_addr(disk, path)?;
        proof { lemma_dir_at(disk@, addr.addr as nat); }
        let f = ZFile::open(disk, addr)?;
        match f.raw.file_type {
            FileType::File => Ok(VFile::ZFile(f)),
            FileType::Dir => match ZDir::open(disk, addr) {
                Ok(d) => Ok(VFile::ZDir(d)),
                Err(()) => Err(FileSystemOperationError::UnableToOpenFile("the file does not open".to_owned())),
            },
        }
    }

    /// The file at `path`, opened as a file of data.
    pub fn get_file(&self, disk: &VirtualDisk, path: &str) -> (r: Result<VFile, FileSystemOperationError>)
        requires
            fs_wf(disk@),
        ensures
            match path_block(disk@, self.dir.addr as nat, path_parts(path@)) {
                None => r matches Err(e) && path_not_found(e, path@),
                Some(b) => match file_at(disk@, b) {
                    Some(f) => r == Ok::<VFile, FileSystemOperationError>(VFile::ZFile(ZFile { raw: f })),
                    None => r matches Err(e) && unopened(e),
                },
            },
    {
        let addr = self.get_addr(disk, path)?;
        let f = ZFile::open(disk, addr)?;
        Ok(VFile::ZFile(f))
    }

    /// The directory at `path`.
    pub fn get_dir(&self, disk: &VirtualDisk, path: &str) -> (r: Result<VFile, FileSystemOperationError>)
        requires
            fs_wf(disk@),
        ensures
            match path_block(disk@, self.dir.addr as nat, path_parts(path@)) {
                None => r matches Err(e) && path_not_found(e, path@),
                Some(b) => match dir_at(disk@, b) {
                    Some(s) => r == Ok::<VFile, FileSystemOperationError>(VFile::ZDir(ZDir { servant: s })),
                    None => r matches Err(e) && unopened(e),
                },
            },
    {
        let addr = self.get_addr(disk, path)?;
        match ZDir::open(disk, addr) {
            Ok(d) => Ok(VFile::ZDir(d)),
            Err(()) => Err(FileSystemOperationError::UnableToOpenFile("the file does not open".to_owned())),
        }
    }

    /// The parts of a path.
    pub fn parse_path(path: &str) -> (v: Vec<String>)
        ensures
            v.deep_view() == path_parts(path@),
    {
        let mut ans = split_chars(path, '/');
        proof { lemma_split_nonempty(path@, '/'); }
        let last = ans.len() - 1;
        if ans[last].as_str().is_empty() {
            let ghost a0 = ans.deep_view();
            ans.pop();
            assert(ans.deep_view() =~= a0.drop_last());
        }
        ans
    }

    /// The first block of the file at `path`; `Err(NotFoundError)` when the
    /// path leads nowhere.
    pub fn get_addr(&self, disk: &VirtualDisk, path: &str) -> (r: Result<BlockAddr, FileSystemOperationError>)
        requires
            fs_wf(disk@),
        ensures
            match path_block(disk@, self.dir.addr as nat, path_parts(path@)) {
                Some(b) => r matches Ok(a) && a.addr == b,
                None => r matches Err(e) && path_not_found(e, path@),
            },
    {
        let pathv = Self::parse_path(path);
        let ghost parts = pathv.deep_view();
        if pathv.len() == 0 {
            return Err(FileSystemOperationError::NotFoundError(concat("we cannot found the file:", path)));
        }
        if pathv.len() == 1 {
            return Ok(self.dir);
        }
        proof { lemma_dir_at(disk@, self.dir.addr as nat); }
        let mut current = match ZDir::open(disk, self.dir) {
            Ok(z) => z,
            Err(()) => {
                return Err(FileSystemOperationError::NotFoundError(concat("we cannot found the file:", path)));
            },
        };
        let mut i: usize = 1;
        while i < pathv.len() - 1
            invariant
                fs_wf(disk@),
                parts == pathv.deep_view(),
                parts == path_parts(path@),
                parts.len() >= 2,
                1 <= i < parts.len(),
                current.servant.wf(disk@),
                path_block(disk@, self.dir.addr as nat, parts) == walk_from(disk@, current.servant, parts, i as nat),
            decreases parts.len() - i,
        {
            let addr = match current.get_item_block_entry(disk, pathv[i].as_str()) {
                Some(a) => a,
                None => {
                    return Err(FileSystemOperationError::NotFoundError(concat("we cannot found the file:", path)));
                },
            };
            proof { lemma_dir_at(disk@, addr.addr as nat); }
            current = match ZDir::open(disk, addr) {
                Ok(x) => x,
                Err(()) => {
                    return Err(FileSystemOperationError::NotFoundError(concat("we cannot found the file:", path)));
                },
            };
            i = i + 1;
        }
        match current.get_item_block_entry(disk, pathv[pathv.len() - 1].as_str()) {
            Some(b) => Ok(b),
            None => Err(FileSystemOperationError::NotFoundError(concat("we cannot found the file:", path))),
        }
    }
}

} // verus!
