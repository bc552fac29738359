use vstd::prelude::*;
use crate::disk::{fs_wf, VirtualDisk};
use crate::file_shell::access_key::AccessKey;
use crate::file_shell::error::FileSystemOperationError;
use crate::file_shell::file_table::FileTable;
use crate::file_shell::root_file::{access_ok, appended, file_at_path, lemma_opened_wf, open_error, path_block, path_parts, VFile};
use crate::raw_file::RawFile;
use vstd::utf8::encode_utf8;

verus! {

/// What appending `content` to `file_path` with the key (`uid`, `kname`, `kpath`) gives: `r`, and the disk `d1` from `d0`.
pub open spec fn write_cmd_post(d0: Seq<u8>, root: nat, file_path: Seq<char>, content: Seq<char>, uid: u8, kname: Seq<char>, kpath: Seq<char>, d1: Seq<u8>, r: Result<usize, FileSystemOperationError>) -> bool {
    match file_at_path(d0, root, file_path) {
        None => r matches Err(e) && open_error(d0, root, file_path, e)
            && d1 == d0,
        Some(v) => exists|rc: Result<(), FileSystemOperationError>| {
            &&& #[trigger] access_ok(d0, root, uid, kname, kpath, rc)
            &&& rc matches Err(e) ==> r == Err::<usize, FileSystemOperationError>(e) && d1 == d0
            &&& rc is Ok ==> match v {
                VFile::ZDir(_) => r matches Err(e) && e is NotFileError && e.message() == "cat:这里需要一个文件，但是这里却是目录"@ && d1 == d0,
                VFile::ZFile(f) => exists|f1: RawFile| #[trigger] appended(f.raw, d0, f1, d1, encode_utf8(content), r),
            }
        },
    }
}


/// Appends `content` to the file at `file_path`, when the user of `ackey`
/// owns the file the key names; gives the number of bytes written.
pub fn write(disk: &mut VirtualDisk, ft: &mut FileTable, file_path: &str, content: String, ackey: AccessKey) -> (r: Result<usize, FileSystemOperationError>)
    requires
        fs_wf(old(disk)@),
    ensures
        *final(ft) == *old(ft),
        fs_wf(final(disk)@),
        write_cmd_post(old(disk)@, old(ft).root_file.dir.addr as nat, file_path@, content@, ackey.u_id, ackey.access_file_name@, ackey.parent_path@, final(disk)@, r),
{
    let ghost key = ackey;
    let mut file = ft.open(disk, file_path)?;
    proof { lemma_opened_wf(disk@, path_block(disk@, ft.root_file.dir.addr as nat, path_parts(file_path@)).unwrap()); }
    let rc = file.dir_user_check(disk, &ft.root_file, ackey);
    assert(access_ok(disk@, ft.root_file.dir.addr as nat, key.u_id, key.access_file_name@, key.parent_path@, rc));
    match rc {
        Ok(()) => {
            let ghost v = file;
            let r = file.file_write(disk, content);
            proof {
                if let VFile::ZFile(f) = v {
                    if let VFile::ZFile(f1) = file {
                        assert(appended(f.raw, old(disk)@, f1.raw, disk@, encode_utf8(content@), r));
                    }
                }
            }
            r
        },
        Err(e) => Err(e),
    }
}

} // verus!
