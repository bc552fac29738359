use vstd::prelude::*;
use crate::dir_servant::bytes_to_chars;
use crate::disk::{file_range, fs_wf, VirtualDisk};
use crate::file_shell::access_key::AccessKey;
use crate::file_shell::error::FileSystemOperationError;
use crate::file_shell::file_table::FileTable;
use crate::file_shell::root_file::{access_ok, file_at_path, lemma_opened_wf, open_error, path_block, path_parts, VFile};
use crate::raw_file::ZFILE_SIZE;

verus! {

/// What `cat` of `file_path` with the key (`uid`, `kname`, `kpath`) gives.
pub open spec fn cat_post(d0: Seq<u8>, root: nat, file_path: Seq<char>, uid: u8, kname: Seq<char>, kpath: Seq<char>, r: Result<String, FileSystemOperationError>) -> bool {
    match file_at_path(d0, root, file_path) {
        None => r matches Err(e) && open_error(d0, root, file_path, e),
        Some(v) => exists|rc: Result<(), FileSystemOperationError>| {
            &&& #[trigger] access_ok(d0, root, uid, kname, kpath, rc)
            &&& rc matches Err(e) ==> r == Err::<String, FileSystemOperationError>(e)
            &&& rc is Ok ==> match v {
                VFile::ZDir(_) => r matches Err(e) && e is NotFileError && e.message() == "cat:这里需要一个文件，但是这里却是目录"@,
                VFile::ZFile(f) => r matches Ok(s) && s@ == bytes_to_chars(file_range(d0, f.raw.entry(), ZFILE_SIZE as nat,
                    (f.raw.metadata.file_len - ZFILE_SIZE) as nat)),
            }
        },
    }
}


/// The content of the file at `file_path`, when the user of `ackey` owns
/// the file the key names.
pub fn cat(disk: &VirtualDisk, ft: &mut FileTable, file_path: &str, ackey: AccessKey) -> (r: Result<String, FileSystemOperationError>)
    requires
        fs_wf(disk@),
    ensures
        *final(ft) == *old(ft),
        cat_post(disk@, old(ft).root_file.dir.addr as nat, file_path@, ackey.u_id, ackey.access_file_name@, ackey.parent_path@, r),
{
    let ghost key = ackey;
    let file = ft.open(disk, file_path)?;
    proof { lemma_opened_wf(disk@, path_block(disk@, ft.root_file.dir.addr as nat, path_parts(file_path@)).unwrap()); }
    let rc = file.dir_user_check(disk, &ft.root_file, ackey);
    assert(access_ok(disk@, ft.root_file.dir.addr as nat, key.u_id, key.access_file_name@, key.parent_path@, rc));
    match rc {
        Ok(()) => file.file_cat(disk),
        Err(e) => Err(e),
    }
}

} // verus!
