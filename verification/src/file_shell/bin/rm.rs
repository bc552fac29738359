use vstd::prelude::*;
use crate::dir_servant::DirServant;
use crate::disk::{fs_wf, VirtualDisk};
use crate::file_shell::access_key::AccessKey;
use crate::file_shell::error::FileSystemOperationError;
use crate::file_shell::file_table::FileTable;
use crate::file_shell::root_file::{access_ok, entry_removed, file_at_path, lemma_opened_wf, open_error, path_block, path_parts, VFile};

verus! {

/// What deleting `file_name` from the directory at `dir_path` with the key (`uid`, `kname`, `kpath`) gives.
pub open spec fn rm_post(d0: Seq<u8>, root: nat, dir_path: Seq<char>, file_name: Seq<char>, uid: u8, kname: Seq<char>, kpath: Seq<char>, d1: Seq<u8>, r: Result<(), FileSystemOperationError>) -> bool {
    match file_at_path(d0, root, dir_path) {
        None => r matches Err(e) && open_error(d0, root, dir_path, e)
            && d1 == d0,
        Some(v) => exists|rc: Result<(), FileSystemOperationError>| {
            &&& #[trigger] access_ok(d0, root, uid, kname, kpath, rc)
            &&& rc matches Err(e) ==> r == Err::<(), FileSystemOperationError>(e) && d1 == d0
            &&& rc is Ok ==> match v {
                VFile::ZFile(_) => r matches Err(e) && e is NotDirError && e.message() == "a directory is needed here, not a file"@ && d1 == d0,
                VFile::ZDir(z) => exists|s1: DirServant| #[trigger] entry_removed(z.servant, d0, s1, d1, file_name, r),
            }
        },
    }
}


/// Deletes the file or empty directory `file_name` of the directory at
/// `dir_path`, when the user of `ackey` owns the file the key names.
pub fn rm(disk: &mut VirtualDisk, ft: &mut FileTable, dir_path: &str, file_name: &str, ackey: AccessKey) -> (r: Result<(), FileSystemOperationError>)
    requires
        fs_wf(old(disk)@),
    ensures
        *final(ft) == *old(ft),
        fs_wf(final(disk)@),
        rm_post(old(disk)@, old(ft).root_file.dir.addr as nat, dir_path@, file_name@, ackey.u_id, ackey.access_file_name@, ackey.parent_path@, final(disk)@, r),
{
    let ghost key = ackey;
    let mut dir = ft.open(disk, dir_path)?;
    proof { lemma_opened_wf(disk@, path_block(disk@, ft.root_file.dir.addr as nat, path_parts(dir_path@)).unwrap()); }
    let rc = dir.dir_user_check(disk, &ft.root_file, ackey);
    assert(access_ok(disk@, ft.root_file.dir.addr as nat, key.u_id, key.access_file_name@, key.parent_path@, rc));
    match rc {
        Ok(()) => dir.dir_rm(disk, file_name),
        Err(e) => Err(e),
    }
}

} // verus!
