use vstd::prelude::*;
use crate::disk::{fs_wf, VirtualDisk};
use crate::file_shell::error::FileSystemOperationError;
use crate::file_shell::file_table::FileTable;
use crate::zdir::dir_at;

verus! {

/// What checking the disk gives.
pub open spec fn check_post(d0: Seq<u8>, root: nat, r: Result<String, FileSystemOperationError>) -> bool {
    &&& r is Ok <==> fs_wf(d0) && dir_at(d0, root) is Some
    &&& r matches Ok(t) ==> t@ == "the file system is well formed"@
    &&& r matches Err(e) ==> e is BadStructureError
}


/// Checks the file system on `disk`.
pub fn check(disk: &VirtualDisk, ft: &mut FileTable) -> (r: Result<String, FileSystemOperationError>)
    ensures
        *final(ft) == *old(ft),
        check_post(disk@, old(ft).root_file.dir.addr as nat, r),
{
    ft.check(disk)
}

} // verus!
