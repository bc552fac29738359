use vstd::prelude::*;
use crate::disk::{fs_wf, VirtualDisk};
use crate::file_shell::error::FileSystemOperationError;
use crate::file_shell::file_table::FileTable;
use crate::file_shell::root_file::{file_at_path, open_error, vfile_debug};

verus! {

/// What the debug text of the file at `file_path` gives.
pub open spec fn debug_post(d0: Seq<u8>, root: nat, file_path: Seq<char>, r: Result<String, FileSystemOperationError>) -> bool {
    match file_at_path(d0, root, file_path) {
        None => r matches Err(e) && open_error(d0, root, file_path, e),
        Some(v) => r matches Ok(s) && s@ == vfile_debug(v),
    }
}


/// The debug text of the file at `file_path`.
pub fn debug(disk: &VirtualDisk, ft: &mut FileTable, file_path: &str) -> (r: Result<String, FileSystemOperationError>)
    requires
        fs_wf(disk@),
    ensures
        *final(ft) == *old(ft),
        debug_post(disk@, old(ft).root_file.dir.addr as nat, file_path@, r),
{
    let file = ft.open(disk, file_path)?;
    Ok(file.debug_text())
}

} // verus!
