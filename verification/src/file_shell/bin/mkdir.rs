use vstd::prelude::*;
use crate::disk::{fs_wf, VirtualDisk};
use crate::file_shell::error::FileSystemOperationError;
use crate::file_shell::file_table::FileTable;
use crate::file_shell::root_file::{entry_made, file_at_path, lemma_opened_wf, open_error, path_block, path_parts, VFile};
use crate::raw_file::FileType;

verus! {

/// What making the directory `dir_name` in the directory at `current_path` gives.
pub open spec fn mkdir_post(d0: Seq<u8>, root: nat, current_path: Seq<char>, dir_name: Seq<char>, owner_u_id: u8, d1: Seq<u8>, r: Result<(), FileSystemOperationError>) -> bool {
    match file_at_path(d0, root, current_path) {
        None => r matches Err(e) && open_error(d0, root, current_path, e)
            && d1 == d0,
        Some(VFile::ZFile(_)) => r is Ok && d1 == d0,
        Some(VFile::ZDir(z)) => r is Ok && exists|s1: crate::dir_servant::DirServant, rm: Result<(), FileSystemOperationError>|
            #[trigger] entry_made(z.servant, d0, s1, d1, dir_name, FileType::Dir, owner_u_id, rm),
    }
}


/// Makes the directory `dir_name`, owned by `owner_u_id`, in the directory
/// at `current_path`. Only opening the directory can fail: what making the
/// entry gives is not reported.
pub fn mkdir(disk: &mut VirtualDisk, ft: &mut FileTable, current_path: &str, dir_name: &str, owner_u_id: u8) -> (r: Result<(), FileSystemOperationError>)
    requires
        fs_wf(old(disk)@),
    ensures
        *final(ft) == *old(ft),
        fs_wf(final(disk)@),
        mkdir_post(old(disk)@, old(ft).root_file.dir.addr as nat, current_path@, dir_name@, owner_u_id, final(disk)@, r),
{
    let mut dir = ft.open(disk, current_path)?;
    proof { lemma_opened_wf(disk@, path_block(disk@, ft.root_file.dir.addr as nat, path_parts(current_path@)).unwrap()); }
    let _ = dir.dir_mkdir(disk, dir_name, owner_u_id);
    Ok(())
}

} // verus!
