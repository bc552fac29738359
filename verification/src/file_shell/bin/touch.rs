use vstd::prelude::*;
use crate::disk::{fs_wf, VirtualDisk};
use crate::file_shell::error::FileSystemOperationError;
use crate::file_shell::file_table::FileTable;
use crate::file_shell::root_file::{entry_made, file_at_path, lemma_opened_wf, open_error, path_block, path_parts, VFile};
use crate::raw_file::FileType;

verus! {

/// What making the file `file_name` in the directory at `current_path` gives.
pub open spec fn touch_post(d0: Seq<u8>, root: nat, current_path: Seq<char>, file_name: Seq<char>, owner_u_id: u8, d1: Seq<u8>, r: Result<(), FileSystemOperationError>) -> bool {
    match file_at_path(d0, root, current_path) {
        None => r matches Err(e) && open_error(d0, root, current_path, e)
            && d1 == d0,
        Some(VFile::ZFile(_)) => r matches Err(e) && e is NotDirError && e.message() == "touch:这里需要一个目录，但是这里却是文件"@ && d1 == d0,
        Some(VFile::ZDir(z)) => exists|s1: crate::dir_servant::DirServant|
            #[trigger] entry_made(z.servant, d0, s1, d1, file_name, FileType::File, owner_u_id, r),
    }
}


/// Makes the empty file `file_name`, owned by `owner_u_id`, in the
/// directory at `current_path`.
pub fn touch(disk: &mut VirtualDisk, ft: &mut FileTable, current_path: &str, file_name: &str, owner_u_id: u8) -> (r: Result<(), FileSystemOperationError>)
    requires
        fs_wf(old(disk)@),
    ensures
        *final(ft) == *old(ft),
        fs_wf(final(disk)@),
        touch_post(old(disk)@, old(ft).root_file.dir.addr as nat, current_path@, file_name@, owner_u_id, final(disk)@, r),
{
    let mut dir = ft.open(disk, current_path)?;
    proof { lemma_opened_wf(disk@, path_block(disk@, ft.root_file.dir.addr as nat, path_parts(current_path@)).unwrap()); }
    dir.dir_touch(disk, file_name, owner_u_id)
}

} // verus!
