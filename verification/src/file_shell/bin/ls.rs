use vstd::prelude::*;
use crate::dir_servant::{ls_l_head, ls_l_text, ls_text};
use crate::disk::{fs_wf, VirtualDisk};
use crate::file_shell::error::FileSystemOperationError;
use crate::file_shell::file_table::FileTable;
use crate::file_shell::root_file::{file_at_path, lemma_opened_wf, open_error, path_block, path_parts, VFile};

verus! {

/// What `ls` of `path` gives.
pub open spec fn ls_post(d0: Seq<u8>, root: nat, path: Seq<char>, r: Result<String, FileSystemOperationError>) -> bool {
    match file_at_path(d0, root, path) {
        None => r matches Err(e) && open_error(d0, root, path, e),
        Some(VFile::ZFile(_)) => r matches Err(e) && e is NotDirError && e.message() == "输入的路径指向一个文件，但是ls指令应该是目录！"@,
        Some(VFile::ZDir(z)) => r matches Ok(s) && s@ == ls_text(z.servant.items(d0), 0),
    }
}

/// What the detailed listing of `path` gives.
pub open spec fn ls_l_post(d0: Seq<u8>, root: nat, path: Seq<char>, r: Result<String, FileSystemOperationError>) -> bool {
    match file_at_path(d0, root, path) {
        None => r matches Err(e) && open_error(d0, root, path, e),
        Some(VFile::ZFile(_)) => r matches Err(e) && e is NotDirError && e.message() == "a directory is needed here, not a file"@,
        Some(VFile::ZDir(z)) => match ls_l_text(d0, z.servant.items(d0), 0) {
            Some(t) => r matches Ok(s) && s@ == ls_l_head() + t,
            None => r matches Err(e) && e is DiskError,
        },
    }
}


/// The names in the directory at `path`, as `ls` shows them.
pub fn ls(disk: &VirtualDisk, ft: &mut FileTable, path: &str) -> (r: Result<String, FileSystemOperationError>)
    requires
        fs_wf(disk@),
    ensures
        *final(ft) == *old(ft),
        ls_post(disk@, old(ft).root_file.dir.addr as nat, path@, r),
{
    let dir = ft.open(disk, path)?;
    proof { lemma_opened_wf(disk@, path_block(disk@, ft.root_file.dir.addr as nat, path_parts(path@)).unwrap()); }
    match dir {
        VFile::ZDir(zdir) => Ok(zdir.ls(disk)),
        VFile::ZFile(_) => Err(FileSystemOperationError::NotDirError("输入的路径指向一个文件，但是ls指令应该是目录！".to_owned())),
    }
}

/// The detailed listing of the directory at `path`.
pub fn ls_l(disk: &VirtualDisk, ft: &mut FileTable, path: &str) -> (r: Result<String, FileSystemOperationError>)
    requires
        fs_wf(disk@),
    ensures
        *final(ft) == *old(ft),
        ls_l_post(disk@, old(ft).root_file.dir.addr as nat, path@, r),
{
    let dir = ft.open(disk, path)?;
    proof { lemma_opened_wf(disk@, path_block(disk@, ft.root_file.dir.addr as nat, path_parts(path@)).unwrap()); }
    dir.dir_ls_l(disk)
}

} // verus!
