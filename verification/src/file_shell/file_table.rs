use vstd::prelude::*;
use crate::disk::{fs_wf, VirtualDisk};
use crate::file_shell::error::FileSystemOperationError;
use crate::file_shell::root_file::{opened_at, path_block, path_parts, RawRootFile, VFile};
use crate::file_shell::error::{path_not_found, unopened};
use crate::super_block::check_fs;
use crate::zdir::{dir_at, ZDir};

verus! {

/// Opens the files the shell works on, by path from the root directory.
#[derive(Debug)]
pub struct FileTable {
    pub root_file: RawRootFile,
}

impl FileTable {
    /// A table that finds files from `root_file`.
    pub fn init_new(root_file: RawRootFile) -> (ft: FileTable)
        ensures
            ft.root_file == root_file,
    {
        FileTable { root_file }
    }

    /// Opens the file at `addr`, as what its header says it is.
    pub fn open(&mut self, disk: &VirtualDisk, addr: &str) -> (r: Result<VFile, FileSystemOperationError>)
        requires
            fs_wf(disk@),
        ensures
            *final(self) == *old(self),
            match path_block(disk@, old(self).root_file.dir.addr as nat, path_parts(addr@)) {
                None => r matches Err(e) && path_not_found(e, addr@),
                Some(b) => match opened_at(disk@, b) {
                    Some(v) => r == Ok::<VFile, FileSystemOperationError>(v),
                    None => r matches Err(e) && unopened(e),
                },
            },
    {
        self.root_file.get_raw(disk, addr)
    }

    /// Checks the disk: its allocation table and the root directory.
    pub fn check(&mut self, disk: &VirtualDisk) -> (r: Result<String, FileSystemOperationError>)
        ensures
            *final(self) == *old(self),
            r is Ok <==> fs_wf(disk@) && dir_at(disk@, old(self).root_file.dir.addr as nat) is Some,
            r matches Ok(t) ==> t@ == "the file system is well formed"@,
            r matches Err(e) ==> e is BadStructureError,
    {
        if !check_fs(disk) {
            return Err(FileSystemOperationError::BadStructureError("the allocation table is not well formed".to_owned()));
        }
        match ZDir::open(disk, self.root_file.dir) {
            Ok(_) => Ok("the file system is well formed".to_owned()),
            Err(()) => Err(FileSystemOperationError::BadStructureError("the root directory does not open".to_owned())),
        }
    }
}

} // verus!
