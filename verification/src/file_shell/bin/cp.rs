use vstd::prelude::*;
use crate::disk::{fs_wf, VirtualDisk};
use crate::file_shell::access_key::AccessKey;
use crate::file_shell::error::FileSystemOperationError;
use crate::file_shell::file_table::FileTable;
use crate::file_shell::root_file::{file_cp_post, access_ok, dir_closed, file_at_path, lemma_opened_wf, open_error, path_block, path_parts, VFile};
use crate::host_copy::host_cp_spec;

verus! {

/// What copying the file at `source_path` into `dest_path` as `file_name` with the key (`uid`, `kname`, `kpath`) gives.
pub open spec fn cp_post(d0: Seq<u8>, root: nat, source_path: Seq<char>, dest_path: Seq<char>, file_name: Seq<char>, uid: u8, kname: Seq<char>, kpath: Seq<char>, d1: Seq<u8>, r: Result<(), FileSystemOperationError>) -> bool {
    match file_at_path(d0, root, source_path) {
        None => r matches Err(e) && open_error(d0, root, source_path, e)
            && d1 == d0,
        Some(v) => exists|rc: Result<(), FileSystemOperationError>| {
            &&& #[trigger] access_ok(d0, root, uid, kname, kpath, rc)
            &&& rc matches Err(e) ==> r == Err::<(), FileSystemOperationError>(e) && d1 == d0
            &&& rc is Ok ==> match v {
                VFile::ZDir(_) => r matches Err(e) && e is NotFileError && e.message() == "a file is needed here, not a directory"@ && d1 == d0,
                VFile::ZFile(f) => file_cp_post(f.raw, d0, root, dest_path, file_name,
                    uid, d1, r),
            }
        },
    }
}

/// What copying the host content `source` into `dest_path` as `file_name` owned by `owner_u_id` gives.
pub open spec fn host_cp_post(d0: Seq<u8>, root: nat, source: Option<String>, dest_path: Seq<char>, file_name: Seq<char>, owner_u_id: u8, d1: Seq<u8>, r: Result<(), FileSystemOperationError>) -> bool {
    match file_at_path(d0, root, dest_path) {
        None => r matches Err(e) && open_error(d0, root, dest_path, e)
            && d1 == d0,
        Some(VFile::ZFile(_)) => r matches Err(e) && e is NotDirError && e.message() == "a directory is needed here, not a file"@ && d1 == d0,
        Some(VFile::ZDir(z)) => match source {
            None => r matches Err(e) && e is HostError && d1 == d0,
            Some(c) => exists|s1: crate::dir_servant::DirServant, dm: Seq<u8>|
                host_cp_spec(z.servant, d0, s1, dm, c@, file_name, owner_u_id, r)
                && #[trigger] dir_closed(s1, dm, d1),
        },
    }
}


/// Copies the file at `source_path` into the directory at `dest_path` as
/// the new file `file_name`, when the user of `ackey` owns the file the key
/// names; the copy belongs to that user.
pub fn cp(disk: &mut VirtualDisk, ft: &mut FileTable, source_path: &str, dest_path: &str, file_name: &str, ackey: AccessKey) -> (r: Result<(), FileSystemOperationError>)
    requires
        fs_wf(old(disk)@),
    ensures
        *final(ft) == *old(ft),
        fs_wf(final(disk)@),
        cp_post(old(disk)@, old(ft).root_file.dir.addr as nat, source_path@, dest_path@, file_name@, ackey.u_id, ackey.access_file_name@, ackey.parent_path@, final(disk)@, r),
{
    let ghost key = ackey;
    let file = ft.open(disk, source_path)?;
    proof { lemma_opened_wf(disk@, path_block(disk@, ft.root_file.dir.addr as nat, path_parts(source_path@)).unwrap()); }
    let u_id = ackey.u_id;
    let rc = file.dir_user_check(disk, &ft.root_file, ackey);
    assert(access_ok(disk@, ft.root_file.dir.addr as nat, key.u_id, key.access_file_name@, key.parent_path@, rc));
    match rc {
        Ok(()) => file.file_cp(disk, &ft.root_file, dest_path, file_name, u_id),
        Err(e) => Err(e),
    }
}

/// Copies `source`, the content read from the host file, into the
/// directory at `dest_path` as the file `file_name` owned by `owner_u_id`;
/// `None` stands for a host file that could not be read.
pub fn host_cp(disk: &mut VirtualDisk, ft: &mut FileTable, source: Option<String>, dest_path: &str, file_name: &str, owner_u_id: u8) -> (r: Result<(), FileSystemOperationError>)
    requires
        fs_wf(old(disk)@),
    ensures
        *final(ft) == *old(ft),
        fs_wf(final(disk)@),
        host_cp_post(old(disk)@, old(ft).root_file.dir.addr as nat, source, dest_path@, file_name@, owner_u_id, final(disk)@, r),
{
    let mut dir = ft.open(disk, dest_path)?;
    proof { lemma_opened_wf(disk@, path_block(disk@, ft.root_file.dir.addr as nat, path_parts(dest_path@)).unwrap()); }
    match dir {
        VFile::ZFile(_) => Err(FileSystemOperationError::NotDirError("a directory is needed here, not a file".to_owned())),
        VFile::ZDir(_) => match source {
            None => Err(FileSystemOperationError::HostError("the host file cannot be read".to_owned())),
            Some(content) => {
                let ghost v = dir;
                let r = dir.dir_host_cp(disk, content, file_name, owner_u_id);
                proof {
                    if let VFile::ZDir(z1) = dir {
                        assert(exists|s1: crate::dir_servant::DirServant, dm: Seq<u8>|
                            host_cp_spec(v->ZDir_0.servant, old(disk)@, s1, dm, content@, file_name@, owner_u_id, r)
                            && #[trigger] dir_closed(s1, dm, disk@));
                    }
                }
                r
            },
        },
    }
}

} // verus!
