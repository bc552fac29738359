use vstd::prelude::*;

verus! {

/// What a user asks to reach: the file named `access_file_name` in the
/// directory at `parent_path`, as user `u_id`.
#[derive(Debug)]
pub struct AccessKey {
    pub u_id: u8,
    pub access_file_name: String,
    pub parent_path: String,
}

impl AccessKey {
    pub fn new(u_id: u8, access_file_name: String, parent_path: String) -> (k: Self)
        ensures
            k.u_id == u_id,
            k.access_file_name == access_file_name,
            k.parent_path == parent_path,
    {
        Self { u_id, access_file_name, parent_path }
    }
}

} // verus!
