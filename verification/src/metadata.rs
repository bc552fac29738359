use vstd::prelude::*;

verus! {

/// Length bookkeeping of a file: bytes in use and bytes allocated.
#[derive(Debug, Clone, Copy)]
pub struct Metadata {
    pub file_len: u32,
    pub max_len: u32,
}

impl Metadata {
    pub fn new(file_len: u32, max_len: u32) -> (m: Self)
        ensures
            m.file_len == file_len,
            m.max_len == max_len,
    {
        Self { file_len, max_len }
    }

    pub fn get_file_len(&self) -> (n: u32)
        ensures
            n == self.file_len,
    {
        self.file_len
    }

    pub fn set_file_len(&mut self, file_len: u32)
        ensures
            final(self).file_len == file_len,
            final(self).max_len == old(self).max_len,
    {
        self.file_len = file_len;
    }

    pub fn get_max_len(&self) -> (n: u32)
        ensures
            n == self.max_len,
    {
        self.max_len
    }

    pub fn set_max_len(&mut self, max_len: u32)
        ensures
            final(self).max_len == max_len,
            final(self).file_len == old(self).file_len,
    {
        self.max_len = max_len;
    }
}

} // verus!
