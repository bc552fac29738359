use vstd::prelude::*;
use crate::text::push_str;

verus! {

/// Why an operation of the file system failed, with a message.
#[derive(Debug)]
pub enum FileSystemOperationError {
    NotFoundError(String),
    TooManyArgumentsError(String),
    LockError(String),
    UnableToOpenFile(String),
    NotDirError(String),
    ExistNameError(String),
    NotFileError(String),
    WriteError(String),
    DiskError(String),
    InitError(String),
    BadStructureError(String),
    LackArgumentsError(String),
    FileCreateError(String),
    DeleteError(String),
    DirItemError(String),
    PermissionError(String),
    HostError(String),
}

/// What `format!("{:?}", ..)` shows of a text: quoted, with escapes.
pub uninterp spec fn str_debug(s: Seq<char>) -> Seq<char>;

/// The debug text of `s`, as `format!("{:?}", s)` makes it; its contract
/// names the result and says no more of it.
#[verifier::external_body]
fn debug_str(s: &str) -> (r: String)
    ensures
        r@ == str_debug(s@),
{
    format!("{:?}", s)
}

impl FileSystemOperationError {
    /// The name of the error's variant.
    pub open spec fn kind_name(&self) -> Seq<char> {
        match self {
            FileSystemOperationError::NotFoundError(_) => "NotFoundError"@,
            FileSystemOperationError::TooManyArgumentsError(_) => "TooManyArgumentsError"@,
            FileSystemOperationError::LockError(_) => "LockError"@,
            FileSystemOperationError::UnableToOpenFile(_) => "UnableToOpenFile"@,
            FileSystemOperationError::NotDirError(_) => "NotDirError"@,
            FileSystemOperationError::ExistNameError(_) => "ExistNameError"@,
            FileSystemOperationError::NotFileError(_) => "NotFileError"@,
            FileSystemOperationError::WriteError(_) => "WriteError"@,
            FileSystemOperationError::DiskError(_) => "DiskError"@,
            FileSystemOperationError::InitError(_) => "InitError"@,
            FileSystemOperationError::BadStructureError(_) => "BadStructureError"@,
            FileSystemOperationError::LackArgumentsError(_) => "LackArgumentsError"@,
            FileSystemOperationError::FileCreateError(_) => "FileCreateError"@,
            FileSystemOperationError::DeleteError(_) => "DeleteError"@,
            FileSystemOperationError::DirItemError(_) => "DirItemError"@,
            FileSystemOperationError::PermissionError(_) => "PermissionError"@,
            FileSystemOperationError::HostError(_) => "HostError"@,
        }
    }

    /// The error's message.
    pub open spec fn message(&self) -> Seq<char> {
        match self {
            FileSystemOperationError::NotFoundError(m) => m@,
            FileSystemOperationError::TooManyArgumentsError(m) => m@,
            FileSystemOperationError::LockError(m) => m@,
            FileSystemOperationError::UnableToOpenFile(m) => m@,
            FileSystemOperationError::NotDirError(m) => m@,
            FileSystemOperationError::ExistNameError(m) => m@,
            FileSystemOperationError::NotFileError(m) => m@,
            FileSystemOperationError::WriteError(m) => m@,
            FileSystemOperationError::DiskError(m) => m@,
            FileSystemOperationError::InitError(m) => m@,
            FileSystemOperationError::BadStructureError(m) => m@,
            FileSystemOperationError::LackArgumentsError(m) => m@,
            FileSystemOperationError::FileCreateError(m) => m@,
            FileSystemOperationError::DeleteError(m) => m@,
            FileSystemOperationError::DirItemError(m) => m@,
            FileSystemOperationError::PermissionError(m) => m@,
            FileSystemOperationError::HostError(m) => m@,
        }
    }

    /// The error as its derived debug text shows it: the variant's name and
    /// the quoted message in brackets.
    pub fn debug_text(&self) -> (s: String)
        ensures
            s@ == self.kind_name() + seq!['('] + str_debug(self.message()) + seq![')'],
    {
        let (name, m) = match self {
            FileSystemOperationError::NotFoundError(m) => ("NotFoundError", m.as_str()),
            FileSystemOperationError::TooManyArgumentsError(m) => ("TooManyArgumentsError", m.as_str()),
            FileSystemOperationError::LockError(m) => ("LockError", m.as_str()),
            FileSystemOperationError::UnableToOpenFile(m) => ("UnableToOpenFile", m.as_str()),
            FileSystemOperationError::NotDirError(m) => ("NotDirError", m.as_str()),
            FileSystemOperationError::ExistNameError(m) => ("ExistNameError", m.as_str()),
            FileSystemOperationError::NotFileError(m) => ("NotFileError", m.as_str()),
            FileSystemOperationError::WriteError(m) => ("WriteError", m.as_str()),
            FileSystemOperationError::DiskError(m) => ("DiskError", m.as_str()),
            FileSystemOperationError::InitError(m) => ("InitError", m.as_str()),
            FileSystemOperationError::BadStructureError(m) => ("BadStructureError", m.as_str()),
            FileSystemOperationError::LackArgumentsError(m) => ("LackArgumentsError", m.as_str()),
            FileSystemOperationError::FileCreateError(m) => ("FileCreateError", m.as_str()),
            FileSystemOperationError::DeleteError(m) => ("DeleteError", m.as_str()),
            FileSystemOperationError::DirItemError(m) => ("DirItemError", m.as_str()),
            FileSystemOperationError::PermissionError(m) => ("PermissionError", m.as_str()),
            FileSystemOperationError::HostError(m) => ("HostError", m.as_str()),
        };
        let mut s = name.to_owned();
        push_str(&mut s, "(");
        let q = debug_str(m);
        push_str(&mut s, q.as_str());
        push_str(&mut s, ")");
        proof {
            reveal_strlit("(");
            reveal_strlit(")");
        }
        s
    }
}

/// The error for a path that leads to no file: `NotFoundError`, naming
/// the path.
pub open spec fn path_not_found(e: FileSystemOperationError, path: Seq<char>) -> bool {
    e matches FileSystemOperationError::NotFoundError(m) && m@ == "we cannot found the file:"@ + path
}

/// The error for a file that is there but does not open as needed.
pub open spec fn unopened(e: FileSystemOperationError) -> bool {
    e matches FileSystemOperationError::UnableToOpenFile(m) && m@ == "the file does not open"@
}

} // verus!
