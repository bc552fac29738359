pub mod error;
pub mod user;
pub mod access_key;
pub mod root_file;
pub mod file_table;
pub mod shell;
pub mod path;
pub mod bin;
pub mod thread_function;
