pub mod config;
pub mod addr;
pub mod function;
pub mod metadata;
pub mod disk;
pub mod bitmap;
pub mod bit_map;
pub mod block_servant;
pub mod file_io;
pub mod file_shell;
pub mod raw_file;
pub mod text;
pub mod dir_item;
pub mod dir_servant;
pub mod allocation;
pub mod zfile;
pub mod dir_edit;
pub mod zdir;
pub mod host_copy;
pub mod dir_create;
pub mod dir_delete;
pub mod dir_lookup;
pub mod super_block;
