# lib — a small FAT-style file system with a network shell

The file system lives on a virtual disk of 1024-byte blocks: block 0 holds
the super block, the next blocks hold the allocation table (one four-byte
entry per block, chaining the blocks of each file), and the rest holds
files. A directory is a file of 32-byte entries; long names take several
entries. Users reach the file system through a line-oriented shell served
over TCP.

Layout:

- `src/` — the library, verified with Verus: disk model and allocation
  table (`disk`, `bitmap`, `bit_map`, `allocation`), files (`raw_file`,
  `file_io`, `block_servant`, `zfile`), directories (`dir_item`,
  `dir_servant`, `dir_edit`, `dir_create`, `dir_delete`, `zdir`,
  `host_copy`), formatting and mounting (`super_block`), and the shell
  (`file_shell`: paths, the file table, the commands under `bin`, the shell
  itself and the session steps).
- `app/` — the server: reads the disk image, mounts it, accepts
  connections, runs one session per connection on a thread pool, reads
  host files for `hcp`, prints the log and stores the image after each
  command.
- `tests/` — scenarios run against the compiled library.
