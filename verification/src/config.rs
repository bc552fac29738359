use vstd::prelude::*;

verus! {

/// Size of one disk block in bytes.
pub const BLOCK_SIZE: u32 = 1024;

/// Value stored in the allocation table for a block that is not in use.
pub const NON_OCCUPY_NUM: u32 = 1135201314;

/// Value stored in the allocation table for the last block of a chain.
pub const END_NUM: u32 = 1135211314;

/// Block at which the allocation table starts.
pub const FAT_ENTRY: u32 = 1;

/// Number of allocation-table entries held by one block.
pub const ENTRIES_PER_BLOCK: u32 = 256;

} // verus!
