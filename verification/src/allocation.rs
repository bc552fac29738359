use vstd::prelude::*;
use crate::addr::BlockAddr;
use crate::bitmap::{lemma_fs_wf_entry_write, BlockBitmap};
use crate::config::{END_NUM, FAT_ENTRY};
use crate::disk::{
    chain_block, chain_wf, fat, free_count, fs_wf, in_chain, is_data_block, is_free,
    lemma_fat_in_table, num_blocks, others_kept, table_end, VirtualDisk,
};
use crate::file_shell::error::FileSystemOperationError;

verus! {

/// Block `c` is the lowest free block of the disk.
pub open spec fn lowest_free(d: Seq<u8>, c: nat) -> bool {
    &&& c < num_blocks(d)
    &&& is_free(d, c)
    &&& forall|b: nat| b < c ==> !#[trigger] is_free(d, b)
}

/// `d1` is `d0` with the lowest free block `c` taken for a new file of one
/// block: its entry marks the end of a chain, every other entry is as it
/// was, and no block in use changed.
pub open spec fn fresh_file_post(d0: Seq<u8>, d1: Seq<u8>, c: nat) -> bool {
    &&& lowest_free(d0, c)
    &&& fs_wf(d1)
    &&& fat(d1, c) == END_NUM
    &&& forall|b: nat| b < num_blocks(d0) && b != c ==> #[trigger] fat(d1, b) == fat(d0, b)
    &&& others_kept(d0, d1, c, 1)
}

/// No free block among the first `k`: none is counted.
pub proof fn lemma_free_count_none(d: Seq<u8>, k: nat)
    requires
        forall|b: nat| b < k ==> !#[trigger] is_free(d, b),
    ensures
        free_count(d, k) == 0,
    decreases k,
{
    if k > 0 {
        assert(!is_free(d, (k - 1) as nat));
        lemma_free_count_none(d, (k - 1) as nat);
    }
}

/// Taking one free block leaves one free block fewer.
pub proof fn lemma_free_count_taken(d0: Seq<u8>, d1: Seq<u8>, c: nat, k: nat)
    requires
        is_free(d0, c),
        !is_free(d1, c),
        forall|b: nat| b < k && b != c ==> #[trigger] fat(d1, b) == fat(d0, b),
    ensures
        free_count(d1, k) + (if c < k { 1nat } else { 0nat }) == free_count(d0, k),
    decreases k,
{
    if k > 0 {
        lemma_free_count_taken(d0, d1, c, (k - 1) as nat);
        if (k - 1) as nat != c {
            assert(fat(d1, (k - 1) as nat) == fat(d0, (k - 1) as nat));
        }
    }
}

/// What a new file's block gives: a chain of one block, and one free block
/// fewer.
pub proof fn lemma_fresh_file(d0: Seq<u8>, d1: Seq<u8>, c: nat)
    requires
        fs_wf(d0),
        fresh_file_post(d0, d1, c),
    ensures
        chain_wf(d1, c, 1),
        free_count(d1, num_blocks(d0)) + 1 == free_count(d0, num_blocks(d0)),
        forall|b: nat| in_chain(d0, c, 1, b) <==> b == c,
{
    assert(is_data_block(d0, c));
    assert(chain_block(d1, c, 0) == c);
    lemma_free_count_taken(d0, d1, c, num_blocks(d0));
    assert forall|b: nat| in_chain(d0, c, 1, b) <==> b == c by {
        if b == c {
            assert(chain_block(d0, c, 0) == c);
        }
    }
}

/// Block `b` is the one block of a chain of one block at `c`.
pub proof fn lemma_in_chain_one(d: Seq<u8>, c: nat, b: nat)
    ensures
        in_chain(d, c, 1, b) <==> b == c,
{
    if b == c {
        assert(chain_block(d, c, 0) == c);
    }
    if in_chain(d, c, 1, b) {
        let k = choose|k: nat| k < 1 && #[trigger] chain_block(d, c, k) == b;
        assert(k == 0);
    }
}

/// Writing only inside the new file's block keeps what taking it promised.
pub proof fn lemma_fresh_then_kept(d0: Seq<u8>, d1: Seq<u8>, d2: Seq<u8>, c: nat)
    requires
        fs_wf(d0),
        fresh_file_post(d0, d1, c),
        fs_wf(d2),
        others_kept(d1, d2, c, 1),
        forall|a: int| 0 <= a < table_end(d1) ==> #[trigger] d2[a] == d1[a],
    ensures
        fresh_file_post(d0, d2, c),
{
    crate::disk::lemma_fs_wf_table_same(d1, d2);
    assert forall|b: nat| in_chain(d0, c, 1, b) <==> b == c by { lemma_in_chain_one(d0, c, b); }
    assert forall|b: nat| in_chain(d1, c, 1, b) <==> b == c by { lemma_in_chain_one(d1, c, b); }
    assert forall|b: nat| b < num_blocks(d0) && !is_free(d0, b) && !in_chain(d0, c, 1, b)
        implies #[trigger] fat(d2, b) == fat(d0, b) by {
        assert(fat(d2, b) == fat(d1, b));
    }
    assert forall|a: int| table_end(d0) <= a < num_blocks(d0) * 1024 && !is_free(d0, (a / 1024) as nat) && !in_chain(d0, c, 1, (a / 1024) as nat)
        implies #[trigger] d2[a] == d0[a] by {
        let bl = (a / 1024) as nat;
        assert(bl < num_blocks(d0)) by (nonlinear_arith)
            requires bl == a / 1024, a < num_blocks(d0) * 1024, a >= 0;
        assert(fat(d1, bl) == fat(d0, bl));
        assert(!is_free(d1, bl));
        assert(!in_chain(d1, c, 1, bl));
        assert(d1[a] == d0[a]);
    }
    assert forall|a: int| 0 <= a < FAT_ENTRY * 1024 implies #[trigger] d2[a] == d0[a] by {
        assert(d1[a] == d0[a]);
    }
}

/// Takes the lowest free block for a new file of one block; `Err`, with
/// nothing changed, when no block is free.
pub fn take_free_block(disk: &mut VirtualDisk) -> (r: Result<BlockAddr, FileSystemOperationError>)
    requires
        fs_wf(old(disk)@),
    ensures
        match r {
            Ok(b) => {
                &&& fresh_file_post(old(disk)@, final(disk)@, b.addr as nat)
                &&& chain_wf(final(disk)@, b.addr as nat, 1)
                &&& free_count(final(disk)@, num_blocks(old(disk)@)) + 1 == free_count(old(disk)@, num_blocks(old(disk)@))
            },
            Err(e) => {
                &&& final(disk)@ == old(disk)@
                &&& free_count(old(disk)@, num_blocks(old(disk)@)) == 0
                &&& e is FileCreateError
            },
        },
{
    let ghost d0 = disk@;
    let bit_map = BlockBitmap::new(BlockAddr { addr: FAT_ENTRY }, 256, 2);
    proof { lemma_fat_in_table(d0, 0); }
    match bit_map.get_free_block(disk) {
        Ok(b) => {
            proof {
                let c = b.addr as nat;
                lemma_fs_wf_entry_write(d0, disk@, c, END_NUM);
                assert(is_free(d0, c));
                assert(is_data_block(d0, c));
                assert forall|b: nat| b < c implies !#[trigger] is_free(d0, b) by {
                    assert(crate::disk::fat_entry(d0, FAT_ENTRY as nat, b) != crate::config::NON_OCCUPY_NUM);
                }
                assert(others_kept(d0, disk@, c, 1));
                lemma_fresh_file(d0, disk@, c);
            }
            Ok(b)
        },
        Err(_) => {
            proof { lemma_free_count_none(d0, num_blocks(d0)); }
            Err(FileSystemOperationError::FileCreateError("no free block".to_owned()))
        },
    }
}

} // verus!
