use lib::addr::{Addr, BlockAddr, BlockCount};
use lib::block_servant::{AddrRange, BlockServantOffset, BlockServantOffsetRange, VirtualAddr, VirtualRange};
use lib::dir_item::{ItemAddr, ItemAddrRange};
use lib::function::{u32_to_vec, u8_to_u32};

#[test]
fn test() {
    let block_entry = BlockAddr::new(10);
    let vaddr = VirtualAddr::new(10);
    let blockset = BlockServantOffset::new(block_entry, vaddr);
    assert_eq!(blockset.to_addr(), Addr::new(10250));
}

#[test]
fn block_servant_test1() {
    let s = VirtualAddr::new(1023);
    let r = VirtualRange::with_size(s, 2);
    let mut i = r.iter();
    let mut pieces = vec![];
    while let Some(j) = i.next() {
        pieces.push((j.start.addr, j.end.addr));
    }
    assert_eq!(pieces, vec![(1023, 1024), (1024, 1025)]);
}

#[test]
fn addr_range_test() {
    let vr = VirtualRange::with_size(VirtualAddr::new(10), 10000);
    let range = AddrRange::from_block_servant_range(BlockServantOffsetRange::new(BlockAddr { addr: 1 }, vr));
    assert_eq!(range.start, Addr::new(1034));
    assert_eq!(range.end, Addr::new(11034));
    assert_eq!(range.len, 10000);
}

#[test]
fn test_diritemaddrrangeiter() {
    let a = ItemAddrRange::new(ItemAddr { addr: 0 }, ItemAddr { addr: 10 });
    let mut b = a.iter();
    let mut seen = vec![];
    while let Some(i) = b.next() {
        seen.push(i.addr);
    }
    assert_eq!(seen, (0..10).collect::<Vec<u32>>());
}

#[test]
fn test_api() {
    let a = "asldjalsjdlakjds";
    assert_eq!(a.len(), 16);
}

#[test]
fn function_test1() {
    let a: u32 = 12648614;
    assert_eq!(a, u8_to_u32(&u32_to_vec(a)));
}

#[test]
fn u32_bytes_are_little_endian() {
    assert_eq!(u32_to_vec(0x0403_0201), vec![1, 2, 3, 4]);
}

#[test]
fn item_offsets_skip_the_pack() {
    assert_eq!(ItemAddr::new(0).get_offset(), 8);
    assert_eq!(ItemAddr::new(3).get_offset(), 104);
}

#[test]
fn a_block_count_runs_out() {
    let mut c = BlockCount::new(2);
    assert!(c.reduce());
    assert!(c.reduce());
    assert!(!c.reduce());
    assert_eq!(c.num, 0);
}
