use lib::addr::BlockAddr;
use lib::dir_item::{DirItem, DirItemGenerateIter, ItemAddr};
use lib::dir_servant::DirServant;
use lib::disk::VirtualDisk;
use lib::file_shell::error::FileSystemOperationError;
use lib::raw_file::{FileType, RawFile};
use lib::super_block::{SuperBlock, SuperPack};
use lib::zdir::ZDir;
use lib::zfile::ZFile;

fn formatted(blocks: usize) -> (VirtualDisk, SuperBlock) {
    let mut disk = VirtualDisk::new(vec![0u8; blocks * 1024]);
    let sb = SuperBlock::init_main(&mut disk).unwrap();
    (disk, sb)
}

fn root_of(disk: &VirtualDisk, sb: &SuperBlock) -> ZDir {
    ZDir::open(disk, sb.root_dir_addr).unwrap()
}

#[test]
fn test_insert() {
    let (mut disk, sb) = formatted(400);
    let mut zd = root_of(&disk, &sb);
    zd.insert_item(&mut disk, "ABCD", FileType::Dir, 0).unwrap();
    assert_eq!(zd.ls(&disk), "<ABCD>\t");
    zd.close(&mut disk).unwrap();
}

#[test]
fn test_diritem_generator() {
    let gen = DirItemGenerateIter::new("hello world", BlockAddr { addr: 100 }, FileType::Dir, 0);
    assert_eq!(gen.len(), 1);
    let mut gen = gen;
    assert!(matches!(gen.next(), Some(DirItem::Short(_))));
    assert!(gen.next().is_none());
    let mut long = DirItemGenerateIter::new("a name long enough to need two entries", BlockAddr { addr: 100 }, FileType::File, 0);
    assert_eq!(long.len(), 2);
    assert!(matches!(long.next(), Some(DirItem::Short(_))));
    match long.next() {
        Some(DirItem::Long(l)) => assert_eq!(l.get_flag(), 255),
        _ => panic!("the second entry continues the name"),
    }
}

#[test]
fn test_get_name() {
    let (mut disk, sb) = formatted(400);
    let mut zd = root_of(&disk, &sb);
    zd.insert_item(&mut disk, "ABCD", FileType::Dir, 0).unwrap();
    zd.insert_item(&mut disk, "ABCDd", FileType::File, 0).unwrap();
    zd.close(&mut disk).unwrap();
    let raw = RawFile::open(&disk, sb.root_dir_addr).unwrap();
    let serve = DirServant::new(raw, 31);
    assert_eq!(serve.get_name(&disk, ItemAddr { addr: 1 }), "ABCDd");
    assert_eq!(serve.get_name(&disk, ItemAddr { addr: 8 }), "");
    assert_eq!(serve.command_ls(&disk), "<ABCD>\tABCDd\t");
}

#[test]
fn test1_open() {
    let (disk, sb) = formatted(400);
    let f = RawFile::open(&disk, BlockAddr { addr: sb.root_dir_addr.addr }).unwrap();
    assert_eq!(f.metadata.file_len, 1024);
    assert_eq!(f.metadata.max_len, 1024);
    assert_eq!(f.file_type, FileType::Dir);
    assert!(RawFile::open(&disk, BlockAddr { addr: 82 }).is_err());
}

#[test]
fn test_open() {
    let (disk, sb) = formatted(400);
    let zd = ZDir::open(&disk, sb.root_dir_addr).unwrap();
    assert_eq!(zd.get_item_num(), 31);
    assert_eq!(zd.get_block_entry(), sb.root_dir_addr);
    assert!(ZDir::open(&disk, BlockAddr { addr: 254 }).is_err());
}

#[test]
fn test_see() {
    let (disk, sb) = formatted(400);
    let rf = RawFile::open(&disk, sb.root_dir_addr).unwrap();
    let mut buf: Vec<u8> = vec![];
    rf.read(&disk, 0, &mut buf, 8).unwrap();
    assert_eq!(buf, vec![31, 0, 0, 0, sb.root_dir_addr.addr as u8, 0, 0, 0]);
}

#[test]
fn test_dir_item() {
    let (mut disk, sb) = formatted(400);
    let mut zd = root_of(&disk, &sb);
    for i in 1..10 {
        zd.insert_item(&mut disk, &format!("hello China{}", i), FileType::File, 0).unwrap();
    }
    zd.insert_item(&mut disk, "this is a long long long long long long long long long long item!", FileType::File, 0).unwrap();
    let listing = zd.ls(&disk);
    assert!(listing.starts_with("hello China1\thello China2\t"));
    assert!(listing.ends_with("this is a long long long long long long long long long long item!\t"));
    zd.close(&mut disk).unwrap();
}

#[test]
fn test_item() {
    let (mut disk, sb) = formatted(400);
    let mut zd = root_of(&disk, &sb);
    zd.insert_item(&mut disk, "File1", FileType::File, 3).unwrap();
    let addr = zd.get_item_block_entry(&disk, "File1").unwrap();
    let mut zd1 = ZFile::open(&disk, addr).unwrap();
    zd1.char_write(&mut disk, 0, 1, vec!['h']).unwrap();
    assert_eq!(zd1.char_read(&disk, 0, 1), vec!['h']);
    zd1.close(&mut disk).unwrap();
    assert_eq!(zd.get_owner_id(&disk, "File1").unwrap(), 3);
    zd.close(&mut disk).unwrap();
}

#[test]
fn test_zfile() {
    let (mut disk, sb) = formatted(400);
    let mut zd = root_of(&disk, &sb);
    zd.touch(&mut disk, "notes", 0).unwrap();
    let addr = zd.get_item_block_entry(&disk, "notes").unwrap();
    let mut zf = ZFile::open(&disk, addr).unwrap();
    assert_eq!(zf.write(&mut disk, "hello".to_string()).unwrap(), 5);
    zf.reduce(&mut disk, 1);
    assert_eq!(zf.cat(&disk), "hell");
    zf.close(&mut disk).unwrap();
    let again = ZFile::open(&disk, addr).unwrap();
    assert_eq!(again.cat(&disk), "hell");
}

#[test]
fn test_load() {
    let (disk, sb) = formatted(400);
    let pack = SuperPack::load(&disk).unwrap();
    assert!(pack.is_legal());
    assert_eq!(pack.block_num, 400);
    assert_eq!(pack.bitmap_num, 1);
    assert_eq!(pack.root_dir_addr, sb.root_dir_addr);
    assert!(!pack.first_init);
}

#[test]
fn names_are_unique_in_a_directory() {
    let (mut disk, sb) = formatted(400);
    let mut zd = root_of(&disk, &sb);
    zd.mkdir(&mut disk, "d", 0).unwrap();
    assert!(matches!(zd.touch(&mut disk, "d", 0), Err(FileSystemOperationError::ExistNameError(_))));
}

#[test]
fn a_new_file_takes_the_lowest_free_block() {
    let (mut disk, sb) = formatted(400);
    let mut zd = root_of(&disk, &sb);
    zd.mkdir(&mut disk, "first", 0).unwrap();
    zd.touch(&mut disk, "second", 0).unwrap();
    let root = sb.root_dir_addr.addr;
    assert_eq!(zd.get_item_block_entry(&disk, "first"), Some(BlockAddr::new(root + 1)));
    assert_eq!(zd.get_item_block_entry(&disk, "second"), Some(BlockAddr::new(root + 2)));
}

#[test]
fn deleting_frees_the_name_and_the_block() {
    let (mut disk, sb) = formatted(400);
    let mut zd = root_of(&disk, &sb);
    zd.touch(&mut disk, "gone", 0).unwrap();
    let b = zd.get_item_block_entry(&disk, "gone").unwrap();
    zd.del_item(&mut disk, "gone").unwrap();
    assert_eq!(zd.get_item_block_entry(&disk, "gone"), None);
    assert!(matches!(zd.del_item(&mut disk, "gone"), Err(FileSystemOperationError::NotFoundError(_))));
    zd.touch(&mut disk, "again", 0).unwrap();
    assert_eq!(zd.get_item_block_entry(&disk, "again"), Some(b));
}

#[test]
fn a_directory_with_files_is_not_deleted() {
    let (mut disk, sb) = formatted(400);
    let mut zd = root_of(&disk, &sb);
    zd.mkdir(&mut disk, "sub", 0).unwrap();
    let b = zd.get_item_block_entry(&disk, "sub").unwrap();
    let mut sub = ZDir::open(&disk, b).unwrap();
    sub.touch(&mut disk, "inner", 0).unwrap();
    sub.close(&mut disk).unwrap();
    assert!(matches!(zd.del_item(&mut disk, "sub"), Err(FileSystemOperationError::DeleteError(_))));
}

#[test]
fn a_full_directory_grows() {
    let (mut disk, sb) = formatted(400);
    let mut zd = root_of(&disk, &sb);
    for i in 0..32 {
        zd.touch(&mut disk, &format!("f{}", i), 0).unwrap();
    }
    assert_eq!(zd.get_item_num(), 63);
    zd.close(&mut disk).unwrap();
    let again = ZDir::open(&disk, sb.root_dir_addr).unwrap();
    assert_eq!(again.get_item_num(), 63);
    assert!(again.get_item_block_entry(&disk, "f31").is_some());
}

#[test]
fn name_zones_put_together_give_the_name() {
    let name = "a name long enough to need three entries of the directory";
    let mut gen = DirItemGenerateIter::new(name, BlockAddr { addr: 7 }, FileType::File, 2);
    assert_eq!(gen.len(), 3);
    let mut all: Vec<u8> = Vec::new();
    while let Some(item) = gen.next() {
        match item {
            DirItem::Short(s) => all.extend(s.get_name_zone()),
            DirItem::Long(l) => all.extend(l.get_name_zone()),
            DirItem::Empty => panic!("no empty entry is made"),
        }
    }
    assert_eq!(all, name.as_bytes().to_vec());
}

#[test]
fn a_new_directory_opens_empty() {
    let (mut disk, sb) = formatted(400);
    let mut zd = root_of(&disk, &sb);
    zd.mkdir(&mut disk, "sub", 4).unwrap();
    let b = zd.get_item_block_entry(&disk, "sub").unwrap();
    let sub = ZDir::open(&disk, b).unwrap();
    assert_eq!(sub.get_item_num(), 31);
    assert_eq!(sub.ls(&disk), "");
    assert_eq!(zd.ls(&disk), "<sub>\t");
}

#[test]
fn reducing_past_the_start_empties_the_file() {
    let (mut disk, sb) = formatted(400);
    let mut zd = root_of(&disk, &sb);
    zd.touch(&mut disk, "notes", 0).unwrap();
    let addr = zd.get_item_block_entry(&disk, "notes").unwrap();
    let mut zf = ZFile::open(&disk, addr).unwrap();
    zf.write(&mut disk, "hello".to_string()).unwrap();
    zf.reduce(&mut disk, 2);
    assert_eq!(zf.cat(&disk), "hel");
    zf.reduce(&mut disk, 10);
    assert_eq!(zf.cat(&disk), "");
}

#[test]
fn a_copy_over_a_longer_file_keeps_its_end() {
    let (mut disk, sb) = formatted(400);
    let mut zd = root_of(&disk, &sb);
    zd.touch(&mut disk, "short", 0).unwrap();
    zd.touch(&mut disk, "long", 0).unwrap();
    let a = zd.get_item_block_entry(&disk, "short").unwrap();
    let b = zd.get_item_block_entry(&disk, "long").unwrap();
    let mut short = ZFile::open(&disk, a).unwrap();
    short.write(&mut disk, "hi".to_string()).unwrap();
    let mut long = ZFile::open(&disk, b).unwrap();
    long.write(&mut disk, "hello!".to_string()).unwrap();
    long.cp_from(&mut disk, &short).unwrap();
    assert_eq!(long.cat(&disk), "hillo!");
    assert_eq!(short.cat(&disk), "hi");
}

#[test]
fn reducing_a_file_frees_the_blocks_past_its_end() {
    let (mut disk, sb) = formatted(400);
    let mut zd = root_of(&disk, &sb);
    zd.touch(&mut disk, "big", 0).unwrap();
    let addr = zd.get_item_block_entry(&disk, "big").unwrap();
    let mut zf = ZFile::open(&disk, addr).unwrap();
    zf.write(&mut disk, "x".repeat(2000)).unwrap();
    let table = lib::bitmap::BlockBitmap::new(BlockAddr::new(1), 10, 1);
    let second = table.get_content(&disk, addr);
    assert_ne!(second, BlockAddr::new(lib::config::END_NUM));
    zf.reduce(&mut disk, 1990);
    zf.close(&mut disk).unwrap();
    assert_eq!(table.get_content(&disk, addr), BlockAddr::new(lib::config::END_NUM));
    assert_eq!(zf.cat(&disk), "x".repeat(10));
    zd.touch(&mut disk, "small", 0).unwrap();
    assert_eq!(zd.get_item_block_entry(&disk, "small").unwrap(), second);
}
