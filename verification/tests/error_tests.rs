use lib::addr::BlockAddr;
use lib::disk::VirtualDisk;
use lib::file_shell::access_key::AccessKey;
use lib::file_shell::bin;
use lib::file_shell::error::FileSystemOperationError;
use lib::file_shell::file_table::FileTable;
use lib::file_shell::root_file::RawRootFile;
use lib::super_block::{SuperBlock, SuperPack};
use lib::zdir::ZDir;
use lib::zfile::ZFile;

fn formatted(blocks: usize) -> (VirtualDisk, SuperBlock, FileTable) {
    let mut disk = VirtualDisk::new(vec![0u8; blocks * 1024]);
    let sb = SuperBlock::init_main(&mut disk).unwrap();
    let ft = FileTable::init_new(RawRootFile::new(sb.root_dir_addr));
    (disk, sb, ft)
}

#[test]
fn a_free_block_does_not_open_as_a_file() {
    let (disk, _sb, _ft) = formatted(400);
    assert!(matches!(ZFile::open(&disk, BlockAddr::new(300)), Err(FileSystemOperationError::UnableToOpenFile(_))));
}

#[test]
fn listing_a_file_is_refused() {
    let (mut disk, _sb, mut ft) = formatted(400);
    bin::touch::touch(&mut disk, &mut ft, "/", "f", 1).unwrap();
    assert!(matches!(bin::ls::ls(&disk, &mut ft, "/f"), Err(FileSystemOperationError::NotDirError(_))));
    assert!(matches!(bin::touch::touch(&mut disk, &mut ft, "/f", "g", 1), Err(FileSystemOperationError::NotDirError(_))));
}

#[test]
fn reading_a_directory_as_a_file_is_refused() {
    let (mut disk, _sb, mut ft) = formatted(400);
    bin::mkdir::mkdir(&mut disk, &mut ft, "/", "d", 1).unwrap();
    let key = AccessKey::new(1, "d".to_string(), "/".to_string());
    assert!(matches!(bin::cat::cat(&disk, &mut ft, "/d", key), Err(FileSystemOperationError::NotFileError(_))));
}

#[test]
fn a_write_the_disk_cannot_hold_is_refused() {
    let (mut disk, _sb, mut ft) = formatted(8);
    bin::touch::touch(&mut disk, &mut ft, "/", "big", 1).unwrap();
    let before = disk.as_bytes().to_vec();
    let key = AccessKey::new(1, "big".to_string(), "/".to_string());
    let content = "a".repeat(6000);
    assert!(matches!(bin::write::write(&mut disk, &mut ft, "/big", content, key), Err(FileSystemOperationError::WriteError(_))));
    assert_eq!(disk.as_bytes().to_vec(), before);
    let key = AccessKey::new(1, "big".to_string(), "/".to_string());
    assert_eq!(bin::write::write(&mut disk, &mut ft, "/big", "fits".to_string(), key).unwrap(), 4);
}

#[test]
fn a_disk_too_small_is_refused() {
    let mut disk = VirtualDisk::new(vec![0u8; 2 * 1024]);
    assert!(matches!(SuperBlock::init_main(&mut disk), Err(FileSystemOperationError::DiskError(_))));
    let tiny = VirtualDisk::new(vec![0u8; 16]);
    assert!(matches!(SuperPack::load(&tiny), Err(FileSystemOperationError::DiskError(_))));
}

#[test]
fn a_super_block_of_another_disk_is_refused() {
    let (disk, _sb, _ft) = formatted(400);
    let mut bytes = disk.into_bytes();
    bytes.extend(vec![0u8; 100 * 1024]);
    let mut bigger = VirtualDisk::new(bytes);
    assert!(matches!(SuperBlock::init_main(&mut bigger), Err(FileSystemOperationError::InitError(_))));
}

#[test]
fn a_root_that_is_no_directory_fails_the_check() {
    let (disk, sb, _ft) = formatted(400);
    let mut wrong = FileTable::init_new(RawRootFile::new(BlockAddr::new(sb.root_dir_addr.addr + 5)));
    assert!(matches!(wrong.check(&disk), Err(FileSystemOperationError::BadStructureError(_))));
    assert!(matches!(bin::check::check(&disk, &mut wrong), Err(FileSystemOperationError::BadStructureError(_))));
}

#[test]
fn a_name_too_long_is_refused() {
    let (mut disk, _sb, mut ft) = formatted(400);
    let name = "n".repeat(1000);
    assert!(matches!(bin::touch::touch(&mut disk, &mut ft, "/", &name, 1), Err(FileSystemOperationError::FileCreateError(_))));
}

#[test]
fn a_name_in_an_entry_that_starts_no_name_is_not_found() {
    let (mut disk, sb, _ft) = formatted(400);
    let off = sb.root_dir_addr.addr * 1024 + 24;
    let mut entry = vec![0u8; 32];
    entry[0] = 0xFF;
    entry[1] = b'x';
    disk.write_bytes(off, &entry);
    let zd = ZDir::open(&disk, sb.root_dir_addr).unwrap();
    match zd.get_owner_id(&disk, "x") {
        Err(FileSystemOperationError::NotFoundError(m)) => assert_eq!(m, "x is not found in dir"),
        other => panic!("{:?}", other),
    }
    assert!(matches!(zd.get_owner_id(&disk, "y"), Err(FileSystemOperationError::NotFoundError(_))));
}

#[test]
fn a_long_name_fits_a_grown_directory() {
    let (mut disk, _sb, mut ft) = formatted(400);
    for i in 0..32 {
        bin::touch::touch(&mut disk, &mut ft, "/", &format!("f{}", i), 1).unwrap();
    }
    for i in 0..32 {
        let key = AccessKey::new(1, format!("f{}", i), "/".to_string());
        bin::rm::rm(&mut disk, &mut ft, "/", &format!("f{}", i), key).unwrap();
    }
    let name = "n".repeat(1000);
    bin::touch::touch(&mut disk, &mut ft, "/", &name, 1).unwrap();
    assert_eq!(bin::ls::ls(&disk, &mut ft, "/").unwrap(), format!("{}\t", name));
    let longer = "m".repeat(1025);
    assert!(matches!(bin::touch::touch(&mut disk, &mut ft, "/", &longer, 1), Err(FileSystemOperationError::FileCreateError(_))));
}
