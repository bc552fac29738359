use lib::addr::{Addr, BlockAddr};
use lib::bit_map::{get_bitmap_block_num, get_block_num, BitMap};
use lib::bitmap::BlockBitmap;
use lib::dir_servant::DirServant;
use lib::disk::VirtualDisk;
use lib::file_shell::bin;
use lib::file_shell::bin::cd::{from_vec_to_path, get_args};
use lib::file_shell::error::FileSystemOperationError;
use lib::file_shell::file_table::FileTable;
use lib::file_shell::root_file::{RawRootFile, VFile};
use lib::file_shell::thread_function::{login, prompt, session_step, SessionAction, SessionEvent};
use lib::file_shell::user::UserManager;
use lib::raw_file::{FileType, RawFile};
use lib::super_block::SuperBlock;
use lib::zdir::ZDir;

fn formatted(blocks: usize) -> (VirtualDisk, SuperBlock, FileTable) {
    let mut disk = VirtualDisk::new(vec![0u8; blocks * 1024]);
    let sb = SuperBlock::init_main(&mut disk).unwrap();
    let ft = FileTable::init_new(RawRootFile::new(sb.root_dir_addr));
    (disk, sb, ft)
}

fn run(sh: &mut lib::file_shell::shell::Shell, disk: &mut VirtualDisk, ft: &mut FileTable, line: &str) -> String {
    sh.shell(disk, ft, line.to_string(), None)
}

#[test]
fn test_ls() {
    let (mut disk, _sb, mut ft) = formatted(400);
    bin::mkdir::mkdir(&mut disk, &mut ft, "/", "warth1", 1).unwrap();
    assert_eq!(bin::ls::ls(&disk, &mut ft, "/warth1").unwrap(), "");
    assert_eq!(bin::ls::ls(&disk, &mut ft, "/").unwrap(), "<warth1>\t");
}

#[test]
fn test_open_raw() {
    let (mut disk, _sb, mut ft) = formatted(400);
    assert!(matches!(ft.open(&disk, "/warth/gogo"), Err(FileSystemOperationError::NotFoundError(_))));
    bin::mkdir::mkdir(&mut disk, &mut ft, "/", "warth", 1).unwrap();
    bin::touch::touch(&mut disk, &mut ft, "/warth", "gogo", 1).unwrap();
    assert!(matches!(ft.open(&disk, "/warth/gogo"), Ok(VFile::ZFile(_))));
    assert!(matches!(ft.open(&disk, "/warth"), Ok(VFile::ZDir(_))));
}

#[test]
fn test5() {
    let mut disk = VirtualDisk::new(vec![0u8; 104857600]);
    let bm = BitMap::new(104857600, 0);
    bm.init(&mut disk);
    match bm.free_block(&mut disk) {
        Ok(block_num) => assert_eq!(block_num, 400),
        Err(e) => panic!("{:?}", e),
    }
    assert!(!bm.check_non_occupied(&disk, &Addr::new(400 * 1024)).unwrap());
    assert_eq!(bm.free_block(&mut disk).unwrap(), 401);
}

#[test]
fn a_full_bit_map_gives_no_block() {
    let mut disk = VirtualDisk::new(vec![0u8; 4 * 1024]);
    let bm = BitMap::new(4 * 1024, 0);
    bm.init(&mut disk);
    assert_eq!(bm.free_block(&mut disk).unwrap(), 1);
    assert_eq!(bm.free_block(&mut disk).unwrap(), 2);
    assert_eq!(bm.free_block(&mut disk).unwrap(), 3);
    let before = disk.as_bytes().to_vec();
    assert!(matches!(bm.free_block(&mut disk), Err(lib::bit_map::FindErr::Full)));
    assert_eq!(disk.as_bytes().to_vec(), before);
}

#[test]
fn bit_map_test1() {
    assert_eq!(get_block_num(104857600), 102400);
    assert_eq!(get_bitmap_block_num(104857600), 400);
}

#[test]
fn test3() {
    let mut disk = VirtualDisk::new(vec![0u8; 104857600]);
    let bm = BitMap::new(104857600, 0);
    bm.init(&mut disk);
    assert!(bm.check_non_occupied(&disk, &Addr::new(409600)).unwrap());
    assert!(!bm.check_non_occupied(&disk, &Addr::new(409599)).unwrap());
}

#[test]
fn test_args() {
    let mut a = RawRootFile::parse_path("/hi/howareyou/");
    let b = get_args("cd no").unwrap();
    a.push(b);
    assert_eq!(from_vec_to_path(a), "/hi/howareyou/no/");
}

#[test]
fn test_parse() {
    assert_eq!(RawRootFile::parse_path("/warth/gogo"), vec!["".to_string(), "warth".to_string(), "gogo".to_string()]);
}

#[test]
fn raw_test() {
    let (mut disk, sb, _ft) = formatted(800);
    let mut zd = ZDir::open(&disk, sb.root_dir_addr).unwrap();
    zd.mkdir(&mut disk, "warth", 0).unwrap();
    assert!(zd.status(&disk).ends_with('\n'));
    assert_eq!(zd.ls(&disk), "<warth>\t");
    let warth = zd.get_item_block_entry(&disk, "warth").unwrap();
    let warth = ZDir::open(&disk, warth).unwrap();
    assert_eq!(warth.get_item_num(), 31);
}

#[test]
fn status() {
    let (mut disk, sb, _ft) = formatted(400);
    let mut zd = ZDir::open(&disk, sb.root_dir_addr).unwrap();
    zd.mkdir(&mut disk, "dir3", 0).unwrap();
    assert!(!zd.servant.dir_empty(&disk));
    let entry = zd.get_item_block_entry(&disk, "dir3").unwrap();
    let mut dir3 = ZDir::open(&disk, entry).unwrap();
    assert_eq!(dir3.ls(&disk), "");
    dir3.close(&mut disk).unwrap();
    zd.del_item(&mut disk, "dir3").unwrap();
    assert!(zd.servant.dir_empty(&disk));
    zd.close(&mut disk).unwrap();
}

#[test]
fn dead() {
    let mut disk = VirtualDisk::new(vec![0u8; 400 * 1024]);
    let sb = SuperBlock::init_main(&mut disk).unwrap();
    let bit_map = BlockBitmap::new(BlockAddr::new(1), sb.bitmap_num, sb.root_dir_addr.addr + 1);
    let b = bit_map.get_free_block(&mut disk).unwrap();
    assert!(b.addr > sb.root_dir_addr.addr);
    let raw = RawFile::new(&mut disk, FileType::Dir, b);
    let serve = DirServant::new(raw, 0);
    assert_eq!(serve.get_block_entry(), b);
}

#[test]
fn test_new() {
    let (disk, _sb, mut ft) = formatted(400);
    assert!(matches!(ft.open(&disk, "test"), Ok(VFile::ZDir(_))));
    assert!(ft.check(&disk).is_ok());
}

#[test]
fn block_bit_map_test1() {
    let (disk, sb, _ft) = formatted(400);
    let a = BlockBitmap::new(BlockAddr::new(1), 10, 1);
    assert_eq!(a.get_content(&disk, sb.root_dir_addr), BlockAddr::new(lib::config::END_NUM));
}

#[test]
fn an_error_shows_as_its_debug_text() {
    let e = FileSystemOperationError::NotFoundError("x \"y\"".to_string());
    assert_eq!(e.debug_text(), format!("{:?}", e));
    assert_eq!(e.debug_text(), "NotFoundError(\"x \\\"y\\\"\")");
}

#[test]
fn a_session_makes_writes_and_reads_files() {
    let (mut disk, _sb, mut ft) = formatted(400);
    let users = UserManager::new();
    let mut sh = login(&users, "Warth").unwrap();
    assert_eq!(prompt(&sh), "\nWarth:/>\n\n");
    assert_eq!(run(&mut sh, &mut disk, &mut ft, "mkdir docs"), "Instruction Done!");
    assert_eq!(run(&mut sh, &mut disk, &mut ft, "ls"), "<docs>\t");
    assert_eq!(run(&mut sh, &mut disk, &mut ft, "cd docs"), "Instruction Done!");
    assert_eq!(sh.path, "/docs/");
    assert_eq!(run(&mut sh, &mut disk, &mut ft, "touch notes"), "Instruction Done!");
    assert_eq!(run(&mut sh, &mut disk, &mut ft, "write notes hello"), "5 字节被写入");
    assert_eq!(run(&mut sh, &mut disk, &mut ft, "write notes !"), "1 字节被写入");
    assert_eq!(run(&mut sh, &mut disk, &mut ft, "cat notes"), "hello!");
    assert_eq!(run(&mut sh, &mut disk, &mut ft, "cp notes copy"), "Instruction Done!");
    assert_eq!(run(&mut sh, &mut disk, &mut ft, "cat copy"), "hello!");
    assert!(run(&mut sh, &mut disk, &mut ft, "dls").starts_with("UID\tFileType\tLength\tBlockAddr\tName\t\n1\tFile\t\t22\t"));
    assert_eq!(run(&mut sh, &mut disk, &mut ft, "rm notes"), "Instruction Done!");
    assert!(run(&mut sh, &mut disk, &mut ft, "cat notes").starts_with("NotFoundError("));
    assert_eq!(run(&mut sh, &mut disk, &mut ft, "cd .."), "Instruction Done!");
    assert_eq!(sh.path, "/");
    assert!(run(&mut sh, &mut disk, &mut ft, "check").len() > 0);
}

#[test]
fn the_shell_answers_what_it_cannot_run() {
    let (mut disk, _sb, mut ft) = formatted(400);
    let users = UserManager::new();
    let mut sh = login(&users, "root").unwrap();
    assert_eq!(run(&mut sh, &mut disk, &mut ft, ""), "");
    assert_eq!(run(&mut sh, &mut disk, &mut ft, "fly away"), "Err:there is no such a command:fly away");
    assert_eq!(run(&mut sh, &mut disk, &mut ft, "shutdown"), "SHUTDOWN");
    assert_eq!(run(&mut sh, &mut disk, &mut ft, "mkdir"), "mkdir <Filename>:缺乏参数 <Filename>");
    assert_eq!(run(&mut sh, &mut disk, &mut ft, "touch"), "mkdir <Filename>:缺乏参数 <Filename>");
    assert_eq!(run(&mut sh, &mut disk, &mut ft, "cat"), "cat <File>:缺乏参数 <File>");
    assert_eq!(run(&mut sh, &mut disk, &mut ft, "write a"), "write <File> <Content>:缺乏参数 Content");
    assert_eq!(run(&mut sh, &mut disk, &mut ft, "write"), "write <File> <Content>:缺乏参数 <File>");
    assert_eq!(run(&mut sh, &mut disk, &mut ft, "rm"), "rm <File>:缺乏参数File");
    assert_eq!(run(&mut sh, &mut disk, &mut ft, "cp a"), "LackArgumentsError(\"cp <source> <dest>:缺乏参数dest\")");
    assert_eq!(run(&mut sh, &mut disk, &mut ft, "hcp a"), "hcp <Host Source> <File Name>缺乏参数<File Name>");
    assert!(run(&mut sh, &mut disk, &mut ft, "cd nowhere").starts_with("NotFoundError("));
    assert_eq!(sh.path, "/");
    assert!(run(&mut sh, &mut disk, &mut ft, "cd a b c").starts_with("TooManyArgumentsError("));
}

#[test]
fn another_user_cannot_read_a_file() {
    let (mut disk, _sb, mut ft) = formatted(400);
    let users = UserManager::new();
    let mut warth = login(&users, "Warth").unwrap();
    assert_eq!(run(&mut warth, &mut disk, &mut ft, "touch secret"), "Instruction Done!");
    let mut scut = login(&users, "SCUT").unwrap();
    assert!(run(&mut scut, &mut disk, &mut ft, "cat secret").starts_with("PermissionError("));
    assert!(run(&mut scut, &mut disk, &mut ft, "rm secret").starts_with("PermissionError("));
    assert_eq!(run(&mut warth, &mut disk, &mut ft, "cat secret"), "");
}

#[test]
fn host_copy_brings_content_in() {
    let (mut disk, _sb, mut ft) = formatted(400);
    let users = UserManager::new();
    let mut sh = login(&users, "Warth").unwrap();
    let r = sh.shell(&mut disk, &mut ft, "hcp /tmp/a imported".to_string(), Some("data".to_string()));
    assert_eq!(r, "Instruction Done!");
    assert_eq!(run(&mut sh, &mut disk, &mut ft, "cat imported"), "data");
    let r = sh.shell(&mut disk, &mut ft, "hcp /tmp/b other".to_string(), None);
    assert!(r.starts_with("HostError("));
}

#[test]
fn an_unknown_user_is_turned_away() {
    let users = UserManager::new();
    match login(&users, "bob") {
        Err(m) => assert_eq!(m, "bob is not in the user list, please contact with manager:@SCUT Zeng Jun \n"),
        Ok(_) => panic!("bob is no user"),
    }
}

#[test]
fn a_session_step_replies_or_stops() {
    let (mut disk, _sb, mut ft) = formatted(400);
    let users = UserManager::new();
    let mut sh = login(&users, "root").unwrap();
    match session_step(&mut sh, &mut disk, &mut ft, SessionEvent::Line("ls".to_string()), None) {
        SessionAction::Reply(t) => assert_eq!(t, "\n"),
        _ => panic!("a line gets a reply"),
    }
    assert!(matches!(session_step(&mut sh, &mut disk, &mut ft, SessionEvent::Closed, None), SessionAction::CheckAndStop));
    assert!(matches!(session_step(&mut sh, &mut disk, &mut ft, SessionEvent::Unreadable, None), SessionAction::Stop));
}

#[test]
fn debug_text_is_the_derived_debug() {
    let (mut disk, _sb, mut ft) = formatted(400);
    bin::mkdir::mkdir(&mut disk, &mut ft, "/", "d", 1).unwrap();
    bin::touch::touch(&mut disk, &mut ft, "/d", "f", 1).unwrap();
    let dir = ft.open(&disk, "/d").unwrap();
    assert_eq!(dir.debug_text(), format!("{:?}", dir));
    let file = ft.open(&disk, "/d/f").unwrap();
    assert_eq!(file.debug_text(), format!("{:?}", file));
    assert_eq!(bin::debug::debug(&disk, &mut ft, "/d/f").unwrap(), format!("{:?}", file));
}

#[test]
fn trim_cuts_white_space_at_both_ends() {
    assert_eq!(lib::text::trim(" \t cd x \n"), "cd x");
    assert_eq!(lib::text::trim("\u{3000}a\u{85}"), "a");
    assert_eq!(get_args("  cd   dir  ").unwrap(), "dir");
}

#[test]
fn a_built_path_is_built_again_unchanged() {
    let p = from_vec_to_path(RawRootFile::parse_path("/a/./b/../c//d/.."));
    assert_eq!(p, "/a/c/");
    assert_eq!(from_vec_to_path(RawRootFile::parse_path(&p)), p);
    assert_eq!(from_vec_to_path(RawRootFile::parse_path("/..")), "/");
}

#[test]
fn a_name_made_is_found_again() {
    let (mut disk, sb, _ft) = formatted(400);
    let mut zd = ZDir::open(&disk, sb.root_dir_addr).unwrap();
    let long = "l".repeat(70);
    zd.touch(&mut disk, &long, 0).unwrap();
    zd.touch(&mut disk, "short", 0).unwrap();
    assert_eq!(zd.get_item_block_entry(&disk, &long), Some(BlockAddr::new(sb.root_dir_addr.addr + 1)));
    assert_eq!(zd.get_item_block_entry(&disk, "short"), Some(BlockAddr::new(sb.root_dir_addr.addr + 2)));
}

#[test]
fn test4() {
    let (disk, sb, _ft) = formatted(400);
    let bytes = disk.read_bytes(16, 4);
    let a = lib::function::u8_to_u32(&bytes);
    assert_eq!(a, disk.read_u32(16));
    assert_eq!(disk.read_u32(12), sb.root_dir_addr.addr);
}

#[test]
fn a_built_path_holds_only_plain_parts() {
    let parts: Vec<String> = vec!["a", "..", ".", "", "b", "c", ".."].into_iter().map(|p| p.to_string()).collect();
    assert_eq!(from_vec_to_path(parts), "/b/");
}

#[test]
fn a_shell_rm_deletes_and_a_failed_cd_shows_the_error() {
    let (mut disk, _sb, mut ft) = formatted(400);
    let users = UserManager::new();
    let mut sh = login(&users, "Warth").unwrap();
    assert_eq!(run(&mut sh, &mut disk, &mut ft, "touch gone"), "Instruction Done!");
    assert_eq!(run(&mut sh, &mut disk, &mut ft, "ls"), "gone\t");
    assert_eq!(run(&mut sh, &mut disk, &mut ft, "rm gone"), "Instruction Done!");
    assert_eq!(run(&mut sh, &mut disk, &mut ft, "ls"), "");
    let reply = run(&mut sh, &mut disk, &mut ft, "cd gone");
    let e = bin::cd::cd(&disk, &mut ft, &sh.path, "cd gone").unwrap_err();
    assert_eq!(reply, e.debug_text());
    assert_eq!(reply, format!("{:?}", e));
    assert_eq!(sh.path, "/");
}

#[test]
fn cd_errors_name_the_line() {
    let (mut disk, _sb, mut ft) = formatted(400);
    let users = UserManager::new();
    let mut sh = login(&users, "Warth").unwrap();
    assert_eq!(run(&mut sh, &mut disk, &mut ft, "touch notes"), "Instruction Done!");
    assert_eq!(run(&mut sh, &mut disk, &mut ft, "cd notes"), "NotDirError(\"这不是一个目录:cd notes\")");
    assert_eq!(run(&mut sh, &mut disk, &mut ft, "cd a b c"), "TooManyArgumentsError(\"向cd输入了过多的参数:cd a b c\")");
    assert_eq!(run(&mut sh, &mut disk, &mut ft, "cd nowhere"), "NotFoundError(\"we cannot found the file:/nowhere/\")");
    assert_eq!(sh.path, "/");
}

#[test]
fn the_tail_of_a_long_name_is_no_name() {
    let (mut disk, _sb, mut ft) = formatted(400);
    let users = UserManager::new();
    let mut sh = login(&users, "Warth").unwrap();
    let long = format!("{}foo", "x".repeat(25));
    assert_eq!(run(&mut sh, &mut disk, &mut ft, &format!("touch {}", long)), "Instruction Done!");
    assert_eq!(run(&mut sh, &mut disk, &mut ft, "rm foo"), "NotFoundError(\"foo is not found in dir\")");
    assert_eq!(run(&mut sh, &mut disk, &mut ft, "touch foo"), "Instruction Done!");
    assert_eq!(run(&mut sh, &mut disk, &mut ft, "ls"), format!("{}\tfoo\t", long));
    assert_eq!(run(&mut sh, &mut disk, &mut ft, "rm foo"), "Instruction Done!");
    assert_eq!(run(&mut sh, &mut disk, &mut ft, "ls"), format!("{}\t", long));
}
