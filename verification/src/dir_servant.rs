use vstd::prelude::*;
use crate::addr::BlockAddr;
use crate::dir_item::ShortDirItem;
use crate::block_servant::{blocks_needed, MAX_VADDR};
use crate::dir_item::{
    item_offset, item_zone, name_from, zone_of, DirItem, DirRawItem, ItemAddr, ITEM_SIZE,
    LONG_END_FLAG, NON_USE_FLAG, SHORT_FLAG,
};
use crate::disk::{file_range, free_count, fs_wf, num_blocks, others_kept, VirtualDisk};
use crate::file_shell::error::FileSystemOperationError;
use crate::function::le_u32;
use crate::raw_file::{spec_read, write_post, FileType, RawFile, ZFILE_SIZE};
use crate::text::{concat, decimal, push_char, push_str, string_from_chars, u32_to_decimal};
use crate::disk::{is_free};
use crate::raw_file::{decode_header, file_len_at};

verus! {

/// Stored bytes of entry `i` of the directory held by file `raw`.
pub open spec fn dir_item_bytes(d: Seq<u8>, raw: RawFile, i: nat) -> Seq<u8> {
    file_range(d, raw.entry(), (ZFILE_SIZE + item_offset(i)) as nat, 32)
}

/// The first `num` entries of the directory held by file `raw`.
pub open spec fn dir_items(d: Seq<u8>, raw: RawFile, num: nat) -> Seq<Seq<u8>> {
    Seq::new(num, |i: int| dir_item_bytes(d, raw, i as nat))
}

/// Bytes read as characters, one character per byte.
pub open spec fn bytes_to_chars(s: Seq<u8>) -> Seq<char> {
    Seq::new(s.len(), |i: int| s[i] as char)
}

/// The name of the entry `i` of a table, as characters.
pub open spec fn name_chars(items: Seq<Seq<u8>>, i: nat) -> Seq<char> {
    bytes_to_chars(name_from(items, i, false))
}

/// The first entry of a table that starts a name and whose name is
/// `name`, from entry `i` on.
pub open spec fn first_named(items: Seq<Seq<u8>>, name: Seq<char>, i: nat) -> Option<nat>
    decreases items.len() - i,
{
    if i >= items.len() {
        None
    } else if items[i as int][0] == SHORT_FLAG && name_chars(items, i) == name {
        Some(i)
    } else {
        first_named(items, name, i + 1)
    }
}


/// The block where the file of a first entry starts.
pub open spec fn item_entry(b: Seq<u8>) -> u32 {
    le_u32(b[1], b[2], b[3], b[4]) as u32
}

/// The line `ls` gives for entry `i`: directories in angle brackets, every
/// name followed by a tab; nothing for entries that do not start a name.
pub open spec fn ls_entry(items: Seq<Seq<u8>>, i: nat) -> Seq<char> {
    if items[i as int][0] == SHORT_FLAG {
        if items[i as int][5] == 1 {
            seq!['<'] + name_chars(items, i) + seq!['>', '\t']
        } else {
            name_chars(items, i) + seq!['\t']
        }
    } else {
        Seq::empty()
    }
}

/// What `ls` gives for the entries from `i` on.
pub open spec fn ls_text(items: Seq<Seq<u8>>, i: nat) -> Seq<char>
    decreases items.len() - i,
{
    if i >= items.len() {
        Seq::empty()
    } else {
        ls_entry(items, i) + ls_text(items, i + 1)
    }
}

/// The word for an entry's flag in a status listing.
pub open spec fn status_word(f: u8) -> Seq<char> {
    if f == NON_USE_FLAG {
        seq!['N', 'o', 'n', 'e', '\t']
    } else if f == SHORT_FLAG {
        seq!['S', 'h', 'o', 'r', 't', '\t']
    } else if f == LONG_END_FLAG {
        seq!['E', 'n', 'd', '\t']
    } else {
        seq!['L', 'o', 'n', 'g', '\t']
    }
}

/// The status listing from entry `i` on: a line break before every eighth
/// word.
pub open spec fn status_text(items: Seq<Seq<u8>>, i: nat) -> Seq<char>
    decreases items.len() - i,
{
    if i >= items.len() {
        Seq::empty()
    } else {
        (if (i + 1) % 8 == 0 { seq!['\n'] } else { Seq::empty() }) + status_word(items[i as int][0]) + status_text(items, i + 1)
    }
}

/// The line of the detailed listing for entry `i`, given its file's length.
pub open spec fn ls_l_line(items: Seq<Seq<u8>>, i: nat, len: u32) -> Seq<char> {
    decimal(items[i as int][6] as nat) + seq!['\t']
        + (if items[i as int][5] == 1 { seq!['D', 'i', 'r'] } else { seq!['F', 'i', 'l', 'e'] })
        + seq!['\t', '\t'] + decimal(len as nat) + seq!['\t'] + decimal(item_entry(items[i as int]) as nat)
        + seq!['\t', '\t'] + name_chars(items, i) + seq!['\t', '\n']
}

/// The detailed listing names each entry it shows: the line of an entry
/// ends with the entry's full name, as `ls` shows it, then a tab and a
/// line break.
pub proof fn law_ls_l_line_names(items: Seq<Seq<u8>>, i: nat, len: u32)
    requires
        i < items.len(),
    ensures
        ({
            let line = ls_l_line(items, i, len);
            let tail = name_chars(items, i) + seq!['\t', '\n'];
            &&& line.len() >= tail.len()
            &&& line.subrange(line.len() - tail.len(), line.len() as int) == tail
        }),
{
    let line = ls_l_line(items, i, len);
    let tail = name_chars(items, i) + seq!['\t', '\n'];
    let head = decimal(items[i as int][6] as nat) + seq!['\t']
        + (if items[i as int][5] == 1 { seq!['D', 'i', 'r'] } else { seq!['F', 'i', 'l', 'e'] })
        + seq!['\t', '\t'] + decimal(len as nat) + seq!['\t'] + decimal(item_entry(items[i as int]) as nat)
        + seq!['\t', '\t'];
    assert(line =~= head + tail);
    assert(line.subrange(line.len() - tail.len(), line.len() as int) =~= tail);
}

/// The detailed listing from entry `i` on, or `None` when the file of one
/// of its entries does not open.
pub open spec fn ls_l_text(d: Seq<u8>, items: Seq<Seq<u8>>, i: nat) -> Option<Seq<char>>
    decreases items.len() - i,
{
    if i >= items.len() {
        Some(Seq::empty())
    } else if items[i as int][0] != SHORT_FLAG {
        ls_l_text(d, items, i + 1)
    } else {
        match file_len_at(d, item_entry(items[i as int]) as nat) {
            None => None,
            Some(len) => match ls_l_text(d, items, i + 1) {
                None => None,
                Some(rest) => Some(ls_l_line(items, i, len) + rest),
            },
        }
    }
}

/// The header line of the detailed listing.
pub open spec fn ls_l_head() -> Seq<char> {
    "UID\tFileType\tLength\tBlockAddr\tName\t\n"@
}

/// The first entry whose name is `name`, as an entry number.
pub open spec fn named_addr(items: Seq<Seq<u8>>, name: Seq<char>) -> Option<ItemAddr> {
    match first_named(items, name, 0) {
        Some(i) => Some(ItemAddr { addr: i as u32 }),
        None => None,
    }
}

/// A name found from entry `k` on lies at or after `k`, inside the table,
/// at an entry that starts a name.
pub proof fn lemma_first_named_bound(items: Seq<Seq<u8>>, name: Seq<char>, k: nat)
    ensures
        first_named(items, name, k) matches Some(i) ==> k <= i < items.len() && items[i as int][0] == SHORT_FLAG,
    decreases items.len() - k,
{
    if k < items.len() && !(items[k as int][0] == SHORT_FLAG && name_chars(items, k) == name) {
        lemma_first_named_bound(items, name, k + 1);
    }
}

/// What `named_addr` gives is the first entry with the name.
pub proof fn lemma_named_addr(items: Seq<Seq<u8>>, name: Seq<char>)
    requires
        items.len() <= u32::MAX,
    ensures
        named_addr(items, name) matches Some(a) ==> first_named(items, name, 0) == Some(a.addr as nat) && a.addr < items.len()
            && items[a.addr as int][0] == SHORT_FLAG,
        named_addr(items, name) is None ==> first_named(items, name, 0) is None,
{
    lemma_first_named_bound(items, name, 0);
}

/// Keeps the entries of a directory: the file that holds them and how many
/// there are.
#[derive(Debug)]
pub struct DirServant {
    pub raw: RawFile,
    pub num: u32,
}

impl DirServant {
    /// Entries a directory's first block holds: one entry's room goes to the
    /// headers.
    pub const DIR_INIT_BLOCK_NUM: usize = 31;

    /// Entries each further block holds.
    pub const DIR_BLOCK_NUM: usize = 32;

    /// The directory's file is well formed and holds its header, its
    /// entries and the 8 zero bytes that end a directory's first block,
    /// nothing more.
    pub open spec fn wf(&self, d: Seq<u8>) -> bool {
        &&& self.raw.wf(d)
        &&& ZFILE_SIZE + item_offset(self.num as nat) + 8 == self.raw.metadata.file_len
        &&& self.tail(d) == crate::dir_edit::zeros(8)
    }

    /// The 8 bytes after the entries, which end the directory's file.
    pub open spec fn tail(&self, d: Seq<u8>) -> Seq<u8> {
        file_range(d, self.raw.entry(), (ZFILE_SIZE + item_offset(self.num as nat)) as nat, 8)
    }

    /// The directory's entries.
    pub open spec fn items(&self, d: Seq<u8>) -> Seq<Seq<u8>> {
        dir_items(d, self.raw, self.num as nat)
    }

    /// The directory's file, to change in place.
    pub fn file(&mut self) -> (f: &mut RawFile)
        ensures
            *f == old(self).raw,
            *final(self) == (DirServant { raw: *final(f), num: old(self).num }),
    {
        &mut self.raw
    }

    /// A directory kept in file `raw` with `num` entries.
    pub fn new(raw: RawFile, num: u32) -> (s: Self)
        ensures
            s.raw == raw,
            s.num == num,
    {
        Self { raw, num }
    }

    /// The first block of the directory.
    pub fn get_block_entry(&self) -> (b: BlockAddr)
        ensures
            b == self.raw.block_servant.entry,
    {
        self.raw.get_block_entry()
    }

    /// The number of entries.
    pub fn get_item_num(&self) -> (n: u32)
        ensures
            n == self.num,
    {
        self.num
    }

    /// Reads entry `addr`.
    pub(crate) fn get_item(&self, disk: &VirtualDisk, addr: ItemAddr) -> (r: Result<DirRawItem, ()>)
        requires
            self.wf(disk@),
            addr.addr < self.num,
        ensures
            r is Ok,
            r->Ok_0.bytes() == dir_item_bytes(disk@, self.raw, addr.addr as nat),
    {
        proof { lemma_item_fits(self.num as nat, addr.addr as nat); }
        let mut buf: Vec<u8> = Vec::new();
        let res = self.raw.read(disk, addr.get_offset(), &mut buf, ITEM_SIZE as u32);
        let mut temp: [u8; ITEM_SIZE] = [0u8; ITEM_SIZE];
        let mut i: usize = 0;
        while i < ITEM_SIZE
            invariant
                i <= ITEM_SIZE,
                buf@ == dir_item_bytes(disk@, self.raw, addr.addr as nat),
                temp@.len() == 32,
                forall|j: int| 0 <= j < i ==> temp@[j] == buf@[j],
            decreases ITEM_SIZE - i,
        {
            temp[i] = buf[i];
            i = i + 1;
        }
        assert(temp@ =~= buf@);
        Ok(DirRawItem::from_u8(temp))
    }

    /// The flag of entry `addr`.
    pub(crate) fn get_flag(&self, disk: &VirtualDisk, addr: ItemAddr) -> (f: u8)
        requires
            self.wf(disk@),
            addr.addr < self.num,
        ensures
            f == dir_item_bytes(disk@, self.raw, addr.addr as nat)[0],
    {
        let item = match self.get_item(disk, addr) {
            Ok(i) => i,
            Err(_) => DirRawItem { flag: NON_USE_FLAG, reserved: [0u8; 31] },
        };
        match item.into_dir_item().get_flag() {
            Ok(f) => f,
            Err(_) => NON_USE_FLAG,
        }
    }

    /// The name stored from entry `addr` on, one character per byte.
    pub fn get_name(&self, disk: &VirtualDisk, addr: ItemAddr) -> (s: String)
        requires
            self.wf(disk@),
            addr.addr < self.num,
        ensures
            s@ == name_chars(self.items(disk@), addr.addr as nat),
    {
        let raw = self.get_name_raw(disk, addr);
        let mut ans: Vec<char> = Vec::new();
        let mut i: usize = 0;
        while i < raw.len()
            invariant
                i <= raw@.len(),
                ans@ == bytes_to_chars(raw@.subrange(0, i as int)),
            decreases raw@.len() - i,
        {
            ans.push(raw[i] as char);
            i = i + 1;
            assert(ans@ =~= bytes_to_chars(raw@.subrange(0, i as int)));
        }
        assert(raw@.subrange(0, raw@.len() as int) =~= raw@);
        string_from_chars(&ans)
    }

    /// The first entry whose name is `name`.
    pub(crate) fn has_name(&self, disk: &VirtualDisk, name: &str) -> (r: Option<ItemAddr>)
        requires
            self.wf(disk@),
        ensures
            r == named_addr(self.items(disk@), name@),
    {
        let table = self.load_items(disk);
        assert(table_bytes(table@).len() == table@.len());
        table_has_name(&table, name)
    }

    /// The block of the file named `name`; `None` when no entry that
    /// starts a name has that name.
    pub fn find_item(&self, disk: &VirtualDisk, name: &str) -> (r: Option<BlockAddr>)
        requires
            self.wf(disk@),
        ensures
            r == match first_named(self.items(disk@), name@, 0) {
                Some(i) => Some(BlockAddr { addr: item_entry(self.items(disk@)[i as int]) }),
                None => None,
            },
    {
        let table = self.load_items(disk);
        assert(table_bytes(table@).len() == table@.len());
        let found = table_has_name(&table, name);
        proof { lemma_named_addr(self.items(disk@), name@); }
        match found {
            Some(i) => Some(table_item_entry(&table, i)),
            None => None,
        }
    }

    /// The block of the file of entry `addr`, which starts a name.
    pub fn get_item_block_entry(&self, disk: &VirtualDisk, addr: ItemAddr) -> (b: BlockAddr)
        requires
            self.wf(disk@),
            addr.addr < self.num,
            self.items(disk@)[addr.addr as int][0] == SHORT_FLAG,
        ensures
            b.addr == item_entry(self.items(disk@)[addr.addr as int]),
    {
        let table = self.load_items(disk);
        assert(table_bytes(table@).len() == table@.len());
        table_item_entry(&table, addr)
    }

    /// What `ls` shows: the names of the directory's files, directories in
    /// angle brackets, each followed by a tab.
    pub fn command_ls(&self, disk: &VirtualDisk) -> (s: String)
        requires
            self.wf(disk@),
        ensures
            s@ == ls_text(self.items(disk@), 0),
    {
        let table = self.load_items(disk);
        let ghost items = table_bytes(table@);
        assert(items.len() == table@.len());
        let mut ans = String::new();
        let mut i: usize = table.len();
        let ghost mut acc: Seq<char> = Seq::empty();
        let mut parts: Vec<String> = Vec::new();
        let mut k: usize = 0;
        while k < table.len()
            invariant
                items == table_bytes(table@),
                k <= table@.len(),
                table@.len() <= u32::MAX,
                ans@ + ls_text(items, k as nat) == ls_text(items, 0),
            decreases table@.len() - k,
        {
            let ghost before = ans@;
            let d = table_dir_item(&table, k as u32);
            match d {
                DirItem::Short(item) => {
                    let name = table_name(&table, ItemAddr::new(k as u32));
                    match item.get_type() {
                        FileType::Dir => {
                            push_char(&mut ans, '<');
                            push_str(&mut ans, name.as_str());
                            push_char(&mut ans, '>');
                            push_char(&mut ans, '\t');
                        },
                        FileType::File => {
                            push_str(&mut ans, name.as_str());
                            push_char(&mut ans, '\t');
                        },
                    }
                    assert(ans@ =~= before + ls_entry(items, k as nat));
                },
                _ => {
                    assert(ls_entry(items, k as nat) =~= Seq::<char>::empty());
                    assert(ans@ =~= before + ls_entry(items, k as nat));
                },
            }
            assert(ls_text(items, k as nat) == ls_entry(items, k as nat) + ls_text(items, (k + 1) as nat));
            k = k + 1;
            assert(ans@ + ls_text(items, k as nat) =~= ls_text(items, 0));
        }
        assert(ans@ =~= ls_text(items, 0));
        ans
    }

    /// The status listing: one word per entry for its kind.
    pub fn item_status(&self, disk: &VirtualDisk) -> (s: String)
        requires
            self.wf(disk@),
        ensures
            s@ == status_text(self.items(disk@), 0),
    {
        let table = self.load_items(disk);
        let ghost items = table_bytes(table@);
        assert(items.len() == table@.len());
        let mut ans = String::new();
        let mut k: usize = 0;
        while k < table.len()
            invariant
                items == table_bytes(table@),
                k <= table@.len(),
                ans@ + status_text(items, k as nat) == status_text(items, 0),
            decreases table@.len() - k,
        {
            let ghost before = ans@;
            if (k + 1) % 8 == 0 {
                push_char(&mut ans, '\n');
            }
            let flag = table[k].flag;
            assert(flag == items[k as int][0]);
            if flag == NON_USE_FLAG {
                push_str(&mut ans, "None\t");
            } else if flag == SHORT_FLAG {
                push_str(&mut ans, "Short\t");
            } else if flag == LONG_END_FLAG {
                push_str(&mut ans, "End\t");
            } else {
                push_str(&mut ans, "Long\t");
            }
            proof {
                reveal_strlit("None\t");
                reveal_strlit("Short\t");
                reveal_strlit("End\t");
                reveal_strlit("Long\t");
            }
            assert(ans@ =~= before + (if (k + 1) % 8 == 0 { seq!['\n'] } else { Seq::<char>::empty() }) + status_word(flag));
            k = k + 1;
            assert(ans@ + status_text(items, k as nat) =~= status_text(items, 0));
        }
        assert(ans@ =~= status_text(items, 0));
        ans
    }

    /// Whether no entry starts a name: the directory holds no file.
    pub fn dir_empty(&self, disk: &VirtualDisk) -> (b: bool)
        requires
            self.wf(disk@),
        ensures
            b == forall|i: int| 0 <= i < self.num ==> self.items(disk@)[i][0] != SHORT_FLAG,
    {
        let table = self.load_items(disk);
        let ghost items = table_bytes(table@);
        assert(items.len() == table@.len());
        let mut k: usize = 0;
        while k < table.len()
            invariant
                items == table_bytes(table@),
                items == self.items(disk@),
                items.len() == table@.len(),
                k <= table@.len(),
                forall|i: int| 0 <= i < k ==> items[i][0] != SHORT_FLAG,
            decreases table@.len() - k,
        {
            if table[k].flag == SHORT_FLAG {
                assert(items[k as int][0] == SHORT_FLAG);
                assert(self.items(disk@)[k as int][0] == SHORT_FLAG);
                assert(k < self.num);
                return false;
            }
            k = k + 1;
        }
        true
    }

    /// The owner of the file named `name`.
    pub fn get_owner_id(&self, disk: &VirtualDisk, name: &str) -> (r: Result<u8, FileSystemOperationError>)
        requires
            self.wf(disk@),
        ensures
            match first_named(self.items(disk@), name@, 0) {
                Some(i) => r == Ok::<u8, FileSystemOperationError>(self.items(disk@)[i as int][6]),
                None => r matches Err(FileSystemOperationError::NotFoundError(m)) && m@ == name@ + " is not found in dir"@,
            },
    {
        let table = self.load_items(disk);
        assert(table_bytes(table@).len() == table@.len());
        let found = table_has_name(&table, name);
        proof { lemma_named_addr(self.items(disk@), name@); }
        match found {
            Some(s) => {
                let diritem = table_dir_item(&table, s.addr);
                proof {
                    let b = table_bytes(table@)[s.addr as int];
                    assert(b.subrange(1, 32)[5] == b[6]);
                }
                diritem.get_user_id()
            },
            None => Err(FileSystemOperationError::NotFoundError(concat(name, " is not found in dir"))),
        }
    }

    /// The detailed listing: owner, type, length, block and name of every
    /// file, under a header line; `Err` when one of the files does not open.
    pub fn dir_ls_l(&self, disk: &VirtualDisk) -> (r: Result<String, FileSystemOperationError>)
        requires
            self.wf(disk@),
        ensures
            match ls_l_text(disk@, self.items(disk@), 0) {
                Some(t) => r is Ok && r->Ok_0@ == ls_l_head() + t,
                None => r is Err && r->Err_0 is DiskError,
            },
    {
        let table = self.load_items(disk);
        let ghost items = table_bytes(table@);
        assert(items.len() == table@.len());
        let mut ans = "UID\tFileType\tLength\tBlockAddr\tName\t\n".to_owned();
        let mut k: usize = 0;
        let ghost head = ans@;
        while k < table.len()
            invariant
                items == table_bytes(table@),
                items == self.items(disk@),
                k <= table@.len(),
                table@.len() <= u32::MAX,
                fs_wf(disk@),
                head == ls_l_head(),
                ls_l_text(disk@, items, 0) is Some <==> ls_l_text(disk@, items, k as nat) is Some,
                ls_l_text(disk@, items, k as nat) is Some ==> ans@ + ls_l_text(disk@, items, k as nat).unwrap() == head + ls_l_text(disk@, items, 0).unwrap(),
            decreases table@.len() - k,
        {
            if table[k].flag == SHORT_FLAG {
                let line = table_ls_l_line(&table, disk, k as u32);
                match line {
                    Ok(l) => {
                        push_str(&mut ans, l.as_str());
                    },
                    Err(e) => {
                        assert(ls_l_text(disk@, items, k as nat) is None);
                        return Err(e);
                    },
                }
            }
            k = k + 1;
        }
        assert(ls_l_text(disk@, items, k as nat) == Some(Seq::<char>::empty()));
        assert(ans@ =~= head + ls_l_text(disk@, items, 0).unwrap());
        Ok(ans)
    }

    /// All the entries, as stored.
    pub(crate) fn load_items(&self, disk: &VirtualDisk) -> (v: Vec<DirRawItem>)
        requires
            self.wf(disk@),
        ensures
            table_bytes(v@) == self.items(disk@),
    {
        let mut v: Vec<DirRawItem> = Vec::new();
        let mut i: u32 = 0;
        while i < self.num
            invariant
                self.wf(disk@),
                i <= self.num,
                v@.len() == i,
                table_bytes(v@) == self.items(disk@).subrange(0, i as int),
            decreases self.num - i,
        {
            let r = self.get_item(disk, ItemAddr::new(i));
            let item = match r {
                Ok(it) => it,
                Err(_) => DirRawItem { flag: NON_USE_FLAG, reserved: [0u8; 31] },
            };
            assert(item.bytes() == self.items(disk@)[i as int]);
            let ghost v0 = v@;
            v.push(item);
            assert(v@ == v0.push(item));
            i = i + 1;
            assert forall|j: int| 0 <= j < i implies #[trigger] table_bytes(v@)[j] == self.items(disk@).subrange(0, i as int)[j] by {
                if j < i - 1 {
                    assert(table_bytes(v0)[j] == self.items(disk@).subrange(0, i - 1)[j]);
                    assert(v@[j] == v0[j]);
                }
            }
            assert(table_bytes(v@) =~= self.items(disk@).subrange(0, i as int));
        }
        assert(self.items(disk@).subrange(0, self.num as int) =~= self.items(disk@));
        v
    }

    /// The name bytes stored from entry `addr` on.
    fn get_name_raw(&self, disk: &VirtualDisk, addr: ItemAddr) -> (v: Vec<u8>)
        requires
            self.wf(disk@),
            addr.addr < self.num,
        ensures
            v@ == name_from(self.items(disk@), addr.addr as nat, false),
    {
        let table = self.load_items(disk);
        assert(table_bytes(table@).len() == table@.len());
        name_at(&table, addr)
    }
}

/// The stored bytes of a table of entries.
pub open spec fn table_bytes(v: Seq<DirRawItem>) -> Seq<Seq<u8>> {
    Seq::new(v.len(), |i: int| v[i].bytes())
}

/// Entry `i` of a table, told apart by its flag.
fn table_dir_item(table: &Vec<DirRawItem>, i: u32) -> (d: DirItem)
    requires
        i < table@.len(),
    ensures
        current_matches(d, table_bytes(table@)[i as int]),
        match d {
            DirItem::Short(s) => s.data.decodes(table_bytes(table@)[i as int].subrange(1, 32)),
            _ => true,
        },
{
    let raw = table[i as usize];
    let d = raw.into_dir_item();
    proof {
        let b = raw.bytes();
        assert(b.subrange(1, 32) =~= raw.reserved@);
        if raw.flag == SHORT_FLAG {
            assert(b.subrange(7, 32) =~= raw.reserved@.subrange(6, 31));
        }
    }
    d
}

/// The name bytes stored in a table from entry `addr` on.
fn name_at(table: &Vec<DirRawItem>, addr: ItemAddr) -> (v: Vec<u8>)
    requires
        addr.addr < table@.len(),
        table@.len() <= u32::MAX,
    ensures
        v@ == name_from(table_bytes(table@), addr.addr as nat, false),
{
    let ghost items = table_bytes(table@);
    let num = table.len() as u32;
    let mut current = table_dir_item(table, addr.addr);
    let mut addr = addr;
    let ghost a0 = addr.addr as nat;
    let mut ans: Vec<u8> = Vec::new();
    let mut short_flag = false;
    loop
        invariant_except_break
            ans@ + name_from(items, addr.addr as nat, short_flag) == name_from(items, a0, false),
            a0 <= addr.addr < num,
            current_matches(current, items[addr.addr as int]),
        invariant
            items == table_bytes(table@),
            num == table@.len(),
        ensures
            ans@ == name_from(items, a0, false),
        decreases num - addr.addr,
    {
        let flag = table[addr.addr as usize].flag;
        assert(flag == items[addr.addr as int][0]);
        if flag == LONG_END_FLAG {
            let temp = match current.get_name() {
                Ok(t) => t,
                Err(_) => Vec::new(),
            };
            append_bytes(&mut ans, &temp);
            assert(ans@ =~= name_from(items, a0, false));
            break;
        } else if flag == NON_USE_FLAG {
            assert(ans@ =~= name_from(items, a0, false));
            break;
        } else if flag == SHORT_FLAG && short_flag {
            assert(ans@ =~= name_from(items, a0, false));
            break;
        } else {
            if flag == SHORT_FLAG {
                short_flag = true;
            }
            let temp = match current.get_name() {
                Ok(t) => t,
                Err(_) => Vec::new(),
            };
            let ghost old_ans = ans@;
            append_bytes(&mut ans, &temp);
            addr.step();
            assert(ans@ + name_from(items, addr.addr as nat, short_flag) =~= old_ans + name_from(items, (addr.addr - 1) as nat, if flag == SHORT_FLAG { false } else { short_flag }));
            if addr.addr >= num {
                assert(ans@ =~= name_from(items, a0, false));
                break;
            }
            current = table_dir_item(table, addr.addr);
        }
    }
    ans
}


/// The name stored in a table from entry `addr` on, one character per byte.
fn table_name(table: &Vec<DirRawItem>, addr: ItemAddr) -> (s: String)
    requires
        addr.addr < table@.len(),
        table@.len() <= u32::MAX,
    ensures
        s@ == name_chars(table_bytes(table@), addr.addr as nat),
{
    let list = name_at(table, addr);
    let mut chars: Vec<char> = Vec::new();
    let mut i: usize = 0;
    while i < list.len()
        invariant
            i <= list@.len(),
            chars@ == bytes_to_chars(list@.subrange(0, i as int)),
        decreases list@.len() - i,
    {
        chars.push(list[i] as char);
        i = i + 1;
        assert(chars@ =~= bytes_to_chars(list@.subrange(0, i as int)));
    }
    assert(list@.subrange(0, list@.len() as int) =~= list@);
    string_from_chars(&chars)
}

/// The first entry of a table whose name is `name`.
fn table_has_name(table: &Vec<DirRawItem>, name: &str) -> (r: Option<ItemAddr>)
    requires
        table@.len() <= u32::MAX,
    ensures
        r == named_addr(table_bytes(table@), name@),
        r matches Some(a) ==> a.addr < table@.len(),
{
    let ghost items = table_bytes(table@);
    assert(items.len() == table@.len());
    let wanted = name.to_owned();
    proof { lemma_first_named_bound(items, name@, 0); }
    let mut k: usize = 0;
    while k < table.len()
        invariant
            items == table_bytes(table@),
            items.len() == table@.len(),
            k <= table@.len(),
            table@.len() <= u32::MAX,
            wanted@ == name@,
            first_named(items, name@, 0) == first_named(items, name@, k as nat),
        decreases table@.len() - k,
    {
        assert(table[k as int].bytes()[0] == table[k as int].flag);
        if table[k].flag == SHORT_FLAG {
            let n = table_name(table, ItemAddr::new(k as u32));
            if wanted == n {
                return Some(ItemAddr::new(k as u32));
            }
        }
        k = k + 1;
    }
    None
}

/// The block of the file of entry `addr` of a table.
fn table_item_entry(table: &Vec<DirRawItem>, addr: ItemAddr) -> (b: BlockAddr)
    requires
        addr.addr < table@.len(),
        table_bytes(table@)[addr.addr as int][0] == SHORT_FLAG,
    ensures
        b.addr == item_entry(table_bytes(table@)[addr.addr as int]),
{
    match table_dir_item(table, addr.addr) {
        DirItem::Short(s) => {
            proof {
                let b = table_bytes(table@)[addr.addr as int];
                assert(s.data.addr@ == b.subrange(1, 5));
            }
            s.get_block()
        },
        _ => BlockAddr::new(0),
    }
}


/// The first fields of a line of the detailed listing: owner, type,
/// length and block, each followed by a tab.
pub open spec fn detail_prefix(uid: u8, t: FileType, len: u32, entry: u32) -> Seq<char> {
    decimal(uid as nat) + seq!['\t']
        + (if t == FileType::Dir { seq!['D', 'i', 'r'] } else { seq!['F', 'i', 'l', 'e'] })
        + seq!['\t', '\t'] + decimal(len as nat) + seq!['\t'] + decimal(entry as nat) + seq!['\t']
}

impl ShortDirItem {
    /// The owner, type, length and block of the entry's file, as the
    /// detailed listing shows them; `Err` when the file does not open.
    pub fn get_detail_info(&self, disk: &VirtualDisk) -> (r: Result<String, FileSystemOperationError>)
        requires
            fs_wf(disk@),
        ensures
            ({
                let e = le_u32(self.data.addr@[0], self.data.addr@[1], self.data.addr@[2], self.data.addr@[3]) as u32;
                match file_len_at(disk@, e as nat) {
                    Some(len) => r matches Ok(s) && s@ == detail_prefix(self.data.u_id, self.data.file_type, len, e),
                    None => r matches Err(err) && err is DiskError,
                }
            }),
    {
        let entry = self.get_block();
        let length = RawFile::simple_get_len(disk, entry)?;
        let mut ans = u32_to_decimal(self.get_user_id() as u32);
        push_char(&mut ans, '\t');
        match self.get_type() {
            FileType::Dir => push_str(&mut ans, "Dir"),
            FileType::File => push_str(&mut ans, "File"),
        }
        push_str(&mut ans, "\t\t");
        let len_s = u32_to_decimal(length);
        push_str(&mut ans, len_s.as_str());
        push_char(&mut ans, '\t');
        let entry_s = u32_to_decimal(entry.addr);
        push_str(&mut ans, entry_s.as_str());
        push_char(&mut ans, '\t');
        proof {
            reveal_strlit("Dir");
            reveal_strlit("File");
            reveal_strlit("\t\t");
        }
        Ok(ans)
    }
}

/// The line of the detailed listing for entry `k` of a table, which starts a
/// name; `Err` when its file does not open.
fn table_ls_l_line(table: &Vec<DirRawItem>, disk: &VirtualDisk, k: u32) -> (r: Result<String, FileSystemOperationError>)
    requires
        k < table@.len(),
        table@.len() <= u32::MAX,
        fs_wf(disk@),
        table_bytes(table@)[k as int][0] == SHORT_FLAG,
    ensures
        match file_len_at(disk@, item_entry(table_bytes(table@)[k as int]) as nat) {
            Some(len) => r is Ok && r->Ok_0@ == ls_l_line(table_bytes(table@), k as nat, len),
            None => r is Err && r->Err_0 is DiskError,
        },
{
    let ghost items = table_bytes(table@);
    let d = table_dir_item(table, k);
    match d {
        DirItem::Short(item) => {
            let ghost b = items[k as int];
            assert(item.data.addr@ == b.subrange(1, 5));
            let prefix = item.get_detail_info(disk)?;
            let name = table_name(table, ItemAddr::new(k));
            let mut ans = prefix;
            push_char(&mut ans, '\t');
            push_str(&mut ans, name.as_str());
            push_str(&mut ans, "\t\n");
            proof {
                reveal_strlit("\t\n");
                assert(b.subrange(1, 32)[5] == b[6]);
                assert(b.subrange(1, 32)[4] == b[5]);
                assert(ans@ =~= ls_l_line(items, k as nat, file_len_at(disk@, item_entry(b) as nat).unwrap()));
            }
            Ok(ans)
        },
        _ => {
            proof {
                let b = items[k as int];
                assert(current_matches(d, b));
            }
            Err(FileSystemOperationError::DiskError("the entry does not start a name".to_owned()))
        },
    }
}

/// `current` is the entry held by the stored bytes `b`, as far as names go.
pub open spec fn current_matches(current: DirItem, b: Seq<u8>) -> bool {
    match current {
        DirItem::Short(s) => b[0] == SHORT_FLAG && zone_of(s.data.name@) == item_zone(b),
        DirItem::Long(l) => b[0] != SHORT_FLAG && b[0] != NON_USE_FLAG && zone_of(l.data@) == item_zone(b),
        DirItem::Empty => b[0] == NON_USE_FLAG,
    }
}

/// Appends `t` to `v`.
fn append_bytes(v: &mut Vec<u8>, t: &Vec<u8>)
    ensures
        final(v)@ == old(v)@ + t@,
{
    let mut i: usize = 0;
    let ghost v0 = v@;
    while i < t.len()
        invariant
            i <= t@.len(),
            v@ == v0 + t@.subrange(0, i as int),
        decreases t@.len() - i,
    {
        v.push(t[i]);
        i = i + 1;
        assert(v@ =~= v0 + t@.subrange(0, i as int));
    }
    assert(t@.subrange(0, t@.len() as int) =~= t@);
}

/// Entry `i` lies inside a directory of `num` entries.
proof fn lemma_item_fits(num: nat, i: nat)
    requires
        i < num,
    ensures
        item_offset(i) + 32 <= item_offset(num),
{
    assert(item_offset(i) + 32 <= item_offset(num)) by (nonlinear_arith)
        requires i < num;
}

} // verus!
