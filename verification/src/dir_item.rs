use vstd::prelude::*;
use crate::addr::BlockAddr;
use crate::file_shell::error::FileSystemOperationError;
use crate::function::{le_u32, spec_u32_to_bytes};
use crate::raw_file::{type_byte, FileType};
use vstd::string::StringSliceAdditionalSpecFns;

verus! {

/// Size of a directory entry in bytes.
pub const ITEM_SIZE: usize = 32;

/// Flag of the entry that starts a name: it also holds the file's block,
/// type and owner.
pub const SHORT_FLAG: u8 = 0b0000_0001;

/// Flag of the entry that ends a long name.
pub const LONG_END_FLAG: u8 = 0b1111_1111;

/// Flag of an unused entry.
pub const NON_USE_FLAG: u8 = 0b0000_0000;

/// Bytes of a name held by the first entry.
pub const SHORT_NAME_SIZE: usize = 25;

/// Bytes of data after the flag of an entry.
pub const DATA_SIZE: usize = 31;

/// Bytes of a name held by each following entry.
pub const LONG_NAME_SIZE: usize = 31;

/// Longest name a directory takes.
pub const MAX_NAME_LEN: usize = 1024;

/// Position of the first zero byte of `s` from `i` on, or its length.
pub open spec fn zero_from(s: Seq<u8>, i: nat) -> nat
    decreases s.len() - i,
{
    if i >= s.len() {
        s.len()
    } else if s[i as int] == 0 {
        i
    } else {
        zero_from(s, i + 1)
    }
}

/// The bytes of `s` before its first zero byte.
pub open spec fn zone_of(s: Seq<u8>) -> Seq<u8> {
    s.subrange(0, zero_from(s, 0) as int)
}

/// The name bytes an entry holds: after the flag for the entries that
/// continue a name, after the block, type and owner for the first one.
pub open spec fn item_zone(item: Seq<u8>) -> Seq<u8> {
    if item[0] == SHORT_FLAG {
        zone_of(item.subrange(7, 32))
    } else {
        zone_of(item.subrange(1, 32))
    }
}

/// The first zero from `i` on is at `k` when no zero lies in between.
pub proof fn lemma_zero_from(s: Seq<u8>, i: nat, k: nat)
    requires
        i <= k <= s.len(),
        forall|j: int| i <= j < k ==> s[j] != 0,
        k == s.len() || s[k as int] == 0,
    ensures
        zero_from(s, i) == k,
    decreases k - i,
{
    if i < k {
        lemma_zero_from(s, i + 1, k);
    }
}

/// The bytes of `data` before its first zero.
fn zone_prefix(data: &[u8]) -> (v: Vec<u8>)
    ensures
        v@ == zone_of(data@),
{
    let mut v: Vec<u8> = Vec::new();
    let mut i: usize = 0;
    while i < data.len()
        invariant
            i <= data@.len(),
            v@ == data@.subrange(0, i as int),
            forall|j: int| 0 <= j < i ==> data@[j] != 0,
        ensures
            i <= data@.len(),
            v@ == data@.subrange(0, i as int),
            forall|j: int| 0 <= j < i ==> data@[j] != 0,
            i == data@.len() || data@[i as int] == 0,
        decreases data@.len() - i,
    {
        if data[i] == 0 {
            break;
        }
        v.push(data[i]);
        i = i + 1;
        assert(v@ =~= data@.subrange(0, i as int));
    }
    proof { lemma_zero_from(data@, 0, i as nat); }
    v
}

/// The 32 bytes of a directory entry as stored on disk.
#[derive(Debug, PartialEq, Eq, Clone, Copy)]
pub struct DirRawItem {
    pub flag: u8,
    pub reserved: [u8; 31],
}

impl DirRawItem {
    /// The stored bytes.
    pub open spec fn bytes(&self) -> Seq<u8> {
        seq![self.flag] + self.reserved@
    }

    /// The stored form of an entry; there is none for `DirItem::Empty`.
    pub fn new(di: DirItem) -> (r: DirRawItem)
        requires
            !(di is Empty),
        ensures
            r.bytes() == di.bytes(),
    {
        match di {
            DirItem::Long(item) => Self::from_long(item),
            DirItem::Short(item) => Self::from_short(item),
            DirItem::Empty => DirRawItem { flag: NON_USE_FLAG, reserved: [0u8; 31] },
        }
    }

    /// The stored form of the first entry of a name.
    pub fn from_short(value: ShortDirItem) -> (r: DirRawItem)
        ensures
            r.bytes() == seq![value.flag] + value.data.bytes(),
    {
        let flag = value.get_flag();
        let mut reserved: [u8; 31] = [0u8; 31];
        let mut i: usize = 0;
        while i < 4
            invariant
                i <= 4,
                reserved@.len() == 31,
                forall|j: int| 0 <= j < i ==> reserved@[j] == value.data.addr@[j],
            decreases 4 - i,
        {
            reserved[i] = value.data.addr[i];
            i = i + 1;
        }
        reserved[4] = match value.data.file_type {
            FileType::File => 0u8,
            FileType::Dir => 1u8,
        };
        reserved[5] = value.data.u_id;
        let mut i: usize = 0;
        while i < SHORT_NAME_SIZE
            invariant
                i <= SHORT_NAME_SIZE,
                reserved@.len() == 31,
                forall|j: int| 0 <= j < 4 ==> reserved@[j] == value.data.addr@[j],
                reserved@[4] == type_byte(value.data.file_type),
                reserved@[5] == value.data.u_id,
                forall|j: int| 0 <= j < i ==> reserved@[6 + j] == value.data.name@[j],
            decreases SHORT_NAME_SIZE - i,
        {
            reserved[6 + i] = value.data.name[i];
            i = i + 1;
        }
        let r = DirRawItem { flag, reserved };
        assert(r.bytes() =~= seq![value.flag] + value.data.bytes());
        r
    }

    /// The stored form of an entry that continues a name.
    pub fn from_long(value: LongDirItem) -> (r: DirRawItem)
        ensures
            r.bytes() == seq![value.flag] + value.data@,
    {
        DirRawItem { flag: value.flag, reserved: value.data }
    }

    /// The entry this stored form holds, told apart by its flag.
    pub fn into_dir_item(self) -> (d: DirItem)
        ensures
            self.holds(d),
    {
        if self.flag == SHORT_FLAG {
            DirItem::Short(ShortDirItem::from_raw(self))
        } else if self.flag == NON_USE_FLAG {
            DirItem::Empty
        } else {
            DirItem::Long(LongDirItem::from_raw(self))
        }
    }

    /// `d` is the entry this stored form holds, told apart by its flag.
    pub open spec fn holds(&self, d: DirItem) -> bool {
        if self.flag == SHORT_FLAG {
            d is Short && d->Short_0.flag == self.flag && d->Short_0.data.decodes(self.reserved@)
        } else if self.flag == NON_USE_FLAG {
            d is Empty
        } else {
            d is Long && d->Long_0.flag == self.flag && d->Long_0.data == self.reserved
        }
    }

    /// The 32 bytes to store.
    pub fn into_u8(self) -> (a: [u8; ITEM_SIZE])
        ensures
            a@ == self.bytes(),
    {
        let mut a: [u8; ITEM_SIZE] = [0u8; ITEM_SIZE];
        a[0] = self.flag;
        let mut i: usize = 0;
        while i < DATA_SIZE
            invariant
                i <= DATA_SIZE,
                a@.len() == 32,
                a@[0] == self.flag,
                forall|j: int| 0 <= j < i ==> a@[1 + j] == self.reserved@[j],
            decreases DATA_SIZE - i,
        {
            a[1 + i] = self.reserved[i];
            i = i + 1;
        }
        assert(a@ =~= self.bytes());
        a
    }

    /// The entry stored in 32 bytes.
    pub fn from_u8(data: [u8; ITEM_SIZE]) -> (r: DirRawItem)
        ensures
            r.bytes() == data@,
    {
        let mut reserved: [u8; 31] = [0u8; 31];
        let mut i: usize = 0;
        while i < DATA_SIZE
            invariant
                i <= DATA_SIZE,
                reserved@.len() == 31,
                forall|j: int| 0 <= j < i ==> reserved@[j] == data@[1 + j],
            decreases DATA_SIZE - i,
        {
            reserved[i] = data[1 + i];
            i = i + 1;
        }
        let r = DirRawItem { flag: data[0], reserved };
        assert(r.bytes() =~= data@);
        r
    }
}

/// A directory entry: the first entry of a name, one that continues it, or
/// an unused one.
#[derive(Debug, PartialEq, Eq, Clone, Copy)]
pub enum DirItem {
    Long(LongDirItem),
    Short(ShortDirItem),
    Empty,
}

impl DirItem {
    /// The stored bytes of an entry in use.
    pub open spec fn bytes(&self) -> Seq<u8> {
        match *self {
            DirItem::Long(l) => seq![l.flag] + l.data@,
            DirItem::Short(s) => seq![s.flag] + s.data.bytes(),
            DirItem::Empty => Seq::new(32, |i: int| 0u8),
        }
    }

    /// The name bytes of an entry in use.
    pub fn get_name(self) -> (r: Result<Vec<u8>, ()>)
        ensures
            match self {
                DirItem::Long(l) => r is Ok && r->Ok_0@ == zone_of(l.data@),
                DirItem::Short(s) => r is Ok && r->Ok_0@ == zone_of(s.data.name@),
                DirItem::Empty => r is Err,
            },
    {
        match self {
            DirItem::Long(item) => Ok(item.get_name_zone()),
            DirItem::Short(item) => Ok(item.get_name_zone()),
            DirItem::Empty => Err(()),
        }
    }

    /// The flag of the entry.
    pub fn get_flag(self) -> (r: Result<u8, ()>)
        ensures
            r == Ok::<u8, ()>(match self {
                DirItem::Long(l) => l.flag,
                DirItem::Short(s) => s.flag,
                DirItem::Empty => NON_USE_FLAG,
            }),
    {
        match self {
            DirItem::Long(item) => Ok(item.get_flag()),
            DirItem::Short(item) => Ok(item.get_flag()),
            DirItem::Empty => Ok(NON_USE_FLAG),
        }
    }

    /// The owner of a first entry; other entries have none.
    pub fn get_user_id(self) -> (r: Result<u8, FileSystemOperationError>)
        ensures
            match self {
                DirItem::Short(s) => r == Ok::<u8, FileSystemOperationError>(s.data.u_id),
                _ => r is Err && r->Err_0 is DirItemError,
            },
    {
        match self {
            DirItem::Short(item) => Ok(item.get_user_id()),
            DirItem::Long(_) => Err(FileSystemOperationError::DirItemError("只有ShortDirItem才能读取u_id".to_owned())),
            DirItem::Empty => Err(FileSystemOperationError::DirItemError("只有ShortDirItem才能读取u_id".to_owned())),
        }
    }
}

/// An entry that continues a name: 31 more bytes of it.
#[derive(Debug, PartialEq, Eq, Clone, Copy)]
pub struct LongDirItem {
    pub flag: u8,
    pub data: [u8; 31],
}

/// Bytes `offset .. min(offset + 31, len)` of a name, padded with zeros.
pub open spec fn long_chunk(name: Seq<u8>, offset: nat) -> Seq<u8> {
    Seq::new(31, |i: int| if offset + i < name.len() { name[offset + i] } else { 0u8 })
}

/// The first 25 bytes of a name, padded with zeros.
pub open spec fn short_chunk(name: Seq<u8>) -> Seq<u8> {
    Seq::new(25, |i: int| if i < name.len() { name[i] } else { 0u8 })
}

impl LongDirItem {
    pub fn from_raw(value: DirRawItem) -> (l: LongDirItem)
        ensures
            l.flag == value.flag,
            l.data == value.reserved,
    {
        Self { flag: value.flag, data: value.reserved }
    }

    /// The entry holding the 31 bytes of `name` from `offset` on.
    pub fn from_name_flag(name: &str, offset: &usize, my_flag: u8) -> (l: LongDirItem)
        requires
            *offset <= name.spec_bytes().len(),
        ensures
            l.flag == my_flag,
            l.data@ == long_chunk(name.spec_bytes(), *offset as nat),
    {
        let offset = *offset;
        let mut data: [u8; 31] = [0u8; 31];
        let name = name.as_bytes();
        let count = if name.len() - offset > 31 {
            offset + 31
        } else {
            name.len()
        };
        let mut i = offset;
        while i < count
            invariant
                offset <= i <= count <= name@.len(),
                count - offset <= 31,
                data@.len() == 31,
                forall|j: int| 0 <= j < i - offset ==> data@[j] == name@[offset + j],
                forall|j: int| i - offset <= j < 31 ==> data@[j] == 0,
            decreases count - i,
        {
            data[i - offset] = name[i];
            i = i + 1;
        }
        let l = LongDirItem { flag: my_flag, data };
        assert(l.data@ =~= long_chunk(name@, offset as nat));
        l
    }

    /// The name bytes it holds: those before its first zero.
    pub fn get_name_zone(&self) -> (v: Vec<u8>)
        ensures
            v@ == zone_of(self.data@),
    {
        zone_prefix(self.data.as_slice())
    }

    pub fn get_flag(self) -> (f: u8)
        ensures
            f == self.flag,
    {
        self.flag
    }
}

/// The first entry of a name: the file's block, type, owner and the first
/// 25 bytes of the name.
#[derive(Debug, PartialEq, Eq, Clone, Copy)]
pub struct ShortDirItem {
    pub flag: u8,
    pub data: ItemData,
}

impl ShortDirItem {
    pub fn new(flag: u8, data: ItemData) -> (s: ShortDirItem)
        ensures
            s.flag == flag,
            s.data == data,
    {
        ShortDirItem { flag, data }
    }

    pub fn from_raw(value: DirRawItem) -> (s: ShortDirItem)
        ensures
            s.flag == value.flag,
            s.data.decodes(value.reserved@),
    {
        ShortDirItem { flag: value.flag, data: ItemData::new(value.reserved) }
    }

    /// The first entry for a file named `name` starting at `entry`.
    pub fn from_name_entry(name: &str, entry: BlockAddr, file_type: FileType, owner_u_id: u8) -> (s: ShortDirItem)
        requires
            name.spec_bytes().len() > 0,
        ensures
            s.flag == SHORT_FLAG,
            s.data.addr@ == spec_u32_to_bytes(entry.addr),
            s.data.file_type == file_type,
            s.data.u_id == owner_u_id,
            s.data.name@ == short_chunk(name.spec_bytes()),
    {
        let flag: u8 = SHORT_FLAG;
        let data = ItemData::from_name_entry(name, entry, file_type, owner_u_id);
        ShortDirItem { flag, data }
    }

    /// The name bytes it holds: those before its first zero.
    pub fn get_name_zone(&self) -> (v: Vec<u8>)
        ensures
            v@ == zone_of(self.data.name@),
    {
        zone_prefix(self.data.name.as_slice())
    }

    /// The block where the file starts.
    pub fn entry(&self) -> (b: BlockAddr)
        ensures
            b.addr == le_u32(self.data.addr@[0], self.data.addr@[1], self.data.addr@[2], self.data.addr@[3]),
    {
        self.data.get_addr()
    }

    pub fn get_flag(self) -> (f: u8)
        ensures
            f == self.flag,
    {
        self.flag
    }

    /// The block where the file starts.
    pub fn get_block(&self) -> (b: BlockAddr)
        ensures
            b.addr == le_u32(self.data.addr@[0], self.data.addr@[1], self.data.addr@[2], self.data.addr@[3]),
    {
        self.data.get_addr()
    }

    pub fn get_type(&self) -> (t: FileType)
        ensures
            t == self.data.file_type,
    {
        self.data.file_type
    }

    pub fn get_user_id(&self) -> (u: u8)
        ensures
            u == self.data.u_id,
    {
        self.data.u_id
    }
}

/// What the first entry of a name holds after its flag.
#[derive(Debug, PartialEq, Eq, Clone, Copy)]
pub struct ItemData {
    pub addr: [u8; 4],
    pub file_type: FileType,
    pub u_id: u8,
    pub name: [u8; 25],
}

impl ItemData {
    /// The stored bytes.
    pub open spec fn bytes(&self) -> Seq<u8> {
        self.addr@ + seq![type_byte(self.file_type), self.u_id] + self.name@
    }

    /// This data is held by the 31 stored bytes `s`: a type byte of 1
    /// stands for a directory, any other for a file.
    pub open spec fn decodes(&self, s: Seq<u8>) -> bool {
        &&& self.addr@ == s.subrange(0, 4)
        &&& self.file_type == if s[4] == 1 { FileType::Dir } else { FileType::File }
        &&& self.u_id == s[5]
        &&& self.name@ == s.subrange(6, 31)
    }

    /// The data held by 31 stored bytes.
    pub fn new(data: [u8; DATA_SIZE]) -> (r: ItemData)
        ensures
            r.decodes(data@),
    {
        let mut addr: [u8; 4] = [0u8; 4];
        let mut name: [u8; 25] = [0u8; 25];
        let mut i: usize = 0;
        while i < 4
            invariant
                i <= 4,
                addr@.len() == 4,
                forall|j: int| 0 <= j < i ==> addr@[j] == data@[j],
            decreases 4 - i,
        {
            addr[i] = data[i];
            i = i + 1;
        }
        let mut i: usize = 0;
        while i < SHORT_NAME_SIZE
            invariant
                i <= SHORT_NAME_SIZE,
                name@.len() == 25,
                forall|j: int| 0 <= j < i ==> name@[j] == data@[6 + j],
            decreases SHORT_NAME_SIZE - i,
        {
            name[i] = data[6 + i];
            i = i + 1;
        }
        let file_type = if data[4] == 1 { FileType::Dir } else { FileType::File };
        assert(addr@ =~= data@.subrange(0, 4));
        assert(name@ =~= data@.subrange(6, 31));
        ItemData { addr, file_type, u_id: data[5], name }
    }

    /// The data for a file named `name` that starts at `entry`.
    pub fn from_name_entry(name: &str, entry: BlockAddr, file_type: FileType, owner_u_id: u8) -> (r: ItemData)
        requires
            name.spec_bytes().len() > 0,
        ensures
            r.addr@ == spec_u32_to_bytes(entry.addr),
            r.file_type == file_type,
            r.u_id == owner_u_id,
            r.name@ == short_chunk(name.spec_bytes()),
    {
        let v = crate::function::u32_to_vec(entry.addr);
        let addr: [u8; 4] = [v[0], v[1], v[2], v[3]];
        let mut list: [u8; SHORT_NAME_SIZE] = [0u8; SHORT_NAME_SIZE];
        let name = name.as_bytes();
        let count = if name.len() > SHORT_NAME_SIZE {
            SHORT_NAME_SIZE
        } else {
            name.len()
        };
        let mut i: usize = 0;
        while i < count
            invariant
                i <= count <= 25,
                count <= name@.len(),
                count == 25 || count == name@.len(),
                list@.len() == 25,
                forall|j: int| 0 <= j < i ==> list@[j] == name@[j],
                forall|j: int| i <= j < 25 ==> list@[j] == 0,
            decreases count - i,
        {
            list[i] = name[i];
            i = i + 1;
        }
        assert(addr@ =~= spec_u32_to_bytes(entry.addr));
        assert(list@ =~= short_chunk(name@));
        ItemData { addr, name: list, file_type, u_id: owner_u_id }
    }

    pub fn get_name(&self) -> (n: [u8; SHORT_NAME_SIZE])
        ensures
            n == self.name,
    {
        self.name
    }

    /// The block where the file starts.
    pub fn get_addr(&self) -> (b: BlockAddr)
        ensures
            b.addr == le_u32(self.addr@[0], self.addr@[1], self.addr@[2], self.addr@[3]),
    {
        BlockAddr::new(crate::function::bytes4_to_u32(self.addr[0], self.addr[1], self.addr[2], self.addr[3]))
    }

    pub fn get_uid(&self) -> (u: u8)
        ensures
            u == self.u_id,
    {
        self.u_id
    }
}



/// Number of entries that hold a name of `len` bytes.
pub open spec fn item_count(len: nat) -> nat {
    if len <= 25 { 1 } else { 1 + ((len - 25 + 30) / 31) as nat }
}

/// Where the part of a name held by entry `j >= 1` starts.
pub open spec fn long_offset(j: nat) -> nat {
    (25 + 31 * (j - 1)) as nat
}

/// The stored bytes of entry `j` of the entries for a file named `name`
/// that starts at block `entry`.
pub open spec fn gen_item(name: Seq<u8>, entry: u32, t: FileType, uid: u8, j: nat) -> Seq<u8> {
    if j == 0 {
        seq![SHORT_FLAG] + spec_u32_to_bytes(entry) + seq![type_byte(t), uid] + short_chunk(name)
    } else {
        let flag: u8 = if name.len() > long_offset(j) + 31 { (j + 1) as u8 } else { LONG_END_FLAG };
        seq![flag] + long_chunk(name, long_offset(j))
    }
}

/// The entries that a directory stores for one file, one at a time.
#[derive(Debug)]
pub struct DirItemGenerateIter {
    pub list: Vec<DirItem>,
    pub count: usize,
    pub length: usize,
}

impl DirItemGenerateIter {
    /// The entries for a file named `name` that starts at `entry`: a first
    /// entry with 25 bytes of the name, then one more per 31 bytes, the last
    /// one flagged `LONG_END_FLAG`.
    pub fn new(name: &str, entry: BlockAddr, file_type: FileType, owner_u_id: u8) -> (g: DirItemGenerateIter)
        requires
            1 <= name.spec_bytes().len() <= MAX_NAME_LEN,
        ensures
            g.count == 0,
            g.length == item_count(name.spec_bytes().len()),
            g.list@.len() == g.length,
            forall|j: int| 0 <= j < g.length ==> !(g.list@[j] is Empty)
                && (#[trigger] g.list@[j]).bytes() == gen_item(name.spec_bytes(), entry.addr, file_type, owner_u_id, j as nat),
    {
        let target_num = name.len();
        let ghost nm = name.spec_bytes();
        let si = DirItem::Short(ShortDirItem::from_name_entry(name, entry, file_type, owner_u_id));
        let mut list: Vec<DirItem> = Vec::new();
        list.push(si);
        proof {
            assert(si.bytes() =~= gen_item(nm, entry.addr, file_type, owner_u_id, 0));
        }
        let mut finish_num: usize = SHORT_NAME_SIZE;
        let mut flag: u8 = 1;
        while target_num > finish_num
            invariant
                target_num == nm.len(),
                nm == name.spec_bytes(),
                1 <= target_num <= MAX_NAME_LEN,
                1 <= flag <= 35,
                finish_num == 25 + 31 * (flag - 1),
                finish_num <= target_num + 31,
                list@.len() == flag,
                flag == 1 || finish_num < target_num + 31,
                forall|j: int| 0 <= j < flag ==> !(list@[j] is Empty)
                    && (#[trigger] list@[j]).bytes() == gen_item(nm, entry.addr, file_type, owner_u_id, j as nat),
            decreases target_num + 31 - finish_num,
        {
            flag = flag + 1;
            let this_flag = if target_num > finish_num + 31 {
                flag
            } else {
                LONG_END_FLAG
            };
            let temp_long = LongDirItem::from_name_flag(name, &finish_num, this_flag);
            proof {
                assert(long_offset((flag - 1) as nat) == finish_num);
                assert(DirItem::Long(temp_long).bytes() =~= gen_item(nm, entry.addr, file_type, owner_u_id, (flag - 1) as nat));
            }
            finish_num = finish_num + 31;
            list.push(DirItem::Long(temp_long));
        }
        proof {
            if target_num <= 25 {
                assert(flag == 1);
            } else {
                assert(flag == item_count(target_num as nat)) by (nonlinear_arith)
                    requires finish_num == 25 + 31 * (flag - 1), finish_num >= target_num, flag == 1 || finish_num < target_num + 31,
                        target_num > 25, item_count(target_num as nat) == 1 + ((target_num - 25 + 30) / 31) as nat;
            }
        }
        DirItemGenerateIter { list, count: 0, length: flag as usize }
    }

    /// The number of entries.
    pub fn len(&self) -> (n: usize)
        ensures
            n == self.length,
    {
        self.length
    }

    /// The next entry, or `None` once all were given.
    pub fn next(&mut self) -> (r: Option<DirItem>)
        requires
            old(self).length <= old(self).list@.len(),
        ensures
            final(self).list == old(self).list,
            final(self).length == old(self).length,
            old(self).count < old(self).length ==> r == Some(old(self).list@[old(self).count as int])
                && final(self).count == old(self).count + 1,
            old(self).count >= old(self).length ==> r is None && final(self).count == old(self).count,
    {
        if self.count < self.length {
            let temp = Some(self.list[self.count]);
            self.count = self.count + 1;
            temp
        } else {
            None
        }
    }
}

/// The number of a directory entry.
#[derive(Debug, PartialEq, Eq, Structural, Clone, Copy)]
pub struct ItemAddr {
    pub addr: u32,
}

/// Offset, inside a directory, of entry `i`: after the directory's own
/// 8-byte header.
pub open spec fn item_offset(i: nat) -> nat {
    i * 32 + 8
}

impl ItemAddr {
    pub fn new(addr: u32) -> (a: Self)
        ensures
            a.addr == addr,
    {
        ItemAddr { addr }
    }

    /// Offset of the entry inside the directory.
    pub fn get_offset(&self) -> (n: u32)
        requires
            self.addr * 32 + 8 <= u32::MAX,
        ensures
            n == item_offset(self.addr as nat),
    {
        self.addr * ITEM_SIZE as u32 + 8
    }

    pub fn get_addr(&self) -> (n: u32)
        ensures
            n == self.addr,
    {
        self.addr
    }

    /// Moves to the next entry.
    pub fn step(&mut self)
        requires
            old(self).addr < u32::MAX,
        ensures
            final(self).addr == old(self).addr + 1,
    {
        self.addr = self.addr + 1;
    }

    /// The entry `rhs` places further on.
    pub fn add(self, rhs: u32) -> (a: ItemAddr)
        requires
            self.addr + rhs <= u32::MAX,
        ensures
            a.addr == self.addr + rhs,
    {
        Self { addr: self.addr + rhs }
    }

    /// The entry `rhs` places before.
    pub fn sub(self, rhs: u32) -> (a: ItemAddr)
        requires
            self.addr >= rhs,
        ensures
            a.addr == self.addr - rhs,
    {
        Self { addr: self.addr - rhs }
    }
}

/// The entries `start .. end`.
pub struct ItemAddrRange {
    pub start: ItemAddr,
    pub end: ItemAddr,
}

impl ItemAddrRange {
    pub fn new(start: ItemAddr, end: ItemAddr) -> (r: ItemAddrRange)
        ensures
            r.start == start,
            r.end == end,
    {
        ItemAddrRange { start, end }
    }

    pub fn iter(&self) -> (it: ItemAddrRangeIter)
        ensures
            it.current == self.start,
            it.end == self.end,
    {
        ItemAddrRangeIter::new(self.start, self.end)
    }
}

/// Walks the entries of an `ItemAddrRange` one at a time.
#[derive(Debug)]
pub struct ItemAddrRangeIter {
    pub current: ItemAddr,
    pub end: ItemAddr,
}

impl ItemAddrRangeIter {
    pub fn new(current: ItemAddr, end: ItemAddr) -> (it: ItemAddrRangeIter)
        ensures
            it.current == current,
            it.end == end,
    {
        ItemAddrRangeIter { current, end }
    }

    /// The current entry, or `None` at the end.
    pub fn next(&mut self) -> (r: Option<ItemAddr>)
        requires
            old(self).current.addr <= old(self).end.addr,
        ensures
            final(self).end == old(self).end,
            old(self).current != old(self).end ==> r == Some(old(self).current)
                && final(self).current.addr == old(self).current.addr + 1,
            old(self).current == old(self).end ==> r is None && final(self).current == old(self).current,
    {
        if self.current != self.end {
            let temp = self.current;
            self.current = self.current.add(1);
            Some(temp)
        } else {
            None
        }
    }
}


/// The name read from entry `i` on, the way a directory reads names: a
/// first entry's bytes, then those of the entries that continue it, up to
/// the entry flagged as the end, an unused entry, the next first entry, or
/// the end of the table.
pub open spec fn name_from(items: Seq<Seq<u8>>, i: nat, seen: bool) -> Seq<u8>
    decreases items.len() - i,
{
    if i >= items.len() {
        Seq::empty()
    } else {
        let f = items[i as int][0];
        if f == LONG_END_FLAG {
            item_zone(items[i as int])
        } else if f == NON_USE_FLAG {
            Seq::empty()
        } else if f == SHORT_FLAG {
            if seen {
                Seq::empty()
            } else {
                item_zone(items[i as int]) + name_from(items, i + 1, true)
            }
        } else {
            item_zone(items[i as int]) + name_from(items, i + 1, seen)
        }
    }
}

/// A name with no zero byte.
pub open spec fn no_zero(name: Seq<u8>) -> bool {
    forall|i: int| 0 <= i < name.len() ==> name[i] != 0
}

/// The bytes before the first zero of a padded chunk of a name without
/// zeros are the chunk's bytes of the name.
proof fn lemma_chunk_zone(name: Seq<u8>, chunk: Seq<u8>, off: nat, size: nat)
    requires
        no_zero(name),
        off <= name.len(),
        chunk.len() == size,
        forall|i: int| 0 <= i < size ==> chunk[i] == if off + i < name.len() { name[off + i] } else { 0u8 },
    ensures
        zone_of(chunk) == name.subrange(off as int, if off + size < name.len() { (off + size) as int } else { name.len() as int }),
{
    let k: nat = if off + size < name.len() { size } else { (name.len() - off) as nat };
    lemma_zero_from(chunk, 0, k);
    assert(zone_of(chunk) =~= name.subrange(off as int, (off + k) as int));
}

/// The entries that continue a name read back as the rest of it.
proof fn lemma_long_tail(items: Seq<Seq<u8>>, g: nat, name: Seq<u8>, entry: u32, t: FileType, uid: u8, k: nat)
    requires
        no_zero(name),
        25 < name.len() <= MAX_NAME_LEN,
        1 <= k < item_count(name.len()),
        g + item_count(name.len()) <= items.len(),
        forall|j: nat| j < item_count(name.len()) ==> #[trigger] items[(g + j) as int] == gen_item(name, entry, t, uid, j),
    ensures
        name_from(items, g + k, true) == name.subrange(long_offset(k) as int, name.len() as int),
    decreases item_count(name.len()) - k,
{
    let n = item_count(name.len());
    let off = long_offset(k);
    let it = items[(g + k) as int];
    assert(it == gen_item(name, entry, t, uid, k));
    assert(off < name.len()) by (nonlinear_arith)
        requires off == 25 + 31 * (k - 1), k < n, n == 1 + (name.len() - 25 + 30) / 31, name.len() > 25;
    lemma_chunk_zone(name, it.subrange(1, 32), off, 31);
    assert(it.subrange(1, 32) =~= long_chunk(name, off));
    if name.len() > off + 31 {
        assert(k + 1 < n) by (nonlinear_arith)
            requires off == 25 + 31 * (k - 1), name.len() > off + 31, n == 1 + (name.len() - 25 + 30) / 31;
        assert(it[0] == (k + 1) as u8);
        assert(k + 1 <= 34) by (nonlinear_arith)
            requires k + 1 < n, n == 1 + (name.len() - 25 + 30) / 31, name.len() <= 1024;
        lemma_long_tail(items, g, name, entry, t, uid, k + 1);
        assert(long_offset(k + 1) == off + 31);
        assert(name_from(items, g + k, true) =~= item_zone(it) + name_from(items, g + k + 1, true));
        assert(name.subrange(off as int, name.len() as int) =~= name.subrange(off as int, (off + 31) as int)
            + name.subrange((off + 31) as int, name.len() as int));
    } else {
        assert(it[0] == LONG_END_FLAG);
    }
}

/// A name stored in a directory reads back as itself: the entries written
/// for a file named `name` (with no zero byte) give `name` when read from
/// their first entry, provided a short name is followed by an unused entry,
/// another first entry, or the end of the table.
pub proof fn law_name_roundtrip(items: Seq<Seq<u8>>, g: nat, name: Seq<u8>, entry: u32, t: FileType, uid: u8)
    requires
        no_zero(name),
        1 <= name.len() <= MAX_NAME_LEN,
        forall|i: int| 0 <= i < items.len() ==> (#[trigger] items[i]).len() == 32,
        g + item_count(name.len()) <= items.len(),
        forall|j: nat| j < item_count(name.len()) ==> #[trigger] items[(g + j) as int] == gen_item(name, entry, t, uid, j),
        name.len() <= 25 && g + 1 < items.len() ==> items[g as int + 1][0] == NON_USE_FLAG || items[g as int + 1][0] == SHORT_FLAG,
    ensures
        name_from(items, g, false) == name,
{
    let it = items[g as int];
    let z: nat = 0;
    assert(items[(g + z) as int] == gen_item(name, entry, t, uid, z));
    assert(it == gen_item(name, entry, t, uid, 0));
    assert(it[0] == SHORT_FLAG);
    assert(it.subrange(7, 32) =~= short_chunk(name));
    lemma_chunk_zone(name, it.subrange(7, 32), 0, 25);
    if name.len() <= 25 {
        assert(name.subrange(0, name.len() as int) =~= name);
        assert(item_zone(it) == name);
        assert(name_from(items, g + 1, true) =~= Seq::<u8>::empty());
        assert(name_from(items, g, false) == item_zone(it) + name_from(items, g + 1, true));
        assert(name_from(items, g, false) =~= name);
    } else {
        lemma_long_tail(items, g, name, entry, t, uid, 1);
        assert(name =~= name.subrange(0, 25) + name.subrange(25, name.len() as int));
    }
}

/// The name bytes of the first `k` of the entries for a file named `name`,
/// put together in order.
pub open spec fn zones_upto(name: Seq<u8>, entry: u32, t: FileType, uid: u8, k: nat) -> Seq<u8>
    decreases k,
{
    if k == 0 {
        Seq::empty()
    } else {
        zones_upto(name, entry, t, uid, (k - 1) as nat) + item_zone(gen_item(name, entry, t, uid, (k - 1) as nat))
    }
}

/// Where the name bytes of the first `k >= 1` entries for a name of `len`
/// bytes end.
pub open spec fn zones_end(len: nat, k: nat) -> nat {
    let e = 25 + 31 * (k - 1);
    if e < len { e as nat } else { len }
}

/// The first `k` entries for a name hold its first bytes, in order.
proof fn lemma_zones_prefix(name: Seq<u8>, entry: u32, t: FileType, uid: u8, k: nat)
    requires
        no_zero(name),
        1 <= name.len() <= MAX_NAME_LEN,
        1 <= k <= item_count(name.len()),
    ensures
        zones_upto(name, entry, t, uid, k) == name.subrange(0, zones_end(name.len(), k) as int),
    decreases k,
{
    let n = item_count(name.len());
    let it = gen_item(name, entry, t, uid, (k - 1) as nat);
    if k == 1 {
        assert(it[0] == SHORT_FLAG);
        assert(it.subrange(7, 32) =~= short_chunk(name));
        lemma_chunk_zone(name, it.subrange(7, 32), 0, 25);
        assert(zones_upto(name, entry, t, uid, 0) =~= Seq::<u8>::empty());
        assert(zones_upto(name, entry, t, uid, 1) =~= item_zone(it));
    } else {
        lemma_zones_prefix(name, entry, t, uid, (k - 1) as nat);
        let off = long_offset((k - 1) as nat);
        assert(name.len() > 25) by {
            if name.len() <= 25 {
                assert(n == 1);
            }
        }
        assert(off < name.len()) by (nonlinear_arith)
            requires off == 25 + 31 * (k - 2), k <= n, n == 1 + (name.len() - 25 + 30) / 31, name.len() > 25, k >= 2;
        assert(k <= 34) by (nonlinear_arith)
            requires k <= n, n == 1 + (name.len() - 25 + 30) / 31, name.len() <= 1024;
        assert(it[0] != SHORT_FLAG);
        assert(it.subrange(1, 32) =~= long_chunk(name, off));
        lemma_chunk_zone(name, it.subrange(1, 32), off, 31);
        assert(zones_end(name.len(), (k - 1) as nat) == off);
        assert(name.subrange(0, zones_end(name.len(), k) as int) =~= name.subrange(0, off as int)
            + name.subrange(off as int, zones_end(name.len(), k) as int));
    }
}

/// The entries made for a name give it back: their name zones, put
/// together in order, are the name's bytes.
pub proof fn law_name_zones(name: Seq<u8>, entry: u32, t: FileType, uid: u8)
    requires
        no_zero(name),
        1 <= name.len() <= MAX_NAME_LEN,
    ensures
        zones_upto(name, entry, t, uid, item_count(name.len())) == name,
{
    let n = item_count(name.len());
    lemma_zones_prefix(name, entry, t, uid, n);
    if name.len() > 25 {
        assert(25 + 31 * (n - 1) >= name.len()) by (nonlinear_arith)
            requires n == 1 + (name.len() - 25 + 30) / 31, name.len() > 25;
    }
    assert(name.subrange(0, name.len() as int) =~= name);
}

} // verus!
