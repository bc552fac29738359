use vstd::prelude::*;
use crate::dir_create::{first_free, gap_start, new_item_post, new_item_spec, placed, room_fits, room_for};
use vstd::utf8::encode_utf8;
use crate::dir_edit::{clear_end, cleared, first_gap, is_gap, lemma_first_gap_found, zeros};
use crate::dir_item::{
    gen_item, item_count, law_name_roundtrip, long_offset, name_from, no_zero, LONG_END_FLAG, MAX_NAME_LEN, NON_USE_FLAG, SHORT_FLAG,
};
use crate::dir_servant::{bytes_to_chars, first_named, item_entry, name_chars, DirServant};
use crate::function::lemma_u32_bytes_roundtrip;
use crate::raw_file::FileType;

verus! {

/// An entry that carries a middle part of a long name.
pub open spec fn is_middle(b: Seq<u8>) -> bool {
    b[0] != SHORT_FLAG && b[0] != NON_USE_FLAG && b[0] != LONG_END_FLAG
}

/// An entry that continues a name: a middle part or the last one.
pub open spec fn continues(b: Seq<u8>) -> bool {
    is_middle(b) || b[0] == LONG_END_FLAG
}

/// The entries of every name lie together: a middle part is followed by
/// another middle part or the last one, and an entry that continues a name
/// follows the first entry of the name or a middle part.
pub open spec fn chains_ok(items: Seq<Seq<u8>>) -> bool {
    &&& forall|i: int| 0 <= i < items.len() && #[trigger] is_middle(items[i])
        ==> i + 1 < items.len() && continues(items[i + 1])
    &&& forall|i: int| 0 <= i < items.len() && #[trigger] continues(items[i])
        ==> i > 0 && (items[i - 1][0] == SHORT_FLAG || is_middle(items[i - 1]))
}

/// Reading a name from before `g` never reaches past `g` when the entry
/// before `g` carries no middle part and entry `g` starts a name or is
/// unused: changing what lies from `g` on does not change it.
proof fn lemma_name_before(items0: Seq<Seq<u8>>, items1: Seq<Seq<u8>>, g: nat, i: nat, seen: bool)
    requires
        i < g,
        g <= items0.len(),
        g <= items1.len(),
        forall|j: int| 0 <= j < g ==> #[trigger] items1[j] == items0[j],
        !is_middle(items0[g - 1]),
        g < items0.len() ==> items0[g as int][0] == NON_USE_FLAG || items0[g as int][0] == SHORT_FLAG,
        g < items1.len() ==> items1[g as int][0] == NON_USE_FLAG || items1[g as int][0] == SHORT_FLAG,
    ensures
        name_from(items1, i, seen) == name_from(items0, i, seen),
    decreases g - i,
{
    assert(items1[i as int] == items0[i as int]);
    if i + 1 < g {
        lemma_name_before(items0, items1, g, i + 1, true);
        lemma_name_before(items0, items1, g, i + 1, seen);
    } else {
        assert(name_from(items1, g, true) == Seq::<u8>::empty());
        assert(name_from(items0, g, true) == Seq::<u8>::empty());
    }
}

/// Reading a name from `g` on looks only at the entries from `g` on.
proof fn lemma_name_after(items0: Seq<Seq<u8>>, items1: Seq<Seq<u8>>, g: nat, i: nat, seen: bool)
    requires
        g <= i,
        items1.len() == items0.len(),
        forall|j: int| g <= j < items0.len() ==> #[trigger] items1[j] == items0[j],
    ensures
        name_from(items1, i, seen) == name_from(items0, i, seen),
    decreases items0.len() - i,
{
    if i < items0.len() {
        assert(items1[i as int] == items0[i as int]);
        lemma_name_after(items0, items1, g, i + 1, true);
        lemma_name_after(items0, items1, g, i + 1, seen);
    }
}

/// An entry that starts a name, and whose name is `nm`.
pub open spec fn named_at(items: Seq<Seq<u8>>, k: nat, nm: Seq<char>) -> bool {
    items[k as int][0] == SHORT_FLAG && name_chars(items, k) == nm
}

/// No entry from `j` on starts the name, when the search from `j` finds none.
proof fn lemma_not_named(items: Seq<Seq<u8>>, nm: Seq<char>, j: nat, k: nat)
    requires
        first_named(items, nm, j) is None,
        j <= k < items.len(),
    ensures
        !named_at(items, k, nm),
    decreases k - j,
{
    if j < k {
        lemma_not_named(items, nm, j + 1, k);
    }
}

/// The search finds the first entry with the name.
proof fn lemma_named_first(items: Seq<Seq<u8>>, nm: Seq<char>, j: nat, g: nat)
    requires
        j <= g < items.len(),
        forall|k: nat| j <= k < g ==> !#[trigger] named_at(items, k, nm),
        named_at(items, g, nm),
    ensures
        first_named(items, nm, j) == Some(g),
    decreases g - j,
{
    if j < g {
        assert(!named_at(items, j, nm));
        lemma_named_first(items, nm, j + 1, g);
    }
}

/// What the post state of a new entry says of the entries and the block.
proof fn lemma_post_items(s0: DirServant, d0: Seq<u8>, s1: DirServant, d1: Seq<u8>, name: Seq<u8>, t: FileType, uid: u8)
    requires
        new_item_post(s0, d0, s1, d1, name, t, uid),
    ensures
        s1.items(d1) == placed(room_for(s0, d0, item_count(name.len())), gap_start(s0.items(d0), item_count(name.len())),
            name, first_free(d0) as u32, t, uid),
        first_free(d0) < u32::MAX,
        room_fits(s0, d0, item_count(name.len())),
{
    reveal(new_item_post);
    assert(first_free(d0) < crate::disk::num_blocks(d0));
}

/// Around the place where the entries of a new name go: the entry before it
/// carries no middle part, the entries are all 32 bytes, and a single new
/// entry is followed by an unused one or the start of a name.
proof fn lemma_place(s0: DirServant, d0: Seq<u8>, n: nat)
    requires
        s0.wf(d0),
        chains_ok(s0.items(d0)),
        1 <= n,
        room_fits(s0, d0, n),
    ensures
        ({
            let items0 = s0.items(d0);
            let g = gap_start(items0, n);
            let room = room_for(s0, d0, n);
            &&& g + n <= room.len()
            &&& g <= items0.len()
            &&& g < items0.len() ==> items0[g as int][0] == NON_USE_FLAG
            &&& g > 0 ==> !is_middle(items0[g - 1])
            &&& forall|j: int| 0 <= j < g ==> #[trigger] room[j] == items0[j]
            &&& forall|i: int| 0 <= i < room.len() ==> (#[trigger] room[i]).len() == 32
            &&& n == 1 && g + 1 < room.len() ==> room[g as int + 1][0] == NON_USE_FLAG || room[g as int + 1][0] == SHORT_FLAG
        }),
{
    let items0 = s0.items(d0);
    let g = gap_start(items0, n);
    let room = room_for(s0, d0, n);
    lemma_first_gap_found(items0, n, 0);
    assert(forall|i: int| 0 <= i < items0.len() ==> (#[trigger] items0[i]).len() == 32);
    match first_gap(items0, n, 0) {
        Some(_) => {
            assert(room == items0);
            assert(is_gap(items0, g, n));
            let z: nat = 0;
            assert(items0[(g + z) as int][0] == NON_USE_FLAG);
            if g > 0 && is_middle(items0[g - 1]) {
                assert(continues(items0[(g - 1) + 1]));
            }
            if n == 1 && g + 1 < room.len() {
                if continues(items0[g as int + 1]) {
                    assert(items0[(g as int + 1) - 1][0] == NON_USE_FLAG);
                }
            }
        },
        None => {
            assert(g == items0.len());
            if g > 0 && is_middle(items0[g - 1]) {
                assert(is_middle(items0[(g - 1) as int]));
            }
            assert(room[g as int + 1] == zeros(32));
            assert forall|i: int| 0 <= i < room.len() implies (#[trigger] room[i]).len() == 32 by {
                if i >= items0.len() + 1 {
                    assert(room[i] == zeros(32));
                }
            }
        },
    }
}

/// The entries written for a name, and the entry that starts them.
proof fn lemma_placed_items(room: Seq<Seq<u8>>, g: nat, name: Seq<u8>, c: u32, t: FileType, uid: u8)
    requires
        g + item_count(name.len()) <= room.len(),
        forall|i: int| 0 <= i < room.len() ==> (#[trigger] room[i]).len() == 32,
    ensures
        ({
            let items1 = placed(room, g, name, c, t, uid);
            &&& items1.len() == room.len()
            &&& forall|j: nat| j < item_count(name.len()) ==> #[trigger] items1[(g + j) as int] == gen_item(name, c, t, uid, j)
            &&& forall|i: int| 0 <= i < items1.len() ==> (#[trigger] items1[i]).len() == 32
            &&& forall|j: int| 0 <= j < g ==> #[trigger] items1[j] == room[j]
            &&& g + 1 < items1.len() && item_count(name.len()) == 1 ==> items1[g as int + 1] == room[g as int + 1]
            &&& items1[g as int][0] == SHORT_FLAG
            &&& item_entry(items1[g as int]) == c
        }),
{
    let n = item_count(name.len());
    let items1 = placed(room, g, name, c, t, uid);
    assert forall|i: int| 0 <= i < items1.len() implies (#[trigger] items1[i]).len() == 32 by {
        if g <= i < g + n {
            assert(items1[i] == gen_item(name, c, t, uid, (i - g) as nat));
        }
    }
    let it = items1[g as int];
    assert(it == gen_item(name, c, t, uid, 0));
    lemma_u32_bytes_roundtrip(c);
}

/// A new entry is found under its name: once a name that the directory did
/// not hold was added, looking the name up gives the first entry of the
/// new file, which starts at the block that was the lowest free one.
pub proof fn law_lookup_after_create(s0: DirServant, d0: Seq<u8>, s1: DirServant, d1: Seq<u8>, name: Seq<u8>, t: FileType, uid: u8)
    requires
        s0.wf(d0),
        chains_ok(s0.items(d0)),
        no_zero(name),
        1 <= name.len() <= MAX_NAME_LEN,
        first_named(s0.items(d0), bytes_to_chars(name), 0) is None,
        new_item_post(s0, d0, s1, d1, name, t, uid),
    ensures
        first_named(s1.items(d1), bytes_to_chars(name), 0) matches Some(i)
            && s1.items(d1)[i as int][0] == SHORT_FLAG
            && item_entry(s1.items(d1)[i as int]) == first_free(d0),
        lookup(s1.items(d1), bytes_to_chars(name)) == Some(first_free(d0) as u32),
{
    let items0 = s0.items(d0);
    let n = item_count(name.len());
    let g = gap_start(items0, n);
    let room = room_for(s0, d0, n);
    let c = first_free(d0);
    let items1 = s1.items(d1);
    let nm = bytes_to_chars(name);
    lemma_post_items(s0, d0, s1, d1, name, t, uid);
    assert(room_fits(s0, d0, n));
    lemma_place(s0, d0, n);
    lemma_placed_items(room, g, name, c as u32, t, uid);
    law_name_roundtrip(items1, g, name, c as u32, t, uid);
    assert(name_chars(items1, g) == nm);
    assert(named_at(items1, g, nm));
    assert forall|k: nat| 0 <= k < g implies !#[trigger] named_at(items1, k, nm) by {
        lemma_name_before(items0, items1, g, k, false);
        lemma_not_named(items0, nm, 0, k);
        assert(items1[k as int] == items0[k as int]);
    }
    lemma_named_first(items1, nm, 0, g);
}

/// The flags of the entries written for a name: every entry after the
/// first continues it, the last one ends it and the others are middle
/// parts.
proof fn lemma_gen_flags(name: Seq<u8>, entry: u32, t: FileType, uid: u8, j: nat)
    requires
        1 <= name.len() <= MAX_NAME_LEN,
        1 <= j < item_count(name.len()),
    ensures
        continues(gen_item(name, entry, t, uid, j)),
        j + 1 < item_count(name.len()) ==> is_middle(gen_item(name, entry, t, uid, j)),
        j + 1 == item_count(name.len()) ==> gen_item(name, entry, t, uid, j)[0] == LONG_END_FLAG,
{
    let n = item_count(name.len());
    let off = long_offset(j);
    let it = gen_item(name, entry, t, uid, j);
    assert(name.len() > 25);
    if name.len() > off + 31 {
        assert(j + 1 < n) by (nonlinear_arith)
            requires off == 25 + 31 * (j - 1), name.len() > off + 31, n == 1 + (name.len() - 25 + 30) / 31;
        assert(j + 1 <= 34) by (nonlinear_arith)
            requires j + 1 < n, n == 1 + (name.len() - 25 + 30) / 31, name.len() <= 1024;
        assert(it[0] == (j + 1) as u8);
    } else {
        assert(j + 1 == n) by (nonlinear_arith)
            requires off == 25 + 31 * (j - 1), name.len() <= off + 31, j < n, n == 1 + (name.len() - 25 + 30) / 31;
        assert(it[0] == LONG_END_FLAG);
    }
}

/// A fresh table of unused entries keeps the entries of every name
/// together.
pub proof fn lemma_unused_chains_ok(k: nat)
    ensures
        chains_ok(Seq::new(k, |i: int| zeros(32))),
{
}

/// Making an entry keeps the entries of every name together.
pub proof fn law_create_keeps_chains(s0: DirServant, d0: Seq<u8>, s1: DirServant, d1: Seq<u8>, name: Seq<u8>, t: FileType, uid: u8)
    requires
        s0.wf(d0),
        chains_ok(s0.items(d0)),
        1 <= name.len() <= MAX_NAME_LEN,
        new_item_post(s0, d0, s1, d1, name, t, uid),
    ensures
        chains_ok(s1.items(d1)),
{
    let items0 = s0.items(d0);
    let n = item_count(name.len());
    let g = gap_start(items0, n);
    let room = room_for(s0, d0, n);
    let c = first_free(d0) as u32;
    let items1 = s1.items(d1);
    lemma_post_items(s0, d0, s1, d1, name, t, uid);
    assert(room_fits(s0, d0, n));
    lemma_place(s0, d0, n);
    lemma_placed_items(room, g, name, c, t, uid);
    lemma_first_gap_found(items0, n, 0);
    let gap = first_gap(items0, n, 0) is Some;
    if gap {
        assert(room == items0);
    } else {
        assert(g == items0.len());
    }
    assert forall|i: int| 0 <= i < items1.len() && #[trigger] is_middle(items1[i])
        implies i + 1 < items1.len() && continues(items1[i + 1]) by {
        if g <= i < g + n {
            let j = (i - g) as nat;
            assert(items1[(g + j) as int] == gen_item(name, c, t, uid, j));
            if j == 0 {
                assert(items1[i][0] == SHORT_FLAG);
            } else {
                lemma_gen_flags(name, c, t, uid, j);
                assert(j + 1 < n);
                lemma_gen_flags(name, c, t, uid, j + 1);
                assert(items1[(g + (j + 1)) as int] == gen_item(name, c, t, uid, j + 1));
            }
        } else if i < g {
            assert(items1[i] == items0[i]);
            assert(i + 1 < items0.len() && continues(items0[i + 1]));
            if i + 1 == g {
                assert(items0[g as int][0] == NON_USE_FLAG);
            }
            assert(items1[i + 1] == items0[i + 1]);
        } else {
            if gap {
                assert(items1[i] == items0[i]);
                assert(items1[i + 1] == items0[i + 1]);
            } else {
                assert(room[i] == zeros(32));
            }
        }
    }
    assert forall|i: int| 0 <= i < items1.len() && #[trigger] continues(items1[i])
        implies i > 0 && (items1[i - 1][0] == SHORT_FLAG || is_middle(items1[i - 1])) by {
        if g <= i < g + n {
            let j = (i - g) as nat;
            assert(items1[(g + j) as int] == gen_item(name, c, t, uid, j));
            if j == 0 {
                assert(items1[i][0] == SHORT_FLAG);
            } else {
                assert(items1[(g + (j - 1) as nat) as int] == gen_item(name, c, t, uid, (j - 1) as nat));
                if j >= 2 {
                    lemma_gen_flags(name, c, t, uid, (j - 1) as nat);
                }
            }
        } else if i < g {
            assert(items1[i] == items0[i]);
            assert(items1[i - 1] == items0[i - 1]);
        } else {
            if gap {
                assert(items1[i] == items0[i]);
                assert(continues(items0[i]));
                if i - 1 < g + n {
                    let z = (i - 1 - g) as nat;
                    assert(items0[(g + z) as int][0] == NON_USE_FLAG);
                }
                assert(items1[i - 1] == items0[i - 1]);
            } else {
                assert(room[i] == zeros(32));
            }
        }
    }
}

/// Where clearing a name stops: past the middle parts that follow, and past
/// the last part when there is one.
proof fn lemma_clear_end(items: Seq<Seq<u8>>, k: nat)
    ensures
        k <= clear_end(items, k, true),
        clear_end(items, k, true) <= items.len() || k > items.len(),
        ({
            let r = clear_end(items, k, true);
            r < items.len() && continues(items[r as int]) ==> r > k && items[r - 1][0] == LONG_END_FLAG
        }),
        forall|m: int| k <= m < clear_end(items, k, true) ==> #[trigger] continues(items[m]),
    decreases items.len() - k,
{
    if k < items.len() {
        let f = items[k as int][0];
        if f != NON_USE_FLAG && f != SHORT_FLAG && f != LONG_END_FLAG {
            lemma_clear_end(items, k + 1);
        }
    }
}

/// Clearing entries `i .. b` keeps every middle part followed by a part
/// that continues its name.
#[verifier::rlimit(60)]
proof fn lemma_cleared_middles(items0: Seq<Seq<u8>>, i: nat, b: nat)
    requires
        chains_ok(items0),
        i < items0.len(),
        i < b <= items0.len(),
        items0[i as int][0] == SHORT_FLAG,
        b < items0.len() ==> !continues(items0[b as int]),
    ensures
        forall|m: int| 0 <= m < items0.len() && #[trigger] is_middle(cleared(items0, i, b)[m])
            ==> m + 1 < items0.len() && continues(cleared(items0, i, b)[m + 1]),
{
    let items1 = cleared(items0, i, b);
    assert forall|m: int| 0 <= m < items0.len() && #[trigger] is_middle(items1[m])
        implies m + 1 < items0.len() && continues(items1[m + 1]) by {
        if i <= m < b {
            assert(items1[m] == zeros(32));
        } else {
            assert(items1[m] == items0[m]);
            assert(continues(items0[m + 1]));
            if m + 1 == i {
                assert(items0[i as int][0] == SHORT_FLAG);
            }
            assert(items1[m + 1] == items0[m + 1]);
        }
    }
}

/// Clearing entries `i .. b` keeps every part that continues a name right
/// after its first entry or a middle part.
#[verifier::rlimit(60)]
proof fn lemma_cleared_continues(items0: Seq<Seq<u8>>, i: nat, b: nat)
    requires
        chains_ok(items0),
        i < b <= items0.len(),
        b < items0.len() ==> !continues(items0[b as int]),
    ensures
        forall|m: int| 0 <= m < items0.len() && #[trigger] continues(cleared(items0, i, b)[m])
            ==> m > 0 && (cleared(items0, i, b)[m - 1][0] == SHORT_FLAG || is_middle(cleared(items0, i, b)[m - 1])),
{
    let items1 = cleared(items0, i, b);
    assert forall|m: int| 0 <= m < items0.len() && #[trigger] continues(items1[m])
        implies m > 0 && (items1[m - 1][0] == SHORT_FLAG || is_middle(items1[m - 1])) by {
        if i <= m < b {
            assert(items1[m] == zeros(32));
            assert(zeros(32)[0] == 0u8);
        } else {
            assert(items1[m] == items0[m]);
            assert(continues(items0[m]));
            assert(m > 0);
            assert(m != b);
            assert(!(i <= m - 1 < b));
            assert(items1[m - 1] == items0[m - 1]);
        }
    }
}

/// Deleting a name keeps the entries of every other name together.
pub proof fn law_delete_keeps_chains(items0: Seq<Seq<u8>>, i: nat)
    requires
        chains_ok(items0),
        i < items0.len(),
        items0[i as int][0] == SHORT_FLAG,
    ensures
        chains_ok(cleared(items0, i, clear_end(items0, i, false))),
{
    let b = clear_end(items0, i, false);
    assert(b == clear_end(items0, i + 1, true));
    lemma_clear_end(items0, i + 1);
    if b < items0.len() && continues(items0[b as int]) {
        assert(items0[b - 1][0] == LONG_END_FLAG);
        assert(items0[(b as int) - 1][0] == SHORT_FLAG || is_middle(items0[(b as int) - 1]));
    }
    lemma_cleared_middles(items0, i, b);
    lemma_cleared_continues(items0, i, b);
}

/// No two first entries of names in the table hold the same name.
pub open spec fn unique_names(items: Seq<Seq<u8>>) -> bool {
    forall|i: nat, j: nat| i < j < items.len() && items[i as int][0] == SHORT_FLAG && items[j as int][0] == SHORT_FLAG
        ==> #[trigger] name_chars(items, i) != #[trigger] name_chars(items, j)
}

/// What looking `name` up in a table gives: the block of the first entry
/// that starts a name and has that name.
pub open spec fn lookup(items: Seq<Seq<u8>>, name: Seq<char>) -> Option<u32> {
    match first_named(items, name, 0) {
        Some(i) => Some(item_entry(items[i as int])),
        None => None,
    }
}

/// The entry the search finds has the name, and no entry before it has.
proof fn lemma_first_named_found(items: Seq<Seq<u8>>, nm: Seq<char>, j: nat)
    ensures
        first_named(items, nm, j) matches Some(g) ==> j <= g < items.len() && named_at(items, g, nm)
            && forall|k: nat| j <= k < g ==> !#[trigger] named_at(items, k, nm),
        first_named(items, nm, j) is None ==> forall|k: nat| j <= k < items.len() ==> !#[trigger] named_at(items, k, nm),
    decreases items.len() - j,
{
    if j < items.len() && !named_at(items, j, nm) {
        lemma_first_named_found(items, nm, j + 1);
    }
}

/// A fresh table of unused entries holds no name twice.
pub proof fn lemma_unused_unique(k: nat)
    ensures
        unique_names(Seq::new(k, |i: int| zeros(32))),
{
}

/// Making an entry for a name the directory did not hold keeps the names
/// of the directory unique.
pub proof fn law_create_keeps_unique(s0: DirServant, d0: Seq<u8>, s1: DirServant, d1: Seq<u8>, name: Seq<u8>, t: FileType, uid: u8)
    requires
        s0.wf(d0),
        chains_ok(s0.items(d0)),
        unique_names(s0.items(d0)),
        no_zero(name),
        1 <= name.len() <= MAX_NAME_LEN,
        first_named(s0.items(d0), bytes_to_chars(name), 0) is None,
        new_item_post(s0, d0, s1, d1, name, t, uid),
    ensures
        unique_names(s1.items(d1)),
{
    let items0 = s0.items(d0);
    let n = item_count(name.len());
    let g = gap_start(items0, n);
    let room = room_for(s0, d0, n);
    let c = first_free(d0) as u32;
    let items1 = s1.items(d1);
    let nm = bytes_to_chars(name);
    lemma_post_items(s0, d0, s1, d1, name, t, uid);
    assert(room_fits(s0, d0, n));
    lemma_place(s0, d0, n);
    lemma_placed_items(room, g, name, c, t, uid);
    law_name_roundtrip(items1, g, name, c, t, uid);
    lemma_first_named_found(items0, nm, 0);
    lemma_first_gap_found(items0, n, 0);
    let gap = first_gap(items0, n, 0) is Some;
    if gap {
        assert(room == items0);
    }
    // every first entry other than the new one reads as before
    assert forall|k: nat| k < items1.len() && items1[k as int][0] == SHORT_FLAG && k != g
        implies k < items0.len() && items0[k as int][0] == SHORT_FLAG && #[trigger] name_chars(items1, k) == name_chars(items0, k) by {
        if k < g {
            assert(items1[k as int] == items0[k as int]);
            lemma_name_before(items0, items1, g, k, false);
        } else if k < g + n {
            let j = (k - g) as nat;
            assert(items1[(g + j) as int] == gen_item(name, c, t, uid, j));
            lemma_gen_flags(name, c, t, uid, j);
        } else {
            if gap {
                assert(items1[k as int] == items0[k as int]);
                assert forall|m: int| g + n <= m < items0.len() implies #[trigger] items1[m] == items0[m] by {
                    assert(items1[m] == room[m]);
                }
                lemma_name_after(items0, items1, g + n, k, false);
            } else {
                assert(room[k as int] == zeros(32));
            }
        }
    }
    assert forall|i: nat, j: nat| i < j < items1.len() && items1[i as int][0] == SHORT_FLAG && items1[j as int][0] == SHORT_FLAG
        implies #[trigger] name_chars(items1, i) != #[trigger] name_chars(items1, j) by {
        if i == g {
            assert(name_chars(items1, j) == name_chars(items0, j));
            assert(!named_at(items0, j, nm));
        } else if j == g {
            assert(name_chars(items1, i) == name_chars(items0, i));
            assert(!named_at(items0, i, nm));
        } else {
            assert(name_chars(items1, i) == name_chars(items0, i));
            assert(name_chars(items1, j) == name_chars(items0, j));
        }
    }
}

/// Clearing the entries of the name that starts at `i` leaves every other
/// first entry reading as before.
proof fn lemma_cleared_names(items0: Seq<Seq<u8>>, i: nat, k: nat)
    requires
        chains_ok(items0),
        i < items0.len(),
        items0[i as int][0] == SHORT_FLAG,
        k < items0.len(),
        !(i <= k < clear_end(items0, i, false)),
    ensures
        name_chars(cleared(items0, i, clear_end(items0, i, false)), k) == name_chars(items0, k),
{
    let b = clear_end(items0, i, false);
    assert(b == clear_end(items0, i + 1, true));
    lemma_clear_end(items0, i + 1);
    let items1 = cleared(items0, i, b);
    if k < i {
        if i > 0 && is_middle(items0[i - 1]) {
            assert(continues(items0[(i - 1) + 1]));
        }
        lemma_name_before(items0, items1, i, k, false);
    } else {
        lemma_name_after(items0, items1, b, k, false);
    }
}

/// Deleting a name keeps the names of the directory unique.
pub proof fn law_delete_keeps_unique(items0: Seq<Seq<u8>>, i: nat)
    requires
        chains_ok(items0),
        unique_names(items0),
        i < items0.len(),
        items0[i as int][0] == SHORT_FLAG,
    ensures
        unique_names(cleared(items0, i, clear_end(items0, i, false))),
{
    let b = clear_end(items0, i, false);
    assert(b == clear_end(items0, i + 1, true));
    lemma_clear_end(items0, i + 1);
    let items1 = cleared(items0, i, b);
    assert forall|x: nat, y: nat| x < y < items1.len() && items1[x as int][0] == SHORT_FLAG && items1[y as int][0] == SHORT_FLAG
        implies #[trigger] name_chars(items1, x) != #[trigger] name_chars(items1, y) by {
        assert(!(i <= x < b)) by {
            if i <= x < b {
                assert(items1[x as int] == zeros(32));
            }
        }
        assert(!(i <= y < b)) by {
            if i <= y < b {
                assert(items1[y as int] == zeros(32));
            }
        }
        lemma_cleared_names(items0, i, x);
        lemma_cleared_names(items0, i, y);
        assert(items1[x as int] == items0[x as int]);
        assert(items1[y as int] == items0[y as int]);
    }
}

/// Once a name is deleted, looking it up finds no file.
pub proof fn law_lookup_after_delete(items0: Seq<Seq<u8>>, name: Seq<char>, i: nat)
    requires
        chains_ok(items0),
        unique_names(items0),
        name.len() > 0,
        first_named(items0, name, 0) == Some(i),
        items0[i as int][0] == SHORT_FLAG,
    ensures
        lookup(cleared(items0, i, clear_end(items0, i, false)), name) is None,
{
    lemma_first_named_found(items0, name, 0);
    let b = clear_end(items0, i, false);
    assert(b == clear_end(items0, i + 1, true));
    lemma_clear_end(items0, i + 1);
    let items1 = cleared(items0, i, b);
    lemma_first_named_found(items1, name, 0);
    match first_named(items1, name, 0) {
        Some(k) => {
            if items1[k as int][0] == SHORT_FLAG {
                assert(!(i <= k < b)) by {
                    if i <= k < b {
                        assert(items1[k as int] == zeros(32));
                    }
                }
                lemma_cleared_names(items0, i, k);
                assert(items1[k as int] == items0[k as int]);
                if k < i {
                    assert(name_chars(items0, k) != name);
                } else {
                    assert(i < k);
                    assert(name_chars(items0, i) != name_chars(items0, k));
                }
            }
        },
        None => {},
    }
}

/// A name given to a new entry is read back from where it was stored: in
/// a directory whose names lie together, once making the entry named
/// `name` succeeded, the name read from the entry's first slot is `name`'s
/// bytes, what `DirServant::get_name` gives there as characters.
pub proof fn law_new_item_name(s0: DirServant, d0: Seq<u8>, s1: DirServant, d1: Seq<u8>, name: Seq<char>, t: FileType, uid: u8)
    requires
        s0.wf(d0),
        chains_ok(s0.items(d0)),
        new_item_spec(s0, d0, s1, d1, name, t, uid, Ok(())),
        no_zero(encode_utf8(name)),
        1 <= encode_utf8(name).len() <= MAX_NAME_LEN,
    ensures
        ({
            let g = gap_start(s0.items(d0), item_count(encode_utf8(name).len()));
            &&& name_from(s1.items(d1), g, false) == encode_utf8(name)
            &&& name_chars(s1.items(d1), g) == bytes_to_chars(encode_utf8(name))
        }),
{
    let nm = encode_utf8(name);
    let n = item_count(nm.len());
    let g = gap_start(s0.items(d0), n);
    let room = room_for(s0, d0, n);
    let c = first_free(d0) as u32;
    assert(new_item_post(s0, d0, s1, d1, nm, t, uid));
    lemma_post_items(s0, d0, s1, d1, nm, t, uid);
    lemma_place(s0, d0, n);
    lemma_placed_items(room, g, nm, c, t, uid);
    law_name_roundtrip(s1.items(d1), g, nm, c, t, uid);
}

} // verus!
