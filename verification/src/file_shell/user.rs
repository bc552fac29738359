use vstd::prelude::*;

verus! {

/// The user a name stands for in a table of users, if any: the first entry
/// with that name.
pub open spec fn user_of(table: Seq<(Seq<char>, u8)>, name: Seq<char>) -> Option<u8>
    decreases table.len(),
{
    if table.len() == 0 {
        None
    } else if table[0].0 == name {
        Some(table[0].1)
    } else {
        user_of(table.drop_first(), name)
    }
}

/// A name stands for a user only as listed: the id found for a name is
/// paired with that very name in the table, no entry before it has the
/// name, and a name the table lists is always found.
pub proof fn law_user_of(table: Seq<(Seq<char>, u8)>, name: Seq<char>)
    ensures
        user_of(table, name) matches Some(u) ==> exists|i: int| 0 <= i < table.len() && #[trigger] table[i] == (name, u)
            && forall|j: int| 0 <= j < i ==> (#[trigger] table[j]).0 != name,
        (exists|i: int| 0 <= i < table.len() && #[trigger] table[i].0 == name) ==> user_of(table, name) is Some,
    decreases table.len(),
{
    if table.len() > 0 {
        let rest = table.drop_first();
        law_user_of(rest, name);
        if table[0].0 == name {
            assert(table[0] == (name, table[0].1));
        } else {
            if user_of(table, name) is Some {
                let u = user_of(table, name).unwrap();
                let i = choose|i: int| 0 <= i < rest.len() && #[trigger] rest[i] == (name, u)
                    && forall|j: int| 0 <= j < i ==> (#[trigger] rest[j]).0 != name;
                assert(table[i + 1] == rest[i]);
                assert forall|j: int| 0 <= j < i + 1 implies (#[trigger] table[j]).0 != name by {
                    if j > 0 {
                        assert(table[j] == rest[j - 1]);
                    }
                }
            }
            if exists|i: int| 0 <= i < table.len() && #[trigger] table[i].0 == name {
                let i = choose|i: int| 0 <= i < table.len() && #[trigger] table[i].0 == name;
                assert(i > 0);
                assert(rest[i - 1] == table[i]);
            }
        }
    }
}

/// The users allowed in the file system, by name.
pub struct UserManager {
    pub user_table: Vec<(String, u8)>,
}

impl UserManager {
    /// The table of users, by name.
    pub open spec fn table(&self) -> Seq<(Seq<char>, u8)> {
        Seq::new(self.user_table@.len(), |i: int| (self.user_table@[i].0@, self.user_table@[i].1))
    }

    /// The users of the file system: `Warth` (1), `SCUT` (2) and `root` (0).
    pub fn new() -> (m: Self)
        ensures
            m.table() == seq![("Warth"@, 1u8), ("SCUT"@, 2u8), ("root"@, 0u8)],
    {
        let mut table: Vec<(String, u8)> = Vec::new();
        table.push(("Warth".to_owned(), 1));
        table.push(("SCUT".to_owned(), 2));
        table.push(("root".to_owned(), 0));
        let m = Self { user_table: table };
        assert(m.table() =~= seq![("Warth"@, 1u8), ("SCUT"@, 2u8), ("root"@, 0u8)]);
        m
    }

    /// The id of the user named `user`.
    pub fn find_user(&self, user: &str) -> (r: Option<u8>)
        ensures
            r == user_of(self.table(), user@),
    {
        let wanted = user.to_owned();
        let mut i: usize = 0;
        assert(self.table().subrange(0, self.table().len() as int) =~= self.table());
        while i < self.user_table.len()
            invariant
                i <= self.user_table@.len(),
                wanted@ == user@,
                user_of(self.table(), user@) == user_of(self.table().subrange(i as int, self.table().len() as int), user@),
            decreases self.user_table@.len() - i,
        {
            let ghost rest = self.table().subrange(i as int, self.table().len() as int);
            assert(rest[0] == (self.user_table@[i as int].0@, self.user_table@[i as int].1));
            if self.user_table[i].0 == wanted {
                return Some(self.user_table[i].1);
            }
            assert(rest.drop_first() =~= self.table().subrange(i + 1, self.table().len() as int));
            i = i + 1;
        }
        assert(self.table().subrange(i as int, self.table().len() as int) =~= Seq::<(Seq<char>, u8)>::empty());
        None
    }
}

} // verus!
