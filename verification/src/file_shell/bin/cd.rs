use vstd::prelude::*;
use crate::file_shell::error::FileSystemOperationError;
use crate::disk::{fs_wf, VirtualDisk};
use crate::file_shell::file_table::FileTable;
use crate::file_shell::root_file::{file_at_path, open_error, path_parts, RawRootFile, VFile};
use crate::text::{chars_of, concat, is_white_space, string_from_chars, trim, trimmed};

verus! {

/// What `cd` from `shell_path` by the line `command` gives.
pub open spec fn cd_post(d0: Seq<u8>, root: nat, shell_path: Seq<char>, command: Seq<char>, r: Result<String, FileSystemOperationError>) -> bool {
    match args_scan(after_name(trimmed(command))) {
        None => r matches Err(FileSystemOperationError::TooManyArgumentsError(m)) && m@ == "向cd输入了过多的参数:"@ + command,
        Some(st) => {
            let after = path_walk(path_parts(shell_path).push(st.0));
            match file_at_path(d0, root, after) {
                None => r matches Err(e) && open_error(d0, root, after, e),
                Some(VFile::ZFile(_)) => r matches Err(FileSystemOperationError::NotDirError(m)) && m@ == "这不是一个目录:"@ + command,
                Some(VFile::ZDir(_)) => r matches Ok(p) && p@ == after,
            }
        },
    }
}


/// The index of the last `/` of `s`, or -1 when it has none.
pub open spec fn last_slash(s: Seq<char>) -> int
    decreases s.len(),
{
    if s.len() == 0 {
        -1
    } else if s.last() == '/' {
        s.len() - 1
    } else {
        last_slash(s.drop_last())
    }
}

/// Where the last slash lies.
pub proof fn lemma_last_slash(s: Seq<char>)
    ensures
        -1 <= last_slash(s) < s.len(),
        last_slash(s) >= 0 ==> s[last_slash(s)] == '/',
        s.len() > 0 && s[0] == '/' ==> last_slash(s) >= 0,
        forall|j: int| last_slash(s) < j < s.len() ==> s[j] != '/',
    decreases s.len(),
{
    if s.len() > 0 && s.last() != '/' {
        lemma_last_slash(s.drop_last());
        assert forall|j: int| last_slash(s) < j < s.len() implies s[j] != '/' by {
            if j < s.len() - 1 {
                assert(s.drop_last()[j] == s[j]);
            }
        }
        if s[0] == '/' {
            assert(s.drop_last()[0] == s[0]);
        }
        if last_slash(s) >= 0 {
            assert(s.drop_last()[last_slash(s)] == s[last_slash(s)]);
        }
    }
}

/// The path `ans` after walking to one more part: `.` and empty parts stay,
/// `..` goes up one level (not above the root), any other part goes down.
pub open spec fn path_step(ans: Seq<char>, part: Seq<char>) -> Seq<char> {
    if part.len() == 0 || part == seq!['.'] {
        ans
    } else if part == seq!['.', '.'] {
        if ans.len() <= 1 { ans } else { ans.take(last_slash(ans.drop_last()) + 1) }
    } else {
        ans + part + seq!['/']
    }
}

/// The path the parts lead to from the root, ending with a slash.
pub open spec fn path_walk(parts: Seq<Seq<char>>) -> Seq<char>
    decreases parts.len(),
{
    if parts.len() == 0 {
        seq!['/']
    } else {
        path_step(path_walk(parts.drop_last()), parts.last())
    }
}

/// A walked path starts with a slash.
pub proof fn lemma_path_walk_root(parts: Seq<Seq<char>>)
    ensures
        path_walk(parts).len() >= 1,
        path_walk(parts)[0] == '/',
    decreases parts.len(),
{
    if parts.len() > 0 {
        let ans = path_walk(parts.drop_last());
        lemma_path_walk_root(parts.drop_last());
        if ans.len() > 1 {
            lemma_last_slash(ans.drop_last());
        }
    }
}

/// The path the parts lead to from the root.
pub fn from_vec_to_path(vec: Vec<String>) -> (s: String)
    ensures
        s@ == path_walk(vec.deep_view()),
{
    let ghost parts = vec.deep_view();
    let mut ans: Vec<char> = Vec::new();
    ans.push('/');
    let mut k: usize = 0;
    assert(parts.take(0) =~= Seq::<Seq<char>>::empty());
    while k < vec.len()
        invariant
            parts == vec.deep_view(),
            k <= parts.len(),
            ans@ == path_walk(parts.take(k as int)),
        decreases parts.len() - k,
    {
        let part = chars_of(vec[k].as_str());
        assert(parts.take(k + 1).drop_last() =~= parts.take(k as int));
        assert(part@ == parts[k as int]);
        proof { lemma_path_walk_root(parts.take(k as int)); }
        if part.len() == 0 {
        } else if part.len() == 2 && part[0] == '.' && part[1] == '.' {
            assert(part@ =~= seq!['.', '.']);
            if ans.len() == 1 {
            } else {
                let ghost a0 = ans@;
                ans.pop();
                let mut j: usize = ans.len() - 1;
                proof { lemma_last_slash(a0.drop_last()); }
                while ans[j] != '/'
                    invariant
                        ans@ == a0.drop_last(),
                        j < ans@.len(),
                        last_slash(a0.drop_last()) <= j,
                        last_slash(a0.drop_last()) >= 0,
                        a0.drop_last()[last_slash(a0.drop_last())] == '/',
                        ans@[0] == '/',
                    decreases j,
                {
                    j = j - 1;
                }
                ans.truncate(j + 1);
            }
        } else if part.len() == 1 && part[0] == '.' {
            assert(part@ =~= seq!['.']);
        } else {
            assert(part@ != seq!['.', '.']);
            assert(part@ != seq!['.']);
            let ghost a0 = ans@;
            let mut i: usize = 0;
            while i < part.len()
                invariant
                    i <= part@.len(),
                    ans@ == a0 + part@.take(i as int),
                decreases part@.len() - i,
            {
                ans.push(part[i]);
                i = i + 1;
                assert(ans@ =~= a0 + part@.take(i as int));
            }
            ans.push('/');
            assert(ans@ =~= a0 + part@ + seq!['/']);
        }
        k = k + 1;
    }
    assert(parts.take(parts.len() as int) =~= parts);
    string_from_chars(&ans)
}

/// What reading the characters of a `cd` argument leaves: the argument so
/// far, whether it started, and whether it ended; `None` once something
/// follows its end.
pub open spec fn args_scan(cs: Seq<char>) -> Option<(Seq<char>, bool, bool)>
    decreases cs.len(),
{
    if cs.len() == 0 {
        Some((Seq::empty(), false, false))
    } else {
        match args_scan(cs.drop_last()) {
            None => None,
            Some(st) => {
                let (ans, flag, end) = st;
                let i = cs.last();
                if i == ' ' && !flag {
                    Some((ans, flag, end))
                } else if i != ' ' && !flag {
                    Some((ans.push(i), true, end))
                } else if i == '/' || i == ' ' {
                    Some((ans, flag, true))
                } else if end {
                    None
                } else {
                    Some((ans.push(i), flag, end))
                }
            },
        }
    }
}

/// Once something follows the argument, nothing more read changes that.
pub proof fn lemma_args_none(cs: Seq<char>, n: nat)
    requires
        n <= cs.len(),
        args_scan(cs.take(n as int)) is None,
    ensures
        args_scan(cs) is None,
    decreases cs.len() - n,
{
    if n < cs.len() {
        assert(cs.take((n + 1) as int).drop_last() =~= cs.take(n as int));
        lemma_args_none(cs, n + 1);
    } else {
        assert(cs.take(n as int) =~= cs);
    }
}

/// The characters of a command after its first two, the command's name.
pub open spec fn after_name(cs: Seq<char>) -> Seq<char> {
    if cs.len() >= 2 { cs.subrange(2, cs.len() as int) } else { Seq::empty() }
}

/// What scanning the words after `cd` keeps: no space, and no slash but
/// maybe as its first character; and it has begun exactly when it holds a
/// character.
proof fn lemma_args_shape(cs: Seq<char>)
    ensures
        args_scan(cs) matches Some(st) ==> {
            &&& st.1 <==> st.0.len() > 0
            &&& forall|k: int| 0 <= k < st.0.len() ==> #[trigger] st.0[k] != ' '
            &&& forall|k: int| 1 <= k < st.0.len() ==> #[trigger] st.0[k] != '/'
        },
    decreases cs.len(),
{
    if cs.len() > 0 {
        lemma_args_shape(cs.drop_last());
        match args_scan(cs.drop_last()) {
            Some(st) => {
                let (ans, flag, end) = st;
                let i = cs.last();
                assert forall|k: int| 0 <= k < ans.push(i).len() && k < ans.len() implies #[trigger] ans.push(i)[k] == ans[k] by {}
            },
            None => {},
        }
    }
}

/// The argument `cd` takes is one word: it holds no space, and no slash
/// after its first character, for a slash ends it.
pub proof fn law_cd_argument_shape(command: Seq<char>)
    ensures
        args_scan(after_name(trimmed(command))) matches Some(st) ==> {
            &&& forall|k: int| 0 <= k < st.0.len() ==> #[trigger] st.0[k] != ' '
            &&& forall|k: int| 1 <= k < st.0.len() ==> #[trigger] st.0[k] != '/'
        },
{
    lemma_args_shape(after_name(trimmed(command)));
}

/// Scanning a space and then a plain name gives the name.
proof fn lemma_args_plain(n: Seq<char>)
    requires
        forall|k: int| 0 <= k < n.len() ==> #[trigger] n[k] != ' ' && n[k] != '/',
    ensures
        args_scan(seq![' '] + n) == Some((n, n.len() > 0, false)),
    decreases n.len(),
{
    let cs = seq![' '] + n;
    if n.len() == 0 {
        assert(cs.drop_last() =~= Seq::<char>::empty());
        assert(n =~= Seq::<char>::empty());
        assert(cs.last() == ' ');
        assert(args_scan(cs.drop_last()) == Some((Seq::<char>::empty(), false, false)));
        assert(args_scan(cs) == Some((Seq::<char>::empty(), false, false)));
    } else {
        let m = n.drop_last();
        assert forall|k: int| 0 <= k < m.len() implies #[trigger] m[k] != ' ' && m[k] != '/' by {
            assert(m[k] == n[k]);
        }
        lemma_args_plain(m);
        assert(cs.drop_last() =~= seq![' '] + m);
        assert(cs.last() == n[n.len() - 1]);
        assert(m.push(n.last()) =~= n);
        assert(n.last() == n[n.len() - 1]);
        assert(n.last() != ' ' && n.last() != '/');
        assert(args_scan(cs) == Some((m.push(n.last()), true, false)));
    }
}

/// `cd` takes the name it is given, with or without a slash after it:
/// for a name of characters other than spaces, slashes and white space,
/// the argument of `cd name` and of `cd name/` is the name.
pub proof fn law_cd_argument(n: Seq<char>)
    requires
        n.len() > 0,
        forall|k: int| 0 <= k < n.len() ==> #[trigger] n[k] != ' ' && n[k] != '/' && !is_white_space(n[k]),
    ensures
        args_scan(after_name(trimmed("cd "@ + n))) matches Some(st) && st.0 == n,
        args_scan(after_name(trimmed("cd "@ + n + "/"@))) matches Some(st) && st.0 == n,
{
    reveal_strlit("cd ");
    reveal_strlit("/");
    let a = "cd "@ + n;
    let b = "cd "@ + n + "/"@;
    lemma_trim_plain(a);
    lemma_trim_plain(b);
    assert(after_name(a) =~= seq![' '] + n);
    assert(after_name(b) =~= (seq![' '] + n).push('/'));
    assert forall|k: int| 0 <= k < n.len() implies #[trigger] n[k] != ' ' && n[k] != '/' by {}
    lemma_args_plain(n);
    assert((seq![' '] + n).push('/').drop_last() =~= seq![' '] + n);
}

/// A text that starts and ends with characters other than white space is
/// its own trimmed text.
proof fn lemma_trim_plain(s: Seq<char>)
    requires
        s.len() > 0,
        !is_white_space(s[0]),
        !is_white_space(s.last()),
    ensures
        trimmed(s) == s,
{
}

/// The argument of a `cd` command: the first word after `cd`, up to a
/// slash; `Err(TooManyArgumentsError)` when more follows it.
pub fn get_args(command: &str) -> (r: Result<String, FileSystemOperationError>)
    ensures
        match args_scan(after_name(trimmed(command@))) {
            Some(st) => r matches Ok(a) && a@ == st.0,
            None => r matches Err(FileSystemOperationError::TooManyArgumentsError(m)) && m@ == "向cd输入了过多的参数:"@ + command@,
        },
{
    let cs = chars_of(trim(command));
    let ghost rest = after_name(cs@);
    let mut ans: Vec<char> = Vec::new();
    let mut flag = false;
    let mut end = false;
    let start: usize = if cs.len() < 2 { cs.len() } else { 2 };
    let mut k: usize = start;
    assert(rest =~= cs@.subrange(start as int, cs@.len() as int));
    assert(rest.take(0) =~= Seq::<char>::empty());
    while k < cs.len()
        invariant
            rest == cs@.subrange(start as int, cs@.len() as int),
            rest == after_name(trimmed(command@)),
            start <= k <= cs@.len(),
            args_scan(rest.take(k - start)) == Some((ans@, flag, end)),
        decreases cs@.len() - k,
    {
        let i = cs[k];
        let ghost n = k - start;
        assert(rest.take(n + 1).drop_last() =~= rest.take(n));
        assert(rest.take(n + 1).last() == i);
        if i == ' ' && !flag {
        } else if i != ' ' && !flag {
            flag = true;
            ans.push(i);
        } else {
            if i == '/' || i == ' ' {
                end = true;
            } else if end && i != ' ' {
                proof { lemma_args_none(rest, (n + 1) as nat); }
                return Err(FileSystemOperationError::TooManyArgumentsError(concat("向cd输入了过多的参数:", command)));
            } else {
                ans.push(i);
            }
        }
        k = k + 1;
    }
    assert(rest.take(rest.len() as int) =~= rest);
    Ok(string_from_chars(&ans))
}

/// The path reached from `current_path` by going to `next_file`.
pub fn to_next_file(current_path: &str, next_file: String) -> (s: String)
    ensures
        s@ == path_walk(path_parts(current_path@).push(next_file@)),
{
    let mut now = RawRootFile::parse_path(current_path);
    let ghost n0 = now.deep_view();
    now.push(next_file);
    assert(now.deep_view() =~= n0.push(next_file@));
    from_vec_to_path(now)
}

/// The path `cd` leads to from `shell_path`: the command's argument, when
/// it names a directory. Errors: too many arguments, a path that does not
/// open, or one that leads to a file.
pub fn cd(disk: &VirtualDisk, ft: &mut FileTable, shell_path: &String, command: &str) -> (r: Result<String, FileSystemOperationError>)
    requires
        fs_wf(disk@),
    ensures
        *final(ft) == *old(ft),
        cd_post(disk@, old(ft).root_file.dir.addr as nat, shell_path@, command@, r),
{
    let next_file = get_args(command)?;
    let after_path = to_next_file(shell_path.as_str(), next_file);
    let dir = ft.open(disk, after_path.as_str())?;
    match dir {
        VFile::ZDir(_) => Ok(after_path),
        VFile::ZFile(_) => Err(FileSystemOperationError::NotDirError(concat("这不是一个目录:", command))),
    }
}

} // verus!
