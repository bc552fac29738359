use vstd::prelude::*;
use crate::disk::{fs_wf, VirtualDisk};
use crate::file_shell::access_key::AccessKey;
use crate::file_shell::bin;
use crate::file_shell::bin::cd::{from_vec_to_path, path_walk};
use crate::file_shell::error::{str_debug, FileSystemOperationError};
use crate::file_shell::file_table::FileTable;
use crate::file_shell::root_file::{path_parts, RawRootFile};
use crate::file_shell::bin::cat::cat_post;
use crate::file_shell::bin::cd::cd_post;
use crate::file_shell::bin::check::check_post;
use crate::file_shell::bin::cp::{cp_post, host_cp_post};
use crate::file_shell::bin::debug::debug_post;
use crate::file_shell::bin::ls::{ls_l_post, ls_post};
use crate::file_shell::bin::mkdir::mkdir_post;
use crate::file_shell::bin::rm::rm_post;
use crate::file_shell::bin::touch::touch_post;
use crate::file_shell::bin::write::write_cmd_post;
use crate::text::decimal;
use crate::text::{chars_of, push_char, push_str, str_eq, string_from_chars, usize_to_decimal};

verus! {

/// The words finished and the word begun after reading the first `n`
/// characters of `s`: words are runs of characters other than spaces.
pub open spec fn words_upto(s: Seq<char>, n: nat) -> (Seq<Seq<char>>, Seq<char>)
    decreases n,
{
    if n == 0 || n > s.len() {
        (Seq::empty(), Seq::empty())
    } else {
        let (w, cur) = words_upto(s, (n - 1) as nat);
        let c = s[n - 1];
        if c == ' ' {
            if cur.len() > 0 { (w.push(cur), Seq::empty()) } else { (w, Seq::empty()) }
        } else {
            (w, cur.push(c))
        }
    }
}

/// The words of `s`, the runs of characters other than spaces.
pub open spec fn words(s: Seq<char>) -> Seq<Seq<char>> {
    let (w, cur) = words_upto(s, s.len());
    if cur.len() > 0 { w.push(cur) } else { w }
}

/// The characters of `s` other than spaces, in order.
pub open spec fn spaceless(s: Seq<char>) -> Seq<char> {
    s.filter(|c: char| c != ' ')
}

/// Adding a character adds it to the characters other than spaces unless
/// it is a space.
proof fn lemma_spaceless_push(s: Seq<char>, c: char)
    ensures
        spaceless(s.push(c)) == if c != ' ' { spaceless(s).push(c) } else { spaceless(s) },
{
    reveal(Seq::filter);
    assert(s.push(c).drop_last() =~= s);
}

/// What reading the first `n` characters of `s` gives: the finished words
/// are not empty and hold no space, the word begun holds no space, and
/// together they are the characters read other than spaces.
proof fn lemma_words_upto(s: Seq<char>, n: nat)
    requires
        n <= s.len(),
    ensures
        ({
            let (w, cur) = words_upto(s, n);
            &&& w.flatten() + cur == spaceless(s.take(n as int))
            &&& forall|i: int| 0 <= i < w.len() ==> (#[trigger] w[i]).len() > 0 && !w[i].contains(' ')
            &&& !cur.contains(' ')
        }),
    decreases n,
{
    if n == 0 {
        reveal(Seq::filter);
        assert(s.take(0) =~= Seq::<char>::empty());
        assert(Seq::<Seq<char>>::empty().flatten() =~= Seq::<char>::empty());
        assert(words_upto(s, 0).1 =~= Seq::<char>::empty());
    } else {
        lemma_words_upto(s, (n - 1) as nat);
        let (w, cur) = words_upto(s, (n - 1) as nat);
        let c = s[n - 1];
        assert(s.take(n as int) =~= s.take(n - 1).push(c));
        lemma_spaceless_push(s.take(n - 1), c);
        if c == ' ' {
            if cur.len() > 0 {
                w.lemma_flatten_push(cur);
                let w1 = w.push(cur);
                assert forall|i: int| 0 <= i < w1.len() implies (#[trigger] w1[i]).len() > 0 && !w1[i].contains(' ') by {
                    if i < w.len() {
                        assert(w1[i] == w[i]);
                    }
                }
                assert(w1.flatten() + Seq::<char>::empty() =~= w.flatten() + cur);
            } else {
                assert(w.flatten() + Seq::<char>::empty() =~= w.flatten() + cur);
            }
            assert(!Seq::<char>::empty().contains(' '));
        } else {
            assert(w.flatten() + cur.push(c) =~= (w.flatten() + cur).push(c));
            assert(!cur.push(c).contains(' ')) by {
                if cur.push(c).contains(' ') {
                    let k = choose|k: int| 0 <= k < cur.push(c).len() && cur.push(c)[k] == ' ';
                    if k < cur.len() {
                        assert(cur[k] == ' ');
                    }
                }
            }
        }
    }
}

/// A command line splits into words at its spaces and nowhere else: no
/// word is empty or holds a space, and the words put together in order
/// are exactly the line's characters other than spaces.
pub proof fn law_words(s: Seq<char>)
    ensures
        forall|i: int| 0 <= i < words(s).len() ==> (#[trigger] words(s)[i]).len() > 0 && !words(s)[i].contains(' '),
        words(s).flatten() == spaceless(s),
{
    lemma_words_upto(s, s.len());
    let (w, cur) = words_upto(s, s.len());
    assert(s.take(s.len() as int) =~= s);
    if cur.len() > 0 {
        w.lemma_flatten_push(cur);
        let w1 = w.push(cur);
        assert forall|i: int| 0 <= i < w1.len() implies (#[trigger] w1[i]).len() > 0 && !w1[i].contains(' ') by {
            if i < w.len() {
                assert(w1[i] == w[i]);
            }
        }
    } else {
        assert(w.flatten() + cur =~= w.flatten());
    }
}

/// The words the shell takes as commands.
pub open spec fn known_command(c: Seq<char>) -> bool {
    ||| c == "EXIT"@ ||| c == "ls"@ ||| c == "cd"@ ||| c == "mkdir"@ ||| c == "touch"@
    ||| c == "cat"@ ||| c == "write"@ ||| c == "debug"@ ||| c == "cp"@ ||| c == "check"@
    ||| c == "shutdown"@ ||| c == "rm"@ ||| c == "hcp"@ ||| c == "dls"@ ||| c == ""@
}

/// The command words are told apart by their lengths and letters.
pub proof fn lemma_command_words()
    ensures
        "ls"@.len() == 2,
        "cd"@.len() == 2,
        "cp"@.len() == 2,
        "rm"@.len() == 2,
        "cat"@.len() == 3,
        "hcp"@.len() == 3,
        "dls"@.len() == 3,
        "EXIT"@.len() == 4,
        "mkdir"@.len() == 5,
        "touch"@.len() == 5,
        "write"@.len() == 5,
        "debug"@.len() == 5,
        "check"@.len() == 5,
        "shutdown"@.len() == 8,
        ""@.len() == 0,
        "ls"@ != "cd"@,
        "ls"@ != "cp"@,
        "ls"@ != "rm"@,
        "cd"@ != "cp"@,
        "cd"@ != "rm"@,
        "cp"@ != "rm"@,
        "cat"@ != "hcp"@,
        "cat"@ != "dls"@,
        "hcp"@ != "dls"@,
        "mkdir"@ != "touch"@,
        "mkdir"@ != "write"@,
        "mkdir"@ != "debug"@,
        "mkdir"@ != "check"@,
        "touch"@ != "write"@,
        "touch"@ != "debug"@,
        "touch"@ != "check"@,
        "write"@ != "debug"@,
        "write"@ != "check"@,
        "debug"@ != "check"@,
{
    reveal_strlit("ls");
    reveal_strlit("cd");
    reveal_strlit("cp");
    reveal_strlit("rm");
    reveal_strlit("cat");
    reveal_strlit("hcp");
    reveal_strlit("dls");
    reveal_strlit("EXIT");
    reveal_strlit("mkdir");
    reveal_strlit("touch");
    reveal_strlit("write");
    reveal_strlit("debug");
    reveal_strlit("check");
    reveal_strlit("shutdown");
    reveal_strlit("");
    assert("ls"@[0] != "cd"@[0]);
    assert("ls"@[0] != "cp"@[0]);
    assert("ls"@[0] != "rm"@[0]);
    assert("cd"@[1] != "cp"@[1]);
    assert("cd"@[0] != "rm"@[0]);
    assert("cp"@[0] != "rm"@[0]);
    assert("cat"@[0] != "hcp"@[0]);
    assert("cat"@[0] != "dls"@[0]);
    assert("hcp"@[0] != "dls"@[0]);
    assert("mkdir"@[0] != "touch"@[0]);
    assert("mkdir"@[0] != "write"@[0]);
    assert("mkdir"@[0] != "debug"@[0]);
    assert("mkdir"@[0] != "check"@[0]);
    assert("touch"@[0] != "write"@[0]);
    assert("touch"@[0] != "debug"@[0]);
    assert("touch"@[0] != "check"@[0]);
    assert("write"@[0] != "debug"@[0]);
    assert("write"@[0] != "check"@[0]);
    assert("debug"@[0] != "check"@[0]);
}

/// The fixed reply to a line whose words are `w` and that lacks an
/// argument its command needs.
pub open spec fn missing_arg_reply(w: Seq<Seq<char>>) -> Option<Seq<char>> {
    if w.len() == 1 && (w[0] == "mkdir"@ || w[0] == "touch"@) {
        Some("mkdir <Filename>:缺乏参数 <Filename>"@)
    } else if w.len() == 1 && w[0] == "cat"@ {
        Some("cat <File>:缺乏参数 <File>"@)
    } else if w.len() == 1 && w[0] == "debug"@ {
        Some("debug <File>:缺乏参数 <File>"@)
    } else if w.len() == 1 && w[0] == "write"@ {
        Some("write <File> <Content>:缺乏参数 <File>"@)
    } else if w.len() == 2 && w[0] == "write"@ {
        Some("write <File> <Content>:缺乏参数 Content"@)
    } else if w.len() == 1 && w[0] == "rm"@ {
        Some("rm <File>:缺乏参数File"@)
    } else if w.len() == 1 && w[0] == "hcp"@ {
        Some("hcp <Host Source> <File Name>缺乏参数<Host Source>"@)
    } else if w.len() == 2 && w[0] == "hcp"@ {
        Some("hcp <Host Source> <File Name>缺乏参数<File Name>"@)
    } else if w.len() == 1 && w[0] == "cp"@ {
        Some("LackArgumentsError"@ + seq!['('] + str_debug("cp <source> <dest>:缺乏参数source"@) + seq![')'])
    } else if w.len() == 2 && w[0] == "cp"@ {
        Some("LackArgumentsError"@ + seq!['('] + str_debug("cp <source> <dest>:缺乏参数dest"@) + seq![')'])
    } else {
        None
    }
}


/// The text a failed command answers: the error's kind, and its message
/// quoted in brackets.
pub open spec fn err_text(e: FileSystemOperationError) -> Seq<char> {
    e.kind_name() + seq!['('] + str_debug(e.message()) + seq![')']
}

/// The reply to an operation that gives nothing.
pub open spec fn unit_reply(r: Result<(), FileSystemOperationError>) -> Seq<char> {
    match r {
        Ok(_) => "Instruction Done!"@,
        Err(e) => err_text(e),
    }
}

/// The reply to an operation that gives a text.
pub open spec fn text_reply(r: Result<String, FileSystemOperationError>) -> Seq<char> {
    match r {
        Ok(t) => t@,
        Err(e) => err_text(e),
    }
}

/// The reply to a `write`: how many bytes were written, or the error.
pub open spec fn write_reply(r: Result<usize, FileSystemOperationError>) -> Seq<char> {
    match r {
        Ok(n) => decimal(n as nat) + " 字节被写入"@,
        Err(e) => err_text(e),
    }
}

/// The path of the entry `name` of the directory at `path`.
pub open spec fn child(path: Seq<char>, name: Seq<char>) -> Seq<char> {
    path_walk(path_parts(path).push(name))
}

/// The commands that only read the disk and take what their words give.
pub open spec fn reading_command(c: Seq<char>) -> bool {
    ||| c == "ls"@ ||| c == "cat"@ ||| c == "debug"@ ||| c == "check"@ ||| c == "dls"@
}

/// The commands that change the disk.
pub open spec fn writing_command(c: Seq<char>) -> bool {
    ||| c == "mkdir"@ ||| c == "touch"@ ||| c == "write"@ ||| c == "cp"@ ||| c == "rm"@ ||| c == "hcp"@
}

/// The reply `r` to a reading command line of words `w`, run by user `uid`
/// standing at `path`, which has all its arguments.
pub open spec fn reading_post(path: Seq<char>, uid: u8, d0: Seq<u8>, root: nat, w: Seq<Seq<char>>, r: Seq<char>) -> bool {
    let c = w[0];
    if c == "ls"@ {
        exists|rb: Result<String, FileSystemOperationError>| #[trigger] ls_post(d0, root, path, rb) && r == text_reply(rb)
    } else if c == "dls"@ {
        exists|rb: Result<String, FileSystemOperationError>| #[trigger] ls_l_post(d0, root, path, rb) && r == text_reply(rb)
    } else if c == "check"@ {
        exists|rb: Result<String, FileSystemOperationError>| #[trigger] check_post(d0, root, rb) && r == text_reply(rb)
    } else if c == "cat"@ {
        exists|rb: Result<String, FileSystemOperationError>|
            #[trigger] cat_post(d0, root, child(path, w[1]), uid, w[1], path, rb) && r == text_reply(rb)
    } else {
        exists|rb: Result<String, FileSystemOperationError>|
            #[trigger] debug_post(d0, root, child(path, w[1]), rb) && r == text_reply(rb)
    }
}

/// The reply `r` to a writing command line of words `w`, run by user
/// `uid` standing at `path`, which has all its arguments, and the disk `d1`
/// it leaves; `host` is what an `hcp` line's host file holds.
pub open spec fn writing_post(path: Seq<char>, uid: u8, d0: Seq<u8>, root: nat, w: Seq<Seq<char>>, host: Option<String>, d1: Seq<u8>, r: Seq<char>) -> bool {
    let c = w[0];
    if c == "mkdir"@ {
        exists|rb: Result<(), FileSystemOperationError>| #[trigger] mkdir_post(d0, root, path, w[1], uid, d1, rb) && r == unit_reply(rb)
    } else if c == "touch"@ {
        exists|rb: Result<(), FileSystemOperationError>| #[trigger] touch_post(d0, root, path, w[1], uid, d1, rb) && r == unit_reply(rb)
    } else if c == "write"@ {
        exists|rb: Result<usize, FileSystemOperationError>|
            #[trigger] write_cmd_post(d0, root, child(path, w[1]), w[2], uid, w[1], path, d1, rb) && r == write_reply(rb)
    } else if c == "cp"@ {
        exists|rb: Result<(), FileSystemOperationError>|
            #[trigger] cp_post(d0, root, child(path, w[1]), path, w[2], uid, w[1], path, d1, rb) && r == unit_reply(rb)
    } else if c == "rm"@ {
        exists|rb: Result<(), FileSystemOperationError>|
            #[trigger] rm_post(d0, root, path, w[1], uid, w[1], path, d1, rb) && r == unit_reply(rb)
    } else {
        exists|rb: Result<(), FileSystemOperationError>| #[trigger] host_cp_post(d0, root, host, path, w[2], uid, d1, rb) && r == unit_reply(rb)
    }
}

/// What a `cd` whose outcome was `rc` answers, and where it leaves the
/// user: at the directory reached, or where the user stood.
pub open spec fn cd_outcome(rc: Result<String, FileSystemOperationError>, old_path: String, new_path: String, r: Seq<char>) -> bool {
    match rc {
        Ok(p) => new_path == p && r == "Instruction Done!"@,
        Err(e) => new_path == old_path && r == err_text(e),
    }
}

/// What running the line `input` in the session `sh0` on the disk `d0`
/// (root directory at block `root`) gives: the reply `r`, the session
/// `sh1` and the disk `d1`; `host` is what an `hcp` line's host file holds.
pub open spec fn shell_post(sh0: Shell, d0: Seq<u8>, root: nat, input: Seq<char>, host: Option<String>, sh1: Shell, d1: Seq<u8>, r: Seq<char>) -> bool {
    let w = words(input);
    &&& sh1.user == sh0.user
    &&& sh1.u_id == sh0.u_id
    &&& (w.len() == 0 || w[0] != "cd"@) ==> sh1.path == sh0.path
    &&& if w.len() == 0 {
        r == Seq::<char>::empty() && d1 == d0
    } else if !known_command(w[0]) {
        r == "Err:there is no such a command:"@ + input && d1 == d0
    } else if w[0] == "cd"@ {
        &&& d1 == d0
        &&& exists|rc: Result<String, FileSystemOperationError>|
            #[trigger] cd_post(d0, root, sh0.path@, input, rc) && cd_outcome(rc, sh0.path, sh1.path, r)
    } else if w[0] == "shutdown"@ {
        r == "SHUTDOWN"@ && d1 == d0
    } else if w[0] == "EXIT"@ || w[0] == ""@ {
        r == (if w[0] == ""@ { "No Instruction Given!"@ } else { Seq::<char>::empty() }) && d1 == d0
    } else if missing_arg_reply(w) is Some {
        r == missing_arg_reply(w)->Some_0 && d1 == d0
    } else if reading_command(w[0]) {
        d1 == d0 && reading_post(sh0.path@, sh0.u_id, d0, root, w, r)
    } else {
        writing_post(sh0.path@, sh0.u_id, d0, root, w, host, d1, r)
    }
}

/// The reply to an operation that gives nothing: a fixed line when it
/// succeeded, the error's debug text when it failed.
fn reply_unit(r: Result<(), FileSystemOperationError>) -> (s: String)
    ensures
        s@ == unit_reply(r),
{
    match r {
        Ok(()) => "Instruction Done!".to_owned(),
        Err(e) => e.debug_text(),
    }
}

/// The reply to an operation that gives a text: the text, or the error's
/// debug text when it failed.
fn reply_text(r: Result<String, FileSystemOperationError>) -> (s: String)
    ensures
        s@ == text_reply(r),
{
    match r {
        Ok(t) => t,
        Err(e) => e.debug_text(),
    }
}

/// The path of the file `name` in the directory at `dir`.
fn child_path(dir: &String, name: &String) -> (s: String)
    ensures
        s@ == child(dir@, name@),
{
    let mut path = RawRootFile::parse_path(dir.as_str());
    let ghost p0 = path.deep_view();
    path.push(name.clone());
    assert(path.deep_view() =~= p0.push(name@));
    from_vec_to_path(path)
}

/// The state of a user's session: where the user stands, who the user is.
#[derive(Debug)]
pub struct Shell {
    pub path: String,
    pub user: String,
    pub u_id: u8,
}

impl Shell {
    /// A session of user `user` with id `u_id`, standing at the root.
    pub fn new(user: &str, u_id: u8) -> (s: Shell)
        ensures
            s.path@ == seq!['/'],
            s.user@ == user@,
            s.u_id == u_id,
    {
        let mut path = String::new();
        push_char(&mut path, '/');
        Shell { path, user: user.to_owned(), u_id }
    }

    /// The prompt: a line break, the user, a colon, the path and `>`.
    pub fn head(&self) -> (s: String)
        ensures
            s@ == seq!['\n'] + self.user@ + seq![':'] + self.path@ + seq!['>'],
    {
        let mut s = String::new();
        push_char(&mut s, '\n');
        push_str(&mut s, self.user.as_str());
        push_char(&mut s, ':');
        push_str(&mut s, self.path.as_str());
        push_char(&mut s, '>');
        s
    }

    /// Runs a `cd` line: moves to the directory its argument leads to.
    fn run_cd(&mut self, disk: &VirtualDisk, ft: &mut FileTable, input: &String) -> (r: String)
        requires
            fs_wf(disk@),
        ensures
            *final(ft) == *old(ft),
            final(self).user == old(self).user,
            final(self).u_id == old(self).u_id,
            exists|rc: Result<String, FileSystemOperationError>|
                #[trigger] cd_post(disk@, old(ft).root_file.dir.addr as nat, old(self).path@, input@, rc)
                && cd_outcome(rc, old(self).path, final(self).path, r@),
    {
        let rc = bin::cd::cd(disk, ft, &self.path, input.as_str());
        let ghost g = rc;
        let ghost p0 = self.path;
        let r = match rc {
            Ok(p) => {
                self.path = p;
                "Instruction Done!".to_owned()
            },
            Err(e) => e.debug_text(),
        };
        assert(cd_post(disk@, old(ft).root_file.dir.addr as nat, p0@, input@, g) && cd_outcome(g, p0, self.path, r@));
        r
    }

    /// Runs a line whose command only reads the disk: `ls`, `cat`,
    /// `debug`, `check` or `dls`.
    fn run_reading(&self, disk: &VirtualDisk, ft: &mut FileTable, command: &Vec<String>) -> (r: String)
        requires
            fs_wf(disk@),
            command.len() > 0,
            reading_command(command@[0]@),
            missing_arg_reply(command.deep_view()) is None,
        ensures
            *final(ft) == *old(ft),
            reading_post(self.path@, self.u_id, disk@, old(ft).root_file.dir.addr as nat, command.deep_view(), r@),
    {
        let ghost w = command.deep_view();
        let ghost root = ft.root_file.dir.addr as nat;
        proof {
            lemma_command_words();
            assert(w.len() == command@.len());
            assert(w[0] == command@[0]@);
        }
        let cm = command[0].as_str();
        if str_eq(cm, "ls") {
            let rb = bin::ls::ls(disk, ft, self.path.as_str());
            let ghost g = rb;
            let s = reply_text(rb);
            assert(ls_post(disk@, root, self.path@, g) && s@ == text_reply(g));
            s
        } else if str_eq(cm, "cat") {
            assert(w[1] == command@[1]@);
            let file_path = child_path(&self.path, &command[1]);
            let ackey = AccessKey::new(self.u_id, command[1].clone(), self.path.clone());
            let rb = bin::cat::cat(disk, ft, file_path.as_str(), ackey);
            let ghost g = rb;
            let s = reply_text(rb);
            assert(cat_post(disk@, root, child(self.path@, w[1]), self.u_id, w[1], self.path@, g) && s@ == text_reply(g));
            s
        } else if str_eq(cm, "debug") {
            assert(w[1] == command@[1]@);
            let file_path = child_path(&self.path, &command[1]);
            let rb = bin::debug::debug(disk, ft, file_path.as_str());
            let ghost g = rb;
            let s = reply_text(rb);
            assert(debug_post(disk@, root, child(self.path@, w[1]), g) && s@ == text_reply(g));
            s
        } else if str_eq(cm, "check") {
            let rb = bin::check::check(disk, ft);
            let ghost g = rb;
            let s = reply_text(rb);
            assert(check_post(disk@, root, g) && s@ == text_reply(g));
            s
        } else {
            let rb = bin::ls::ls_l(disk, ft, self.path.as_str());
            let ghost g = rb;
            let s = reply_text(rb);
            assert(ls_l_post(disk@, root, self.path@, g) && s@ == text_reply(g));
            s
        }
    }

    /// Runs a line whose command changes the disk: `mkdir`, `touch`,
    /// `write`, `cp`, `rm` or `hcp`.
    #[verifier::rlimit(50)]
    fn run_writing(&self, disk: &mut VirtualDisk, ft: &mut FileTable, command: &Vec<String>, host_source: Option<String>) -> (r: String)
        requires
            fs_wf(old(disk)@),
            command.len() > 0,
            writing_command(command@[0]@),
            missing_arg_reply(command.deep_view()) is None,
        ensures
            *final(ft) == *old(ft),
            fs_wf(final(disk)@),
            writing_post(self.path@, self.u_id, old(disk)@, old(ft).root_file.dir.addr as nat, command.deep_view(),
                host_source, final(disk)@, r@),
    {
        let ghost w = command.deep_view();
        let ghost root = ft.root_file.dir.addr as nat;
        let ghost d0 = disk@;
        proof {
            lemma_command_words();
            assert(w.len() == command@.len());
            assert(w[0] == command@[0]@);
            assert(w[1] == command@[1]@);
        }
        let cm = command[0].as_str();
        if str_eq(cm, "mkdir") {
            let rb = bin::mkdir::mkdir(disk, ft, self.path.as_str(), command[1].as_str(), self.u_id);
            let ghost g = rb;
            let s = reply_unit(rb);
            assert(mkdir_post(d0, root, self.path@, w[1], self.u_id, disk@, g) && s@ == unit_reply(g));
            s
        } else if str_eq(cm, "touch") {
            let rb = bin::touch::touch(disk, ft, self.path.as_str(), command[1].as_str(), self.u_id);
            let ghost g = rb;
            let s = reply_unit(rb);
            assert(touch_post(d0, root, self.path@, w[1], self.u_id, disk@, g) && s@ == unit_reply(g));
            s
        } else if str_eq(cm, "write") {
            assert(w[2] == command@[2]@);
            let file_path = child_path(&self.path, &command[1]);
            let ackey = AccessKey::new(self.u_id, command[1].clone(), self.path.clone());
            let rb = bin::write::write(disk, ft, file_path.as_str(), command[2].clone(), ackey);
            let ghost g = rb;
            let s = match rb {
                Ok(n) => {
                    let mut s = usize_to_decimal(n);
                    push_str(&mut s, " 字节被写入");
                    s
                },
                Err(e) => e.debug_text(),
            };
            assert(write_cmd_post(d0, root, child(self.path@, w[1]), w[2], self.u_id, w[1], self.path@, disk@, g)
                && s@ == write_reply(g));
            s
        } else if str_eq(cm, "cp") {
            assert(w[2] == command@[2]@);
            let file_path = child_path(&self.path, &command[1]);
            let ackey = AccessKey::new(self.u_id, command[1].clone(), self.path.clone());
            let rb = bin::cp::cp(disk, ft, file_path.as_str(), self.path.as_str(), command[2].as_str(), ackey);
            let ghost g = rb;
            let s = reply_unit(rb);
            assert(cp_post(d0, root, child(self.path@, w[1]), self.path@, w[2], self.u_id, w[1], self.path@, disk@, g)
                && s@ == unit_reply(g));
            s
        } else if str_eq(cm, "rm") {
            let ackey = AccessKey::new(self.u_id, command[1].clone(), self.path.clone());
            let rb = bin::rm::rm(disk, ft, self.path.as_str(), command[1].as_str(), ackey);
            let ghost g = rb;
            let s = reply_unit(rb);
            assert(rm_post(d0, root, self.path@, w[1], self.u_id, w[1], self.path@, disk@, g) && s@ == unit_reply(g));
            s
        } else {
            assert(w[2] == command@[2]@);
            let ghost h = host_source;
            let rb = bin::cp::host_cp(disk, ft, host_source, self.path.as_str(), command[2].as_str(), self.u_id);
            let ghost g = rb;
            let s = reply_unit(rb);
            assert(host_cp_post(d0, root, h, self.path@, w[2], self.u_id, disk@, g) && s@ == unit_reply(g));
            s
        }
    }

    /// Runs one command line and gives the reply. `host_source` is the
    /// content of the host file an `hcp` line names, `None` when it could
    /// not be read.
    pub fn shell(&mut self, disk: &mut VirtualDisk, ft: &mut FileTable, input: String, host_source: Option<String>) -> (r: String)
        requires
            fs_wf(old(disk)@),
        ensures
            fs_wf(final(disk)@),
            *final(ft) == *old(ft),
            shell_post(*old(self), old(disk)@, old(ft).root_file.dir.addr as nat, input@, host_source, *final(self),
                final(disk)@, r@),
    {
        let command = Self::parse_command(&input);
        if command.len() == 0 {
            return String::new();
        }
        let cm = command[0].as_str();
        assert(command[0]@ == words(input@)[0]);
        proof {
            lemma_command_words();
            assert(command.deep_view().len() == command@.len());
            assert(command.deep_view()[0] == command@[0]@);
        }
        let missing = Self::missing_argument(&command);
        if str_eq(cm, "cd") {
            self.run_cd(disk, ft, &input)
        } else if str_eq(cm, "shutdown") {
            "SHUTDOWN".to_owned()
        } else if str_eq(cm, "EXIT") {
            String::new()
        } else if str_eq(cm, "") {
            "No Instruction Given!".to_owned()
        } else if missing.is_some() {
            missing.unwrap()
        } else if str_eq(cm, "ls") || str_eq(cm, "cat") || str_eq(cm, "debug") || str_eq(cm, "check") || str_eq(cm, "dls") {
            self.run_reading(disk, ft, &command)
        } else if str_eq(cm, "mkdir") || str_eq(cm, "touch") || str_eq(cm, "write") || str_eq(cm, "cp") || str_eq(cm, "rm")
            || str_eq(cm, "hcp") {
            self.run_writing(disk, ft, &command, host_source)
        } else {
            let mut s = "Err:there is no such a command:".to_owned();
            push_str(&mut s, input.as_str());
            s
        }
    }

    /// The fixed reply to a line whose command lacks an argument it needs.
    fn missing_argument(command: &Vec<String>) -> (r: Option<String>)
        requires
            command.len() > 0,
        ensures
            r is None <==> missing_arg_reply(command.deep_view()) is None,
            r matches Some(t) ==> missing_arg_reply(command.deep_view()) == Some(t@),
    {
        proof {
            lemma_command_words();
            assert(command.deep_view().len() == command@.len());
            assert(command.deep_view()[0] == command@[0]@);
        }
        let n = command.len();
        let cm = command[0].as_str();
        if n == 1 && (str_eq(cm, "mkdir") || str_eq(cm, "touch")) {
            Some("mkdir <Filename>:缺乏参数 <Filename>".to_owned())
        } else if n == 1 && str_eq(cm, "cat") {
            Some("cat <File>:缺乏参数 <File>".to_owned())
        } else if n == 1 && str_eq(cm, "debug") {
            Some("debug <File>:缺乏参数 <File>".to_owned())
        } else if n == 1 && str_eq(cm, "write") {
            Some("write <File> <Content>:缺乏参数 <File>".to_owned())
        } else if n == 2 && str_eq(cm, "write") {
            Some("write <File> <Content>:缺乏参数 Content".to_owned())
        } else if n == 1 && str_eq(cm, "rm") {
            Some("rm <File>:缺乏参数File".to_owned())
        } else if n == 1 && str_eq(cm, "hcp") {
            Some("hcp <Host Source> <File Name>缺乏参数<Host Source>".to_owned())
        } else if n == 2 && str_eq(cm, "hcp") {
            Some("hcp <Host Source> <File Name>缺乏参数<File Name>".to_owned())
        } else if n == 1 && str_eq(cm, "cp") {
            Some(FileSystemOperationError::LackArgumentsError("cp <source> <dest>:缺乏参数source".to_owned()).debug_text())
        } else if n == 2 && str_eq(cm, "cp") {
            Some(FileSystemOperationError::LackArgumentsError("cp <source> <dest>:缺乏参数dest".to_owned()).debug_text())
        } else {
            None
        }
    }

    /// The words of a command line.
    pub fn parse_command(input: &String) -> (v: Vec<String>)
        ensures
            v.deep_view() == words(input@),
    {
        let cs = chars_of(input.as_str());
        let mut vec: Vec<String> = Vec::new();
        let mut temp: Vec<char> = Vec::new();
        let mut i: usize = 0;
        while i < cs.len()
            invariant
                cs@ == input@,
                i <= cs@.len(),
                words_upto(cs@, i as nat) == (vec.deep_view(), temp@),
            decreases cs@.len() - i,
        {
            let c = cs[i];
            if c == ' ' {
                if temp.len() > 0 {
                    let t = string_from_chars(&temp);
                    let ghost v0 = vec.deep_view();
                    vec.push(t);
                    assert(vec.deep_view() =~= v0.push(t@));
                    temp = Vec::new();
                }
            } else {
                temp.push(c);
            }
            i = i + 1;
            assert(words_upto(cs@, i as nat) == (vec.deep_view(), temp@));
        }
        if temp.len() > 0 {
            let t = string_from_chars(&temp);
            let ghost v0 = vec.deep_view();
            vec.push(t);
            assert(vec.deep_view() =~= v0.push(t@));
        }
        vec
    }
}

} // verus!
