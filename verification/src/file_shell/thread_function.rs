use vstd::prelude::*;
use crate::disk::{fs_wf, VirtualDisk};
use crate::file_shell::file_table::FileTable;
use crate::file_shell::shell::{shell_post, Shell};
use crate::file_shell::user::{user_of, UserManager};
use crate::text::{push_char, push_str};

verus! {

/// What the peer of a session did after a prompt.
pub enum SessionEvent {
    /// It sent a command line.
    Line(String),
    /// It closed the connection.
    Closed,
    /// What it sent could not be read as a line.
    Unreadable,
}

/// What a session does next.
pub enum SessionAction {
    /// Send this text, then prompt again.
    Reply(String),
    /// Check the file system, then end the session.
    CheckAndStop,
    /// End the session.
    Stop,
}

/// Starts the session of the user named `name`: a shell for that user at
/// the root, or the line that turns an unknown user away.
pub fn login(users: &UserManager, name: &str) -> (r: Result<Shell, String>)
    ensures
        match user_of(users.table(), name@) {
            Some(u) => r matches Ok(sh) && sh.user@ == name@ && sh.u_id == u && sh.path@ == seq!['/'],
            None => r matches Err(m) && m@ == name@ + " is not in the user list, please contact with manager:@SCUT Zeng Jun "@ + seq!['\n'],
        },
{
    match users.find_user(name) {
        Some(u_id) => Ok(Shell::new(name, u_id)),
        None => {
            let mut answer = name.to_owned();
            push_str(&mut answer, " is not in the user list, please contact with manager:@SCUT Zeng Jun ");
            push_char(&mut answer, '\n');
            Err(answer)
        },
    }
}

/// The prompt sent before each command line: the shell's head and two
/// line breaks.
pub fn prompt(shell: &Shell) -> (s: String)
    ensures
        s@ == seq!['\n'] + shell.user@ + seq![':'] + shell.path@ + seq!['>'] + seq!['\n', '\n'],
{
    let mut answer = shell.head();
    push_char(&mut answer, '\n');
    push_char(&mut answer, '\n');
    answer
}

/// What the session does with `event`: a line is run by the shell and its
/// reply sent with a line break; a closed connection ends the session
/// after a check; an unreadable line ends it at once.
pub fn session_step(shell: &mut Shell, disk: &mut VirtualDisk, ft: &mut FileTable, event: SessionEvent, host_source: Option<String>)
    -> (a: SessionAction)
    requires
        fs_wf(old(disk)@),
    ensures
        fs_wf(final(disk)@),
        *final(ft) == *old(ft),
        match event {
            SessionEvent::Line(l) => a matches SessionAction::Reply(t) && exists|rs: Seq<char>|
                #[trigger] shell_post(*old(shell), old(disk)@, old(ft).root_file.dir.addr as nat, l@, host_source, *final(shell),
                    final(disk)@, rs) && t@ == rs.push('\n'),
            SessionEvent::Closed => a is CheckAndStop && *final(shell) == *old(shell) && final(disk)@ == old(disk)@,
            SessionEvent::Unreadable => a is Stop && *final(shell) == *old(shell) && final(disk)@ == old(disk)@,
        },
{
    match event {
        SessionEvent::Line(line) => {
            let ghost l = line@;
            let mut answer = shell.shell(disk, ft, line, host_source);
            let ghost rs = answer@;
            push_char(&mut answer, '\n');
            assert(answer@ == rs.push('\n'));
            SessionAction::Reply(answer)
        },
        SessionEvent::Closed => SessionAction::CheckAndStop,
        SessionEvent::Unreadable => SessionAction::Stop,
    }
}

} // verus!
