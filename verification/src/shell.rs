//! The line editing of the user shell: what each typed byte does to the line
//! being typed.
use vstd::prelude::*;

verus! {

/// Line feed.
pub const LF: u8 = 0x0a;

/// Carriage return.
pub const CR: u8 = 0x0d;

/// Delete.
pub const DL: u8 = 0x7f;

/// Backspace.
pub const BS: u8 = 0x08;

/// What the shell does after a byte is typed.
pub enum ShellAction {
    /// Run the command: the line typed, ended by a zero byte; the line is
    /// emptied. Then show the prompt again.
    Run(Vec<u8>),
    /// An empty line was entered: show the prompt again.
    Prompt,
    /// The last byte of the line was erased: move the cursor back over it,
    /// blank it and move back again.
    Erase,
    /// Nothing happens: an erase on an empty line.
    Nothing,
    /// The byte was added to the line: echo it.
    Echo(u8),
}

/// Takes typed byte `c` into `line`: a line feed or carriage return runs a
/// non-empty line, a backspace or delete erases the last byte, any other byte
/// is added and echoed.
pub fn shell_step(line: &mut Vec<u8>, c: u8) -> (a: ShellAction)
    ensures
        (c == LF || c == CR) && old(line)@.len() > 0 ==> (a matches ShellAction::Run(cmd) && cmd@ == old(
            line,
        )@.push(0u8)) && final(line)@.len() == 0,
        (c == LF || c == CR) && old(line)@.len() == 0 ==> a is Prompt && final(line)@.len() == 0,
        (c == BS || c == DL) && old(line)@.len() > 0 ==> a is Erase && final(line)@ == old(line)@.drop_last(),
        (c == BS || c == DL) && old(line)@.len() == 0 ==> a is Nothing && final(line)@.len() == 0,
        c != LF && c != CR && c != BS && c != DL ==> a == ShellAction::Echo(c) && final(line)@ == old(line)@.push(c),
{
    if c == LF || c == CR {
        if line.len() == 0 {
            return ShellAction::Prompt;
        }
        let mut cmd: Vec<u8> = Vec::new();
        std::mem::swap(&mut cmd, line);
        cmd.push(0u8);
        ShellAction::Run(cmd)
    } else if c == BS || c == DL {
        if line.len() == 0 {
            return ShellAction::Nothing;
        }
        line.pop();
        ShellAction::Erase
    } else {
        line.push(c);
        ShellAction::Echo(c)
    }
}

} // verus!
