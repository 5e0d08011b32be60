//! The command palette and the keyboard shortcuts: which command a typed
//! line or a pressed key names.

use vstd::prelude::*;
use vstd::string::*;
use crate::language::reads_as;

verus! {

/// The commands that the palette knows.
#[derive(Clone, Copy, Debug, PartialEq, Eq, Structural)]
pub enum Command {
    OpenFolder,
    OpenFile,
}

/// The lower-case form of a text, as `str::to_lowercase` gives it.
pub uninterp spec fn lowercase(text: Seq<char>) -> Seq<char>;

/// `str::to_lowercase`: the result is the lower-case form of the text, a
/// function of the text alone. Nothing is claimed of what that form is.
#[verifier::external_body]
fn to_lowercase(text: &str) -> (lowered: String)
    ensures
        lowered@ == lowercase(text@),
{
    text.to_lowercase()
}

/// The command of a name, written as the palette lists it.
pub open spec fn command_named(name: Seq<char>) -> Option<Command> {
    if name == "open folder"@ {
        Some(Command::OpenFolder)
    } else if name == "open file"@ {
        Some(Command::OpenFile)
    } else {
        None
    }
}

/// Looks a name up among the palette's commands. The name is matched as it
/// stands.
pub fn command_for(name: &String) -> (command: Option<Command>)
    ensures
        command == command_named(name@),
{
    if reads_as(name, "open folder") {
        Some(Command::OpenFolder)
    } else if reads_as(name, "open file") {
        Some(Command::OpenFile)
    } else {
        None
    }
}

/// The command that a line typed into the palette names, whatever its
/// case. On `Some` the command is run and the palette's entry cleared; on
/// `None` the line names no command.
pub fn resolve_command(line: &str) -> (command: Option<Command>)
    ensures
        command == command_named(lowercase(line@)),
{
    let lowered = to_lowercase(line);
    command_for(&lowered)
}

/// What a keyboard shortcut asks for.
#[derive(Clone, Copy, Debug, PartialEq, Eq, Structural)]
pub enum Shortcut {
    SaveFile,
}

/// The modifier state in which the control key alone is held.
pub const CONTROL_MASK: u32 = 4;

/// The shortcut of a key press, given the key's name where it has one and
/// the modifier state: the key `s` with the control key alone saves the
/// file.
pub fn shortcut_for(key_name: Option<&str>, modifiers: u32) -> (shortcut: Option<Shortcut>)
    ensures
        shortcut is Some <==> key_name is Some && key_name->0@ == "s"@ && modifiers == CONTROL_MASK,
        shortcut is Some ==> shortcut->0 == Shortcut::SaveFile,
{
    match key_name {
        Some(name) => {
            let name = String::from_str(name);
            if reads_as(&name, "s") && modifiers == CONTROL_MASK {
                Some(Shortcut::SaveFile)
            } else {
                None
            }
        },
        None => None,
    }
}

} // verus!
