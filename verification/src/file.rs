//! The dialogs that ask for a file or a folder, and what their answer
//! means.

use vstd::prelude::*;

verus! {

/// What a chooser dialog lets the user pick.
#[derive(Clone, Copy, Debug, PartialEq, Eq, Structural)]
pub enum DialogKind {
    OpenFile,
    SelectFolder,
}

/// How the user left a dialog.
#[derive(Clone, Copy, Debug, PartialEq, Eq, Structural)]
pub enum DialogResponse {
    Accept,
    Cancel,
    /// Any other way: the window closed, a key, a response the dialog does
    /// not offer.
    Other,
}

/// A chooser dialog to show: its title, what it picks, and its two
/// buttons.
#[derive(Clone, Copy, Debug)]
pub struct FileDialog {
    pub title: &'static str,
    pub kind: DialogKind,
    pub cancel_label: &'static str,
    pub accept_label: &'static str,
}

/// The dialog that asks for a file to open.
pub fn open_file_dialog() -> (dialog: FileDialog)
    ensures
        dialog.title@ == "Open file"@,
        dialog.kind == DialogKind::OpenFile,
        dialog.cancel_label@ == "Cancel"@,
        dialog.accept_label@ == "Open"@,
{
    FileDialog {
        title: "Open file",
        kind: DialogKind::OpenFile,
        cancel_label: "Cancel",
        accept_label: "Open",
    }
}

/// The dialog that asks for a folder to list.
pub fn open_folder_dialog() -> (dialog: FileDialog)
    ensures
        dialog.title@ == "Open folder"@,
        dialog.kind == DialogKind::SelectFolder,
        dialog.cancel_label@ == "Cancel"@,
        dialog.accept_label@ == "Open"@,
{
    FileDialog {
        title: "Open folder",
        kind: DialogKind::SelectFolder,
        cancel_label: "Cancel",
        accept_label: "Open",
    }
}

/// The path to act on once a dialog has answered: the chosen one where the
/// user accepted and had chosen one, none otherwise. The dialog is to be
/// closed either way.
pub fn dialog_choice(response: DialogResponse, chosen: Option<String>) -> (path: Option<String>)
    ensures
        path is Some <==> response == DialogResponse::Accept && chosen is Some,
        path is Some ==> path == chosen,
{
    match response {
        DialogResponse::Accept => chosen,
        _ => None,
    }
}

} // verus!
