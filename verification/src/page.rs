//! Opening a page: a file that was read, or could not be read, becomes a
//! session in the registry.

use vstd::prelude::*;
use vstd::string::*;
use crate::language::{detect_language, grammar_of_name, language_of_name, Language};
use crate::loader::{display_name_of, file_loaded, ReadError};
use crate::registry::Registry;

verus! {

/// What opening a page came to.
pub struct PageCreated {
    /// The slot of the new session, which is now the active one.
    pub position: usize,
    /// The identity of the new session.
    pub id: u64,
    /// The language detected from the file's name.
    pub language: Option<Language>,
    /// The grammar to style the page with.
    pub grammar: &'static str,
    /// The failure to tell the user of, where the file could not be read.
    pub notice: Option<ReadError>,
}

/// Opens a page for `path`, given what reading the file came to.
///
/// A file that was read gives a session with its text, titled by the file's
/// name. A file that could not be read gives an empty, untitled session
/// all the same, and the failure is handed back as a notice.
pub fn create_page(registry: &mut Registry, path: &str, read: Result<String, Option<i32>>) -> (page:
    PageCreated)
    requires
        old(registry).wf(),
        old(registry)@.issued < u64::MAX,
    ensures
        final(registry).wf(),
        page.position == old(registry)@.sessions.len(),
        page.id == old(registry)@.issued,
        match read {
            Ok(text) => {
                &&& final(registry)@ == old(registry)@.create(text@, Some(path@))
                &&& page.language == language_of_name(display_name_of(path@))
                &&& page.grammar@ == grammar_of_name(display_name_of(path@))
                &&& page.notice is None
            },
            Err(code) => {
                &&& final(registry)@ == old(registry)@.create(Seq::empty(), None)
                &&& page.language is None
                &&& page.grammar@ == "txt"@
                &&& page.notice is Some
                &&& page.notice->0.path@ == path@
                &&& page.notice->0.os_code == code
            },
        },
{
    let id: u64 = registry.issued();
    match file_loaded(path, read) {
        Ok(file) => {
            let language = detect_language(file.display_name.as_str());
            let grammar = match language {
                Some(l) => l.id(),
                None => "txt",
            };
            let position: usize = registry.create(file.content, Some(String::from_str(path)));
            PageCreated { position, id, language, grammar, notice: None }
        },
        Err(error) => {
            let position: usize = registry.create(String::new(), None);
            PageCreated { position, id, language: None, grammar: "txt", notice: Some(error) }
        },
    }
}

} // verus!
