//! What becomes of a file read and of an icon fetch, once the outside world
//! has answered.

use vstd::prelude::*;
use vstd::string::*;
use crate::language::Language;
use crate::text::{after_last, text_after_last};

verus! {

/// A file that was read: its text and the name to show for it.
pub struct LoadedFile {
    pub content: String,
    pub display_name: String,
}

/// A file that could not be read, with the operating system's error code
/// where it gave one.
pub struct ReadError {
    pub path: String,
    pub os_code: Option<i32>,
}

/// The name to show for a path: its last component.
pub open spec fn display_name_of(path: Seq<char>) -> Seq<char> {
    after_last(path, '/')
}

pub fn display_name(path: &str) -> (r: String)
    ensures
        r@ == display_name_of(path@),
{
    text_after_last(path, '/')
}

/// Turns the outcome of reading `path` into the loader's result: the text
/// with its display name, or a `ReadError` that names the path and carries
/// the cause.
pub fn file_loaded(path: &str, read: Result<String, Option<i32>>) -> (r: Result<
    LoadedFile,
    ReadError,
>)
    ensures
        match read {
            Ok(text) => r is Ok && r->Ok_0.content@ == text@ && r->Ok_0.display_name@
                == display_name_of(path@),
            Err(code) => r is Err && r->Err_0.path@ == path@ && r->Err_0.os_code == code,
        },
{
    match read {
        Ok(text) => Ok(LoadedFile { content: text, display_name: display_name(path) }),
        Err(code) => Err(ReadError { path: String::from_str(path), os_code: code }),
    }
}

/// Why no icon could be had for a session.
#[derive(Clone, Copy, Debug, PartialEq, Eq, Structural)]
pub enum IconAcquisitionError {
    /// The file's language is unknown, so there is nothing to fetch.
    MissingLanguage,
    /// The fetch failed.
    Network,
    /// The icon arrived and could not be stored.
    Write,
}

/// The icon of a session: the fixed fallback asset, or a fetched image at a
/// local path.
pub enum IconRef {
    Fallback,
    Cached(String),
}

impl IconRef {
    /// The local path of a fetched icon; `None` for the fallback.
    pub open spec fn spec_path(self) -> Option<Seq<char>> {
        match self {
            IconRef::Fallback => None,
            IconRef::Cached(path) => Some(path@),
        }
    }

    /// The local path of a fetched icon; `None` for the fallback.
    pub fn path(&self) -> (r: Option<&String>)
        ensures
            r is Some == self.spec_path() is Some,
            r is Some ==> r->0@ == self.spec_path()->0,
    {
        match self {
            IconRef::Fallback => None,
            IconRef::Cached(path) => Some(path),
        }
    }

    pub fn is_fallback(&self) -> (r: bool)
        ensures
            r == (self.spec_path() is None),
    {
        match self {
            IconRef::Fallback => true,
            IconRef::Cached(_) => false,
        }
    }
}

/// The key under which a language's icon is fetched. A file of unknown
/// language has none, which counts as a failed acquisition.
pub fn icon_key(language: Option<Language>) -> (r: Result<&'static str, IconAcquisitionError>)
    ensures
        match language {
            Some(l) => r is Ok && r->Ok_0@ == l.spec_id(),
            None => r == Err::<&'static str, IconAcquisitionError>(
                IconAcquisitionError::MissingLanguage,
            ),
        },
{
    match language {
        Some(l) => Ok(l.id()),
        None => Err(IconAcquisitionError::MissingLanguage),
    }
}

/// The icon to show after a fetch attempt: the fetched image where the
/// attempt succeeded, the fallback after any failure.
pub fn acquire_icon(fetched: Result<String, IconAcquisitionError>) -> (r: IconRef)
    ensures
        match fetched {
            Ok(path) => r.spec_path() == Some(path@),
            Err(_) => r.spec_path() is None,
        },
{
    match fetched {
        Ok(path) => IconRef::Cached(path),
        Err(_) => IconRef::Fallback,
    }
}

} // verus!
