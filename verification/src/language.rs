//! Language detection from a file name's extension.

use vstd::prelude::*;
use vstd::string::*;
use crate::text::{after_last, has_char, text_after_last};

verus! {

/// The languages that the extension table knows.
#[derive(Clone, Copy, Debug, PartialEq, Eq, Structural)]
pub enum Language {
    Rust,
    C,
    CPlusPlus,
    Python,
    JavaScript,
    TypeScript,
    Java,
    Go,
    CSharp,
}

impl Language {
    /// The identifier under which a grammar engine knows the language.
    pub open spec fn spec_id(self) -> Seq<char> {
        match self {
            Language::Rust => "rust"@,
            Language::C => "c"@,
            Language::CPlusPlus => "cplusplus"@,
            Language::Python => "python"@,
            Language::JavaScript => "javascript"@,
            Language::TypeScript => "typescript"@,
            Language::Java => "java"@,
            Language::Go => "go"@,
            Language::CSharp => "csharp"@,
        }
    }

    pub fn id(self) -> (r: &'static str)
        ensures
            r@ == self.spec_id(),
    {
        match self {
            Language::Rust => "rust",
            Language::C => "c",
            Language::CPlusPlus => "cplusplus",
            Language::Python => "python",
            Language::JavaScript => "javascript",
            Language::TypeScript => "typescript",
            Language::Java => "java",
            Language::Go => "go",
            Language::CSharp => "csharp",
        }
    }
}

/// The extension of a file name: what follows its last dot. A name without
/// a dot has none.
pub open spec fn extension_of(name: Seq<char>) -> Option<Seq<char>> {
    if name.contains('.') {
        Some(after_last(name, '.'))
    } else {
        None
    }
}

/// The extension table. Extensions are matched exactly, in lower case.
pub open spec fn language_of_extension(ext: Seq<char>) -> Option<Language> {
    if ext == "rs"@ {
        Some(Language::Rust)
    } else if ext == "c"@ {
        Some(Language::C)
    } else if ext == "cpp"@ || ext == "cc"@ || ext == "cxx"@ || ext == "hpp"@ {
        Some(Language::CPlusPlus)
    } else if ext == "py"@ {
        Some(Language::Python)
    } else if ext == "js"@ {
        Some(Language::JavaScript)
    } else if ext == "ts"@ {
        Some(Language::TypeScript)
    } else if ext == "java"@ {
        Some(Language::Java)
    } else if ext == "go"@ {
        Some(Language::Go)
    } else if ext == "cs"@ {
        Some(Language::CSharp)
    } else {
        None
    }
}

/// The language of a file name: that of its extension, where it has one
/// that the table knows.
pub open spec fn language_of_name(name: Seq<char>) -> Option<Language> {
    match extension_of(name) {
        Some(ext) => language_of_extension(ext),
        None => None,
    }
}

/// Whether `s` reads exactly as `lit`.
pub fn reads_as(s: &String, lit: &str) -> (r: bool)
    ensures
        r == (s@ == lit@),
{
    let other = String::from_str(lit);
    *s == other
}

pub fn extension(name: &str) -> (r: Option<String>)
    ensures
        r is Some == extension_of(name@) is Some,
        r is Some ==> r->0@ == extension_of(name@)->0,
{
    if has_char(name, '.') {
        Some(text_after_last(name, '.'))
    } else {
        None
    }
}

/// Looks an extension up in the table.
pub fn language_for_extension(ext: &String) -> (r: Option<Language>)
    ensures
        r == language_of_extension(ext@),
{
    if reads_as(ext, "rs") {
        Some(Language::Rust)
    } else if reads_as(ext, "c") {
        Some(Language::C)
    } else if reads_as(ext, "cpp") || reads_as(ext, "cc") || reads_as(ext, "cxx") || reads_as(
        ext,
        "hpp",
    ) {
        Some(Language::CPlusPlus)
    } else if reads_as(ext, "py") {
        Some(Language::Python)
    } else if reads_as(ext, "js") {
        Some(Language::JavaScript)
    } else if reads_as(ext, "ts") {
        Some(Language::TypeScript)
    } else if reads_as(ext, "java") {
        Some(Language::Java)
    } else if reads_as(ext, "go") {
        Some(Language::Go)
    } else if reads_as(ext, "cs") {
        Some(Language::CSharp)
    } else {
        None
    }
}

/// Detects the language of a file from its display name.
pub fn detect_language(display_name: &str) -> (r: Option<Language>)
    ensures
        r == language_of_name(display_name@),
{
    match extension(display_name) {
        Some(ext) => language_for_extension(&ext),
        None => None,
    }
}

/// The grammar to style a file with: that of its language, or plain text
/// where none is detected.
pub open spec fn grammar_of_name(name: Seq<char>) -> Seq<char> {
    match language_of_name(name) {
        Some(language) => language.spec_id(),
        None => "txt"@,
    }
}

pub fn grammar_id(display_name: &str) -> (r: &'static str)
    ensures
        r@ == grammar_of_name(display_name@),
{
    match detect_language(display_name) {
        Some(language) => language.id(),
        None => "txt",
    }
}

} // verus!
