//! The logic of a tabbed text editor: the registry of open sessions, the
//! placing of style runs over a buffer's text, and the small decisions
//! around opening files.

pub mod command;
pub mod file;
pub mod highlight;
pub mod highlight_laws;
pub mod highlighter;
pub mod language;
pub mod lines;
pub mod loader;
pub mod page;
pub mod registry;
pub mod registry_laws;
pub mod tags;
pub mod text;
pub mod tree;
