use a4::language::{detect_language, extension, grammar_id, language_for_extension, Language};
use a4::loader::{
    acquire_icon, display_name, file_loaded, icon_key, IconAcquisitionError, IconRef,
};
use a4::page::create_page;
use a4::registry::Registry;
use a4::text::{chars_of, has_char, text_after_last};

#[test]
fn text_after_last_separator() {
    assert_eq!(text_after_last("a/b/c.txt", '/'), "c.txt");
    assert_eq!(text_after_last("c.txt", '/'), "c.txt");
    assert_eq!(text_after_last("a/b/", '/'), "");
    assert_eq!(text_after_last("", '/'), "");
    assert_eq!(text_after_last("/", '/'), "");
    assert_eq!(text_after_last("//x", '/'), "x");
    assert_eq!(text_after_last("dé/ñandú.rs", '/'), "ñandú.rs");
    assert_eq!(text_after_last("archive.tar.gz", '.'), "gz");
}

#[test]
fn chars_and_membership() {
    assert_eq!(chars_of("añb"), vec!['a', 'ñ', 'b']);
    assert_eq!(chars_of(""), Vec::<char>::new());
    assert!(has_char("a.b", '.'));
    assert!(!has_char("ab", '.'));
    assert!(!has_char("", '.'));
}

#[test]
fn display_name_is_the_last_component() {
    assert_eq!(display_name("/home/user/main.rs"), "main.rs");
    assert_eq!(display_name("./src/file.rs"), "file.rs");
    assert_eq!(display_name("main.rs"), "main.rs");
    assert_eq!(display_name("/home/user/"), "");
}

#[test]
fn extension_is_what_follows_the_last_dot() {
    assert_eq!(extension("main.rs"), Some("rs".to_string()));
    assert_eq!(extension("archive.tar.gz"), Some("gz".to_string()));
    assert_eq!(extension("Makefile"), None);
    assert_eq!(extension(""), None);
    assert_eq!(extension("trailing."), Some("".to_string()));
    assert_eq!(extension(".rs"), Some("rs".to_string()));
}

#[test]
fn the_extension_table() {
    let table = [
        ("a.rs", Language::Rust, "rust"),
        ("a.c", Language::C, "c"),
        ("a.cpp", Language::CPlusPlus, "cplusplus"),
        ("a.cc", Language::CPlusPlus, "cplusplus"),
        ("a.cxx", Language::CPlusPlus, "cplusplus"),
        ("a.hpp", Language::CPlusPlus, "cplusplus"),
        ("a.py", Language::Python, "python"),
        ("a.js", Language::JavaScript, "javascript"),
        ("a.ts", Language::TypeScript, "typescript"),
        ("a.java", Language::Java, "java"),
        ("a.go", Language::Go, "go"),
        ("a.cs", Language::CSharp, "csharp"),
    ];
    for (name, language, id) in table {
        assert_eq!(detect_language(name), Some(language), "{}", name);
        assert_eq!(language.id(), id);
        assert_eq!(grammar_id(name), id);
    }
}

#[test]
fn unknown_extensions_have_no_language() {
    for name in ["a.txt", "a.h", "a.RS", "a.rs ", "rs", "a.", "", "a.rs.bak", "a.jsx", "a.rss"] {
        assert_eq!(detect_language(name), None, "{:?}", name);
        assert_eq!(grammar_id(name), "txt");
    }
    assert_eq!(language_for_extension(&"rs".to_string()), Some(Language::Rust));
    assert_eq!(language_for_extension(&".rs".to_string()), None);
    assert_eq!(language_for_extension(&"".to_string()), None);
}

#[test]
fn a_read_file_is_loaded_with_its_display_name() {
    let loaded = file_loaded("/work/src/main.rs", Ok("fn main() {}".to_string()));
    let file = loaded.ok().unwrap();
    assert_eq!(file.content, "fn main() {}");
    assert_eq!(file.display_name, "main.rs");
}

#[test]
fn a_failed_read_is_a_read_error() {
    let failed = file_loaded("/no/such/file.rs", Err(Some(2)));
    let error = failed.err().unwrap();
    assert_eq!(error.path, "/no/such/file.rs");
    assert_eq!(error.os_code, Some(2));
    let failed = file_loaded("binary.bin", Err(None));
    let error = failed.err().unwrap();
    assert_eq!(error.path, "binary.bin");
    assert_eq!(error.os_code, None);
}

#[test]
fn a_failed_fetch_gives_the_fallback_icon() {
    assert!(acquire_icon(Err(IconAcquisitionError::Network)).is_fallback());
    assert!(acquire_icon(Err(IconAcquisitionError::Write)).is_fallback());
    assert!(acquire_icon(Err(IconAcquisitionError::MissingLanguage)).is_fallback());
    assert_eq!(acquire_icon(Err(IconAcquisitionError::Network)).path(), None);
}

#[test]
fn a_fetched_icon_is_kept() {
    let icon = acquire_icon(Ok("/cache/rust.png".to_string()));
    assert!(!icon.is_fallback());
    assert_eq!(icon.path().map(|p| p.as_str()), Some("/cache/rust.png"));
    assert!(matches!(icon, IconRef::Cached(_)));
}

#[test]
fn icons_are_keyed_by_language() {
    assert_eq!(icon_key(Some(Language::Rust)), Ok("rust"));
    assert_eq!(icon_key(Some(Language::CPlusPlus)), Ok("cplusplus"));
    assert_eq!(icon_key(None), Err(IconAcquisitionError::MissingLanguage));
}

#[test]
fn a_page_for_a_read_file() {
    let mut registry = Registry::new();
    let page = create_page(&mut registry, "/work/main.rs", Ok("fn main() {}".to_string()));
    assert_eq!(page.position, 0);
    assert_eq!(page.id, 0);
    assert_eq!(page.language, Some(Language::Rust));
    assert_eq!(page.grammar, "rust");
    assert!(page.notice.is_none());
    assert_eq!(registry.len(), 1);
    assert_eq!(registry.active_position(), Some(0));
    assert_eq!(registry.buffer_at(0).unwrap().as_str(), "fn main() {}");
    assert_eq!(registry.file_path_at(0).unwrap().map(|p| p.as_str()), Some("/work/main.rs"));
    assert_eq!(registry.session_at(0).unwrap().display_title().as_str(), "main.rs");
}

#[test]
fn a_page_for_an_unknown_language() {
    let mut registry = Registry::new();
    let page = create_page(&mut registry, "notes.md", Ok("# notes".to_string()));
    assert_eq!(page.language, None);
    assert_eq!(page.grammar, "txt");
    assert_eq!(registry.session_at(0).unwrap().display_title().as_str(), "notes.md");
}

#[test]
fn a_page_for_an_unreadable_file_is_empty_and_untitled() {
    let mut registry = Registry::new();
    create_page(&mut registry, "first.rs", Ok("x".to_string()));
    let page = create_page(&mut registry, "/no/such/file.rs", Err(Some(2)));
    assert_eq!(page.position, 1);
    assert_eq!(page.id, 1);
    assert_eq!(page.language, None);
    assert_eq!(page.grammar, "txt");
    let notice = page.notice.unwrap();
    assert_eq!(notice.path, "/no/such/file.rs");
    assert_eq!(notice.os_code, Some(2));
    assert_eq!(registry.len(), 2);
    assert_eq!(registry.active_position(), Some(1));
    let session = registry.session_at(1).unwrap();
    assert_eq!(session.buffer().as_str(), "");
    assert_eq!(session.display_title().as_str(), "Untitled");
    assert_eq!(session.file_path(), None);
    assert_eq!(session.position(), 1);
    assert!(session.icon().is_fallback());
}
