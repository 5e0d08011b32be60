use a4::command::{command_for, resolve_command, shortcut_for, Command, Shortcut, CONTROL_MASK};
use a4::file::{dialog_choice, open_file_dialog, open_folder_dialog, DialogKind, DialogResponse};
use a4::tree::{entry_activated, entry_icon_name, entry_precedes, sort_entries, TreeEntry};

fn entry(name: &str, is_dir: bool) -> TreeEntry {
    TreeEntry { name: name.to_string(), path: format!("/root/{}", name), is_dir }
}

fn names(entries: &[TreeEntry]) -> Vec<&str> {
    entries.iter().map(|e| e.name.as_str()).collect()
}

#[test]
fn folders_come_before_files() {
    let listed = sort_entries(vec![
        entry("zeta.rs", false),
        entry("src", true),
        entry("alpha.rs", false),
        entry("docs", true),
    ]);
    assert_eq!(names(&listed), vec!["docs", "src", "alpha.rs", "zeta.rs"]);
    assert_eq!(listed[0].path, "/root/docs");
    assert!(listed[0].is_dir && listed[1].is_dir && !listed[2].is_dir);
}

#[test]
fn names_go_byte_by_byte() {
    let listed = sort_entries(vec![
        entry("b", false),
        entry("a", false),
        entry("B", false),
        entry("ab", false),
        entry("", false),
        entry("é", false),
        entry("z", false),
        entry("a.b", false),
    ]);
    assert_eq!(names(&listed), vec!["", "B", "a", "a.b", "ab", "b", "z", "é"]);
}

#[test]
fn sorting_keeps_every_entry() {
    assert_eq!(sort_entries(vec![]).len(), 0);
    let one = sort_entries(vec![entry("only", true)]);
    assert_eq!(names(&one), vec!["only"]);
    let mut input = Vec::new();
    for i in 0..40usize {
        input.push(entry(&format!("f{}", (i * 7) % 40), i % 3 == 0));
    }
    let listed = sort_entries(input);
    assert_eq!(listed.len(), 40);
    for pair in listed.windows(2) {
        assert!(entry_precedes(&pair[0], &pair[1]));
    }
    let mut seen: Vec<&str> = names(&listed);
    seen.sort();
    seen.dedup();
    assert_eq!(seen.len(), 40);
}

#[test]
fn entries_of_one_rank_keep_their_order() {
    let mut input = vec![entry("same", false), entry("other", false), entry("same", false)];
    input[0].path = "first".to_string();
    input[2].path = "second".to_string();
    input.push(TreeEntry { name: "same".to_string(), path: "third".to_string(), is_dir: false });
    input.push(TreeEntry { name: "same".to_string(), path: "folder".to_string(), is_dir: true });
    let listed = sort_entries(input);
    let paths: Vec<&str> = listed.iter().map(|e| e.path.as_str()).collect();
    assert_eq!(paths, vec!["folder", "/root/other", "first", "second", "third"]);
}

#[test]
fn the_order_of_two_entries() {
    assert!(entry_precedes(&entry("z", true), &entry("a", false)));
    assert!(!entry_precedes(&entry("a", false), &entry("z", true)));
    assert!(entry_precedes(&entry("a", false), &entry("a", false)));
    assert!(entry_precedes(&entry("a", false), &entry("aa", false)));
    assert!(!entry_precedes(&entry("aa", false), &entry("a", false)));
    assert!(entry_precedes(&entry("Z", true), &entry("a", true)));
    assert!(!entry_precedes(&entry("b", true), &entry("a", true)));
}

#[test]
fn icons_of_entries() {
    assert_eq!(entry_icon_name(true), "folder-symbolic");
    assert_eq!(entry_icon_name(false), "text-x-generic-symbolic");
}

#[test]
fn activating_a_file_opens_it() {
    assert_eq!(entry_activated(&entry("main.rs", false)), Some("/root/main.rs".to_string()));
    assert_eq!(entry_activated(&entry("src", true)), None);
}

#[test]
fn the_palette_ignores_case() {
    assert_eq!(resolve_command("open file"), Some(Command::OpenFile));
    assert_eq!(resolve_command("Open File"), Some(Command::OpenFile));
    assert_eq!(resolve_command("OPEN FOLDER"), Some(Command::OpenFolder));
    assert_eq!(resolve_command("open folder"), Some(Command::OpenFolder));
}

#[test]
fn the_palette_knows_no_other_line() {
    let lines =
        ["", "open", "open  file", " open file", "open file ", "openfile", "save", "open files"];
    for line in lines {
        assert_eq!(resolve_command(line), None, "{:?}", line);
    }
}

#[test]
fn command_names_are_matched_as_they_stand() {
    assert_eq!(command_for(&"open file".to_string()), Some(Command::OpenFile));
    assert_eq!(command_for(&"open folder".to_string()), Some(Command::OpenFolder));
    assert_eq!(command_for(&"Open File".to_string()), None);
    assert_eq!(command_for(&"".to_string()), None);
}

#[test]
fn control_s_saves() {
    assert_eq!(CONTROL_MASK, 4);
    assert_eq!(shortcut_for(Some("s"), CONTROL_MASK), Some(Shortcut::SaveFile));
    assert_eq!(shortcut_for(Some("s"), 0), None);
    assert_eq!(shortcut_for(Some("s"), CONTROL_MASK | 1), None);
    assert_eq!(shortcut_for(Some("S"), CONTROL_MASK), None);
    assert_eq!(shortcut_for(Some("ss"), CONTROL_MASK), None);
    assert_eq!(shortcut_for(Some(""), CONTROL_MASK), None);
    assert_eq!(shortcut_for(None, CONTROL_MASK), None);
}

#[test]
fn the_two_dialogs() {
    let file = open_file_dialog();
    assert_eq!(file.title, "Open file");
    assert_eq!(file.kind, DialogKind::OpenFile);
    assert_eq!(file.cancel_label, "Cancel");
    assert_eq!(file.accept_label, "Open");
    let folder = open_folder_dialog();
    assert_eq!(folder.title, "Open folder");
    assert_eq!(folder.kind, DialogKind::SelectFolder);
    assert_eq!(folder.cancel_label, "Cancel");
    assert_eq!(folder.accept_label, "Open");
}

#[test]
fn only_an_accepted_choice_is_acted_on() {
    let chosen = Some("/work/main.rs".to_string());
    assert_eq!(dialog_choice(DialogResponse::Accept, chosen.clone()), chosen);
    assert_eq!(dialog_choice(DialogResponse::Accept, None), None);
    assert_eq!(dialog_choice(DialogResponse::Cancel, chosen.clone()), None);
    assert_eq!(dialog_choice(DialogResponse::Other, chosen), None);
}
