use candela::c_project;
use candela::find_project_files::is_project_config_file;
use candela::recursive_cleaner::find_project_files::get_project_lang;
use candela::recursive_cleaner::find_project_files::ProjectLang;
use candela::recursive_cleaner::is_elf::is_elf;
use candela::recursive_cleaner::project;
use candela::recursive_cleaner::project::ProjectFile;

fn c_entry(name: &str) -> c_project::TaggedEntry {
    c_project::TaggedEntry {
        name: name.to_string(),
        is_dir: false,
        kind: c_project::FileKind::default(),
    }
}

fn p_entry(name: &str) -> ProjectFile {
    ProjectFile {
        name: name.to_string(),
        size: 0,
        is_dir: false,
        kind: project::FileKind::default(),
    }
}

#[test]
fn case_a() {
    let os_filename = "package.json";
    assert_eq!(is_project_config_file(os_filename), true);
}

#[test]
fn other_names_are_not_project_config_files() {
    assert_eq!(is_project_config_file("package.json.bak"), false);
    assert_eq!(is_project_config_file("Cargo.toml"), false);
    assert_eq!(is_project_config_file("Makefile"), true);
    assert_eq!(is_project_config_file("cargo.toml"), true);
}

#[test]
fn c_project_tagging_follows_the_matcher_table() {
    let mut e = c_entry("libfoo.a");
    c_project::tag_file(&mut e);
    assert_eq!(e.kind, c_project::FileKind::Deliverable);

    let mut e = c_entry("a.out");
    c_project::tag_file(&mut e);
    assert_eq!(e.kind, c_project::FileKind::Deliverable);

    let mut e = c_entry("main.o");
    c_project::tag_file(&mut e);
    assert_eq!(e.kind, c_project::FileKind::Temporary);

    let mut e = c_entry("all.gch");
    c_project::tag_file(&mut e);
    assert_eq!(e.kind, c_project::FileKind::Temporary);

    // This classifier keeps source extensions at `Other`.
    let mut e = c_entry("main.c");
    c_project::tag_file(&mut e);
    assert_eq!(e.kind, c_project::FileKind::Other);

    // The extension needs a non-empty stem before the dot.
    let mut e = c_entry(".o");
    c_project::tag_file(&mut e);
    assert_eq!(e.kind, c_project::FileKind::Other);

    let mut e = c_entry("README");
    c_project::tag_file(&mut e);
    assert_eq!(e.kind, c_project::FileKind::Other);
}

#[test]
fn c_project_retains_dirs_and_tagged_files() {
    let mut dir = c_entry("src");
    dir.is_dir = true;
    assert!(c_project::is_to_retain(&dir));
    let mut obj = c_entry("x.o");
    c_project::tag_file(&mut obj);
    assert!(c_project::is_to_retain(&obj));
    assert!(!c_project::is_to_retain(&c_entry("notes.txt")));
}

#[test]
fn cleaner_tagging_marks_sources_and_elves() {
    let mut e = p_entry("main.cpp");
    project::ccpp::tag_file(&mut e, false);
    assert_eq!(e.kind, project::FileKind::Source);

    let mut e = p_entry("libbar.so");
    project::ccpp::tag_file(&mut e, true);
    assert_eq!(e.kind, project::FileKind::Deliverable);

    let mut e = p_entry("tool");
    project::ccpp::tag_file(&mut e, true);
    assert_eq!(e.kind, project::FileKind::OtherElf);

    let mut e = p_entry("notes.txt");
    project::ccpp::tag_file(&mut e, false);
    assert_eq!(e.kind, project::FileKind::Other);
}

#[test]
fn kind_names_spell_out_each_variant() {
    assert_eq!(c_project::FileKind::Source.name(), "Source");
    assert_eq!(c_project::FileKind::Deliverable.name(), "Deliverable");
    assert_eq!(c_project::FileKind::Temporary.name(), "Temporary");
    assert_eq!(c_project::FileKind::Other.name(), "Other");
    assert_eq!(project::FileKind::OtherElf.name(), "Other Elf");
    assert_eq!(project::FileKind::default(), project::FileKind::Other);
}

#[test]
fn elf_magic_is_recognised() {
    assert!(is_elf(&[0x7f, b'E', b'L', b'F']));
    assert!(!is_elf(&[0x7f, b'E', b'L', b'G']));
    assert!(!is_elf(&[b'#', b'!', b'/', b'b']));
}

#[test]
fn project_markers_map_to_languages() {
    assert_eq!(get_project_lang("Makefile"), Some(ProjectLang::CCpp));
    assert_eq!(get_project_lang("Cargo.toml"), Some(ProjectLang::Rust));
    assert_eq!(get_project_lang("yarn.lock"), Some(ProjectLang::Yarn));
    assert_eq!(get_project_lang("package-lock.json"), Some(ProjectLang::Npm));
    assert_eq!(get_project_lang("pnpm-lock.yaml"), Some(ProjectLang::Npm));
    assert_eq!(get_project_lang("makefile"), None);
    assert_eq!(get_project_lang(""), None);
}
