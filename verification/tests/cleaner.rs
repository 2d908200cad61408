use candela::disk_usage::sum_sizes;
use candela::recursive_cleaner::cleanup_plan;
use candela::recursive_cleaner::find_project_files::ProjectLang;
use candela::recursive_cleaner::project::FileKind;
use candela::recursive_cleaner::project::Project;
use candela::recursive_cleaner::project::ProjectFile;
use candela::template::Command;
use candela::template::Executor;
use candela::template::TemplateCli;

fn file(name: &str, size: u64, kind: FileKind) -> ProjectFile {
    ProjectFile { name: name.to_string(), size, is_dir: false, kind }
}

#[test]
fn yarn_plan_cleans_caches_and_modules() {
    let plan = cleanup_plan(ProjectLang::Yarn);
    let cmd = plan.command.expect("yarn projects run a command");
    assert_eq!(cmd.program, "yarn");
    assert_eq!(cmd.args, vec!["cache".to_string(), "clean".to_string(), "--all".to_string()]);
    assert!(cmd.only_if_dir.is_none());
    assert_eq!(plan.remove_files, vec![".yarn/install-state.gz".to_string()]);
    assert_eq!(
        plan.remove_dirs,
        vec![".yarn/unplugged".to_string(), "node_modules".to_string()]
    );
}

#[test]
fn npm_plan_removes_node_modules() {
    let plan = cleanup_plan(ProjectLang::Npm);
    assert!(plan.command.is_none());
    assert!(plan.remove_files.is_empty());
    assert_eq!(plan.remove_dirs, vec!["node_modules".to_string()]);
}

#[test]
fn rust_plan_runs_cargo_clean_when_target_exists() {
    let plan = cleanup_plan(ProjectLang::Rust);
    let cmd = plan.command.expect("rust projects run a command");
    assert_eq!(cmd.program, "cargo");
    assert_eq!(cmd.args, vec!["clean".to_string()]);
    assert_eq!(cmd.only_if_dir, Some("target".to_string()));
    assert!(plan.remove_files.is_empty());
    assert!(plan.remove_dirs.is_empty());
}

#[test]
fn c_projects_have_no_fixed_plan() {
    let plan = cleanup_plan(ProjectLang::CCpp);
    assert!(plan.command.is_none());
    assert!(plan.remove_files.is_empty());
    assert!(plan.remove_dirs.is_empty());
}

#[test]
fn artefact_sizes_count_temporaries_and_elves() {
    let mut p = Project::from_c_project_path(
        "/work/proj".to_string(),
        vec![
            file("main.c", 1000, FileKind::Source),
            file("main.o", 300, FileKind::Temporary),
            file("app.out", 5000, FileKind::Deliverable),
            file("stray", 200, FileKind::OtherElf),
            file("notes", 40, FileKind::Other),
        ],
    );
    assert!(p.artefacts_sizes.is_none());
    let total = p.get_or_compute_artefact_sizes();
    assert_eq!(total, 500);
    assert_eq!(p.artefacts_sizes, Some(500));
    // A second call returns the cached value.
    assert_eq!(p.get_or_compute_artefact_sizes(), 500);
}

#[test]
fn artefact_sizes_saturate() {
    let mut p = Project::from_c_project_path(
        "p".to_string(),
        vec![
            file("a.o", u64::MAX, FileKind::Temporary),
            file("b.o", 10, FileKind::Temporary),
        ],
    );
    assert_eq!(p.get_or_compute_artefact_sizes(), u64::MAX);
}

#[test]
fn counting_and_listing_artefacts() {
    let p = Project::from_c_project_path(
        "p".to_string(),
        vec![
            file("a.o", 1, FileKind::Temporary),
            file("b.o", 2, FileKind::Temporary),
            file("app", 3, FileKind::OtherElf),
            file("x.c", 4, FileKind::Source),
        ],
    );
    assert_eq!(p.count_kind(FileKind::Temporary), 2);
    assert_eq!(p.count_kind(FileKind::OtherElf), 1);
    assert_eq!(p.count_kind(FileKind::Deliverable), 0);
    assert_eq!(
        p.artefact_files(),
        vec!["a.o".to_string(), "b.o".to_string(), "app".to_string()]
    );
}

#[test]
fn disk_usage_sums_and_saturates() {
    assert_eq!(sum_sizes(&vec![]), 0);
    assert_eq!(sum_sizes(&vec![1, 2, 3]), 6);
    assert_eq!(sum_sizes(&vec![u64::MAX, 1]), u64::MAX);
}

#[test]
fn template_executor_keeps_its_base_path() {
    let ex = Executor::new("/home/someone/.config/candela/templates".to_string());
    assert_eq!(ex.base_path(), "/home/someone/.config/candela/templates");
    let cli = TemplateCli { command: Command::Rm { template_name: "old".to_string() } };
    match cli.command {
        Command::Rm { template_name } => assert_eq!(template_name, "old"),
        _ => panic!("unexpected command"),
    }
}
