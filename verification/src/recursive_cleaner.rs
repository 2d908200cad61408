//! Decisions of the project cleaner: which caches and build artefacts to
//! remove, and which cleanup command to run, for each recognised project
//! language.  Running commands, deleting files and walking trees stay with
//! the caller.

pub mod find_project_files;
pub mod is_elf;
pub mod project;

use vstd::prelude::*;

use crate::recursive_cleaner::find_project_files::ProjectLang;

verus! {

use vstd::string::StringExecFns;

/// A cleanup command to spawn in the project directory; when `only_if_dir`
/// names a directory, the command is only worth running if that directory
/// exists.
pub struct CleanupCommand {
    pub program: String,
    pub args: Vec<String>,
    pub only_if_dir: Option<String>,
}

/// What cleaning one project means: an optional command, files to delete,
/// and directory trees to delete, all relative to the project directory.
pub struct CleanupPlan {
    pub command: Option<CleanupCommand>,
    pub remove_files: Vec<String>,
    pub remove_dirs: Vec<String>,
}

/// The plan `cleanup_plan` owes for each language.
pub open spec fn plan_ok(lang: ProjectLang, r: CleanupPlan) -> bool {
    match lang {
        ProjectLang::Yarn => {
            &&& r.command is Some
            &&& r.command.unwrap().program@ == "yarn"@
            &&& r.command.unwrap().args.deep_view() == seq!["cache"@, "clean"@, "--all"@]
            &&& r.command.unwrap().only_if_dir is None
            &&& r.remove_files.deep_view() == seq![".yarn/install-state.gz"@]
            &&& r.remove_dirs.deep_view() == seq![".yarn/unplugged"@, "node_modules"@]
        },
        ProjectLang::Npm => {
            &&& r.command is None
            &&& r.remove_files.deep_view() == Seq::<Seq<char>>::empty()
            &&& r.remove_dirs.deep_view() == seq!["node_modules"@]
        },
        ProjectLang::Rust => {
            &&& r.command is Some
            &&& r.command.unwrap().program@ == "cargo"@
            &&& r.command.unwrap().args.deep_view() == seq!["clean"@]
            &&& r.command.unwrap().only_if_dir is Some
            &&& r.command.unwrap().only_if_dir.unwrap()@ == "target"@
            &&& r.remove_files.deep_view() == Seq::<Seq<char>>::empty()
            &&& r.remove_dirs.deep_view() == Seq::<Seq<char>>::empty()
        },
        ProjectLang::CCpp => {
            &&& r.command is None
            &&& r.remove_files.deep_view() == Seq::<Seq<char>>::empty()
            &&& r.remove_dirs.deep_view() == Seq::<Seq<char>>::empty()
        },
    }
}

/// What cleaning a project of the given language means.  C projects carry
/// no fixed plan: their artefacts are found file by file by the classifier.
pub fn cleanup_plan(lang: ProjectLang) -> (r: CleanupPlan)
    ensures
        plan_ok(lang, r),
{
    match lang {
        ProjectLang::Yarn => {
            let mut args: Vec<String> = Vec::new();
            args.push(String::from_str("cache"));
            args.push(String::from_str("clean"));
            args.push(String::from_str("--all"));
            assert(args.deep_view() =~= seq!["cache"@, "clean"@, "--all"@]);
            let mut remove_files: Vec<String> = Vec::new();
            remove_files.push(String::from_str(".yarn/install-state.gz"));
            assert(remove_files.deep_view() =~= seq![".yarn/install-state.gz"@]);
            let mut remove_dirs: Vec<String> = Vec::new();
            remove_dirs.push(String::from_str(".yarn/unplugged"));
            remove_dirs.push(String::from_str("node_modules"));
            assert(remove_dirs.deep_view() =~= seq![".yarn/unplugged"@, "node_modules"@]);
            CleanupPlan {
                command: Some(
                    CleanupCommand {
                        program: String::from_str("yarn"),
                        args,
                        only_if_dir: None,
                    },
                ),
                remove_files,
                remove_dirs,
            }
        },
        ProjectLang::Npm => {
            let remove_files: Vec<String> = Vec::new();
            let mut remove_dirs: Vec<String> = Vec::new();
            remove_dirs.push(String::from_str("node_modules"));
            assert(remove_files.deep_view() =~= Seq::<Seq<char>>::empty());
            assert(remove_dirs.deep_view() =~= seq!["node_modules"@]);
            CleanupPlan { command: None, remove_files, remove_dirs }
        },
        ProjectLang::Rust => {
            let mut args: Vec<String> = Vec::new();
            args.push(String::from_str("clean"));
            assert(args.deep_view() =~= seq!["clean"@]);
            let remove_files: Vec<String> = Vec::new();
            let remove_dirs: Vec<String> = Vec::new();
            assert(remove_files.deep_view() =~= Seq::<Seq<char>>::empty());
            assert(remove_dirs.deep_view() =~= Seq::<Seq<char>>::empty());
            CleanupPlan {
                command: Some(
                    CleanupCommand {
                        program: String::from_str("cargo"),
                        args,
                        only_if_dir: Some(String::from_str("target")),
                    },
                ),
                remove_files,
                remove_dirs,
            }
        },
        ProjectLang::CCpp => {
            let remove_files: Vec<String> = Vec::new();
            let remove_dirs: Vec<String> = Vec::new();
            assert(remove_files.deep_view() =~= Seq::<Seq<char>>::empty());
            assert(remove_dirs.deep_view() =~= Seq::<Seq<char>>::empty());
            CleanupPlan { command: None, remove_files, remove_dirs }
        },
    }
}

} // verus!
