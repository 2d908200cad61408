//! Recognition of project roots by their marker files, and the language
//! each marker stands for.

use vstd::prelude::*;

use crate::names::str_eq;

verus! {

use vstd::string::StringSliceAdditionalSpecFns;

/// The language a project root was recognised as.
#[derive(Clone, Copy, Debug, PartialEq, Eq, Structural)]
pub enum ProjectLang {
    CCpp,
    Rust,
    Yarn,
    Npm,
}

/// The language the marker table assigns to a file name, if any: the first
/// matching marker wins.
pub open spec fn project_lang_of(s: Seq<u8>) -> Option<ProjectLang> {
    if s == "Makefile".spec_bytes() {
        Some(ProjectLang::CCpp)
    } else if s == "Cargo.toml".spec_bytes() {
        Some(ProjectLang::Rust)
    } else if s == "yarn.lock".spec_bytes() {
        Some(ProjectLang::Yarn)
    } else if s == "package-lock.json".spec_bytes() {
        Some(ProjectLang::Npm)
    } else if s == "pnpm-lock.yaml".spec_bytes() {
        Some(ProjectLang::Npm)
    } else {
        None
    }
}

/// The project language a marker file name stands for.
pub fn get_project_lang(file_name: &str) -> (r: Option<ProjectLang>)
    ensures
        r == project_lang_of(file_name.spec_bytes()),
{
    if str_eq(file_name, "Makefile") {
        Some(ProjectLang::CCpp)
    } else if str_eq(file_name, "Cargo.toml") {
        Some(ProjectLang::Rust)
    } else if str_eq(file_name, "yarn.lock") {
        Some(ProjectLang::Yarn)
    } else if str_eq(file_name, "package-lock.json") {
        Some(ProjectLang::Npm)
    } else if str_eq(file_name, "pnpm-lock.yaml") {
        Some(ProjectLang::Npm)
    } else {
        None
    }
}

} // verus!
