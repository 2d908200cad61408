//! Recognition of project configuration files at the top of a code base.

use vstd::prelude::*;

use crate::names::str_eq;

verus! {

use vstd::string::StringSliceAdditionalSpecFns;

/// The file names that mark a directory as a project root.
pub open spec fn is_project_config_name(s: Seq<u8>) -> bool {
    ||| s == "package.json".spec_bytes()
    ||| s == "cargo.toml".spec_bytes()
    ||| s == "Makefile".spec_bytes()
}

/// Is this file name one of the project configuration files?
pub fn is_project_config_file(filename: &str) -> (r: bool)
    ensures
        r == is_project_config_name(filename.spec_bytes()),
{
    str_eq(filename, "package.json") || str_eq(filename, "cargo.toml") || str_eq(
        filename,
        "Makefile",
    )
}

} // verus!
