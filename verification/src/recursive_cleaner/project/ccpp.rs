//! Tagging the files of a C or C++ project for the cleaner: build products
//! by their dotted extensions, plus stray ELF binaries.

use vstd::prelude::*;

use super::FileKind;
use super::ProjectFile;
use crate::names::has_stem_and_suffix;
use crate::names::name_has_suffix;

verus! {

use vstd::string::StringSliceAdditionalSpecFns;

impl Default for FileKind {
    /// A file is `Other` until something is known about it.
    fn default() -> (r: Self)
        ensures
            r == FileKind::Other,
    {
        FileKind::Other
    }
}

impl FileKind {
    /// The kind's display name.
    pub open spec fn spec_name(self) -> Seq<char> {
        match self {
            FileKind::Source => "Source"@,
            FileKind::Deliverable => "Deliverable"@,
            FileKind::Temporary => "Temporary"@,
            FileKind::OtherElf => "Other Elf"@,
            FileKind::Other => "Other"@,
        }
    }

    /// The kind's display name, for messages.
    pub fn name(&self) -> (r: &'static str)
        ensures
            r@ == self.spec_name(),
    {
        match self {
            FileKind::Source => "Source",
            FileKind::Deliverable => "Deliverable",
            FileKind::Temporary => "Temporary",
            FileKind::OtherElf => "Other Elf",
            FileKind::Other => "Other",
        }
    }
}

/// What the matcher table decides for a file name: the first matching rule
/// wins.
pub open spec fn classify_name(s: Seq<u8>) -> Option<FileKind> {
    if crate::c_project::is_deliverable_name(s) {
        Some(FileKind::Deliverable)
    } else if crate::c_project::is_temporary_name(s) {
        Some(FileKind::Temporary)
    } else if crate::c_project::is_source_name(s) {
        Some(FileKind::Source)
    } else {
        None
    }
}

/// Tag one file: set its kind by the matcher table; when no rule matches
/// and the caller found the ELF magic in the file, mark it `OtherElf`.
pub fn tag_file(entry: &mut ProjectFile, found_elf_magic: bool)
    ensures
        final(entry).name == old(entry).name,
        final(entry).size == old(entry).size,
        final(entry).is_dir == old(entry).is_dir,
        final(entry).kind == match classify_name(vstd::utf8::encode_utf8(old(entry).name@)) {
            Some(k) => k,
            None => if found_elf_magic {
                FileKind::OtherElf
            } else {
                old(entry).kind
            },
        },
{
    let name = entry.name.as_str();
    if name_has_suffix(name, ".a") || name_has_suffix(name, ".out") || name_has_suffix(
        name,
        ".so",
    ) {
        entry.kind = FileKind::Deliverable;
    } else if name_has_suffix(name, ".o") || name_has_suffix(name, ".gch") {
        entry.kind = FileKind::Temporary;
    } else if name_has_suffix(name, ".c") || name_has_suffix(name, ".h") || name_has_suffix(
        name,
        ".cpp",
    ) || name_has_suffix(name, ".hpp") || name_has_suffix(name, ".cc") || name_has_suffix(
        name,
        ".hh",
    ) {
        entry.kind = FileKind::Source;
    } else if found_elf_magic {
        entry.kind = FileKind::OtherElf;
    }
}

/// Keep directories and every file a rule recognised as more than `Other`.
pub fn is_to_retain(entry: &ProjectFile) -> (r: bool)
    ensures
        r == (entry.is_dir || entry.kind != FileKind::Other),
{
    entry.is_dir || entry.kind != FileKind::Other
}

} // verus!
