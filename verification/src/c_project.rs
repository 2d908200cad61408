//! Classification of the files of a C project: deliverables, temporary
//! build artefacts, and everything else, decided by the file name's dotted
//! extension.

use vstd::prelude::*;

use crate::names::has_stem_and_suffix;
use crate::names::name_has_suffix;

verus! {

use vstd::string::StringSliceAdditionalSpecFns;

/// What role a file plays in a C project.
#[derive(Debug, PartialEq, Eq, Copy, Clone, Structural)]
pub enum FileKind {
    Source,
    Deliverable,
    Temporary,
    Other,
}

impl Default for FileKind {
    /// A file is `Other` until something is known about it.
    fn default() -> (r: Self)
        ensures
            r == FileKind::Other,
    {
        FileKind::Other
    }
}

impl FileKind {
    /// The kind's display name.
    pub open spec fn spec_name(self) -> Seq<char> {
        match self {
            FileKind::Source => "Source"@,
            FileKind::Deliverable => "Deliverable"@,
            FileKind::Temporary => "Temporary"@,
            FileKind::Other => "Other"@,
        }
    }

    /// The kind's display name, for messages.
    pub fn name(&self) -> (r: &'static str)
        ensures
            r@ == self.spec_name(),
    {
        match self {
            FileKind::Source => "Source",
            FileKind::Deliverable => "Deliverable",
            FileKind::Temporary => "Temporary",
            FileKind::Other => "Other",
        }
    }
}

/// One entry of a walked C project tree, as the classifier sees it.
pub struct TaggedEntry {
    pub name: String,
    pub is_dir: bool,
    pub kind: FileKind,
}

/// Deliverable artefacts: static or shared libraries and linked programs.
pub open spec fn is_deliverable_name(s: Seq<u8>) -> bool {
    ||| has_stem_and_suffix(s, ".a".spec_bytes())
    ||| has_stem_and_suffix(s, ".out".spec_bytes())
    ||| has_stem_and_suffix(s, ".so".spec_bytes())
}

/// Temporary artefacts: object files and precompiled headers.
pub open spec fn is_temporary_name(s: Seq<u8>) -> bool {
    ||| has_stem_and_suffix(s, ".o".spec_bytes())
    ||| has_stem_and_suffix(s, ".gch".spec_bytes())
}

/// C and C++ source and header files.
pub open spec fn is_source_name(s: Seq<u8>) -> bool {
    ||| has_stem_and_suffix(s, ".c".spec_bytes())
    ||| has_stem_and_suffix(s, ".h".spec_bytes())
    ||| has_stem_and_suffix(s, ".cpp".spec_bytes())
    ||| has_stem_and_suffix(s, ".hpp".spec_bytes())
    ||| has_stem_and_suffix(s, ".cc".spec_bytes())
    ||| has_stem_and_suffix(s, ".hh".spec_bytes())
}

/// What the matcher table decides for a file name: the first matching rule
/// wins, and source extensions are deliberately kept as `Other` here, since
/// this classifier only hunts artefacts.
pub open spec fn classify_name(s: Seq<u8>) -> Option<FileKind> {
    if is_deliverable_name(s) {
        Some(FileKind::Deliverable)
    } else if is_temporary_name(s) {
        Some(FileKind::Temporary)
    } else if is_source_name(s) {
        Some(FileKind::Other)
    } else {
        None
    }
}

/// Tag one entry: set its kind to what the matcher table decides for its
/// name, and leave it untouched when no rule matches.
pub fn tag_file(entry: &mut TaggedEntry)
    ensures
        final(entry).name == old(entry).name,
        final(entry).is_dir == old(entry).is_dir,
        final(entry).kind == match classify_name(vstd::utf8::encode_utf8(old(entry).name@)) {
            Some(k) => k,
            None => old(entry).kind,
        },
{
    let name = entry.name.as_str();
    if name_has_suffix(name, ".a") || name_has_suffix(name, ".out") || name_has_suffix(
        name,
        ".so",
    ) {
        entry.kind = FileKind::Deliverable;
    } else if name_has_suffix(name, ".o") || name_has_suffix(name, ".gch") {
        entry.kind = FileKind::Temporary;
    } else if name_has_suffix(name, ".c") || name_has_suffix(name, ".h") || name_has_suffix(
        name,
        ".cpp",
    ) || name_has_suffix(name, ".hpp") || name_has_suffix(name, ".cc") || name_has_suffix(
        name,
        ".hh",
    ) {
        entry.kind = FileKind::Other;
    }
}

/// Keep directories and every file a rule recognised as more than `Other`.
pub fn is_to_retain(entry: &TaggedEntry) -> (r: bool)
    ensures
        r == (entry.is_dir || entry.kind != FileKind::Other),
{
    entry.is_dir || entry.kind != FileKind::Other
}

} // verus!
