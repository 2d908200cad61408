//! One C project and its artefacts: the files found under its root, tagged
//! by kind, and the total size of the artefacts among them.

pub mod ccpp;

use vstd::prelude::*;

verus! {

/// What role a file plays in a C project; `OtherElf` marks an unrecognised
/// file that turned out to be an ELF binary.
#[derive(Debug, PartialEq, Eq, Copy, Clone, Structural)]
pub enum FileKind {
    Source,
    Deliverable,
    Temporary,
    OtherElf,
    Other,
}

/// One file found under a project root, tagged with its kind.
pub struct ProjectFile {
    pub name: String,
    pub size: u64,
    pub is_dir: bool,
    pub kind: FileKind,
}

/// Artefacts are what the cleaner may delete: temporary build products and
/// stray ELF binaries.
pub open spec fn is_artefact(k: FileKind) -> bool {
    k == FileKind::Temporary || k == FileKind::OtherElf
}

/// The total size of the artefacts among the files.
pub open spec fn artefact_sum(files: Seq<ProjectFile>) -> int
    decreases files.len(),
{
    if files.len() == 0 {
        0int
    } else {
        artefact_sum(files.drop_last()) + if is_artefact(files.last().kind) {
            files.last().size as int
        } else {
            0int
        }
    }
}

/// The artefact total is never negative.
pub proof fn lemma_artefact_sum_nonneg(files: Seq<ProjectFile>)
    ensures
        artefact_sum(files) >= 0,
    decreases files.len(),
{
    if files.len() > 0 {
        lemma_artefact_sum_nonneg(files.drop_last());
    }
}

/// The artefact total, saturated at the machine limit.
pub open spec fn artefact_sum_sat(files: Seq<ProjectFile>) -> int {
    if artefact_sum(files) <= u64::MAX {
        artefact_sum(files)
    } else {
        u64::MAX as int
    }
}

/// How many files carry the given kind.
pub open spec fn spec_count_kind(files: Seq<ProjectFile>, k: FileKind) -> int
    decreases files.len(),
{
    if files.len() == 0 {
        0int
    } else {
        spec_count_kind(files.drop_last(), k) + if files.last().kind == k {
            1int
        } else {
            0int
        }
    }
}

/// The count of a kind never exceeds the number of files.
pub proof fn lemma_count_kind_bounds(files: Seq<ProjectFile>, k: FileKind)
    ensures
        0 <= spec_count_kind(files, k) <= files.len(),
    decreases files.len(),
{
    if files.len() > 0 {
        lemma_count_kind_bounds(files.drop_last(), k);
    }
}

/// The files of a project that are artefacts, in order.
pub open spec fn artefacts_of(files: Seq<ProjectFile>) -> Seq<ProjectFile> {
    files.filter(|f: ProjectFile| is_artefact(f.kind))
}

/// The names of a project's artefact files, in order.
pub open spec fn artefact_names(files: Seq<ProjectFile>) -> Seq<Seq<char>> {
    artefacts_of(files).map_values(|f: ProjectFile| f.name@)
}

proof fn lemma_artefacts_push(s: Seq<ProjectFile>, x: ProjectFile)
    ensures
        artefacts_of(s.push(x)) == if is_artefact(x.kind) {
            artefacts_of(s).push(x)
        } else {
            artefacts_of(s)
        },
{
    reveal(Seq::filter);
    assert(s.push(x).drop_last() =~= s);
    assert(s.push(x).last() == x);
}

/// A C project: its root path, its tagged files, and a cache of the total
/// artefact size once it has been computed.
pub struct Project {
    pub path: String,
    pub files: Vec<ProjectFile>,
    pub artefacts_sizes: Option<u64>,
}

impl Project {
    /// Gather a project from its root path and the tagged files found
    /// under it.  The artefact total starts out uncomputed.
    pub fn from_c_project_path(base_path: String, files: Vec<ProjectFile>) -> (r: Self)
        ensures
            r.path == base_path,
            r.files == files,
            r.artefacts_sizes is None,
    {
        Project { path: base_path, files, artefacts_sizes: None }
    }

    /// Compute and cache the total size of the project's artefacts,
    /// saturating at the machine limit.
    pub fn compute_artefacts_sizes(&mut self)
        ensures
            final(self).path == old(self).path,
            final(self).files == old(self).files,
            final(self).artefacts_sizes == Some((artefact_sum_sat(old(self).files@) as u64)),
    {
        let ghost fs = self.files@;
        let mut acc: u64 = 0;
        let mut i: usize = 0;
        while i < self.files.len()
            invariant
                i <= fs.len(),
                fs == self.files@,
                artefact_sum(fs.take(i as int)) <= u64::MAX ==> acc == artefact_sum(
                    fs.take(i as int),
                ),
                artefact_sum(fs.take(i as int)) > u64::MAX ==> acc == u64::MAX,
            decreases fs.len() - i,
        {
            proof {
                assert(fs.take(i + 1).drop_last() =~= fs.take(i as int));
                assert(fs.take(i + 1).last() == fs[i as int]);
                lemma_artefact_sum_nonneg(fs.take(i as int));
            }
            let f = &self.files[i];
            let add_size: u64 = match f.kind {
                FileKind::Temporary => f.size,
                FileKind::OtherElf => f.size,
                _ => 0,
            };
            if u64::MAX - acc >= add_size {
                acc = acc + add_size;
            } else {
                acc = u64::MAX;
            }
            i = i + 1;
        }
        proof {
            assert(fs.take(fs.len() as int) =~= fs);
        }
        self.artefacts_sizes = Some(acc);
    }

    /// The cached artefact total, computing it first when no run has
    /// cached it yet.
    pub fn get_or_compute_artefact_sizes(&mut self) -> (r: u64)
        ensures
            final(self).path == old(self).path,
            final(self).files == old(self).files,
            final(self).artefacts_sizes == Some(r),
            match old(self).artefacts_sizes {
                Some(v) => r == v,
                None => r == artefact_sum_sat(old(self).files@),
            },
    {
        match self.artefacts_sizes {
            Some(v) => v,
            None => {
                proof {
                    lemma_artefact_sum_nonneg(self.files@);
                }
                self.compute_artefacts_sizes();
                match self.artefacts_sizes {
                    Some(v) => v,
                    None => vstd::pervasive::unreached(),
                }
            },
        }
    }

    /// How many of the project's files carry the given kind.
    pub fn count_kind(&self, k: FileKind) -> (n: usize)
        ensures
            n == spec_count_kind(self.files@, k),
    {
        let ghost fs = self.files@;
        let mut n: usize = 0;
        let mut i: usize = 0;
        while i < self.files.len()
            invariant
                i <= fs.len(),
                fs == self.files@,
                n == spec_count_kind(fs.take(i as int), k),
                n <= i,
            decreases fs.len() - i,
        {
            proof {
                assert(fs.take(i + 1).drop_last() =~= fs.take(i as int));
                assert(fs.take(i + 1).last() == fs[i as int]);
            }
            if self.files[i].kind == k {
                n = n + 1;
            }
            i = i + 1;
        }
        proof {
            assert(fs.take(fs.len() as int) =~= fs);
        }
        n
    }

    /// The names of the project's artefact files: what the cleaner offers
    /// for deletion.
    pub fn artefact_files(&self) -> (r: Vec<String>)
        ensures
            r.deep_view() == artefact_names(self.files@),
    {
        let ghost fs = self.files@;
        let mut r: Vec<String> = Vec::new();
        let mut i: usize = 0;
        proof {
            reveal(Seq::filter);
            assert(artefacts_of(fs.take(0)) =~= Seq::<ProjectFile>::empty());
            assert(r.deep_view() =~= artefact_names(fs.take(0)));
        }
        while i < self.files.len()
            invariant
                i <= fs.len(),
                fs == self.files@,
                r.deep_view() == artefact_names(fs.take(i as int)),
            decreases fs.len() - i,
        {
            proof {
                assert(fs.take(i + 1).drop_last() =~= fs.take(i as int));
                assert(fs.take(i + 1) =~= fs.take(i as int).push(fs[i as int]));
                lemma_artefacts_push(fs.take(i as int), fs[i as int]);
            }
            let f = &self.files[i];
            let keep = match f.kind {
                FileKind::Temporary => true,
                FileKind::OtherElf => true,
                _ => false,
            };
            if keep {
                let ghost rd = r.deep_view();
                r.push(f.name.clone());
                proof {
                    assert(r.deep_view() =~= rd.push(f.name@));
                    assert(rd.push(f.name@) =~= artefact_names(fs.take(i + 1)));
                }
            }
            i = i + 1;
        }
        proof {
            assert(fs.take(fs.len() as int) =~= fs);
        }
        r
    }
}

} // verus!
