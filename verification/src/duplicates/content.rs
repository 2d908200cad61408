//! Lockstep chunked comparison of file contents.
//!
//! A candidate file is described by what opening and reading it yields: either
//! opening failed, or reading produced a run of bytes followed by a clean end
//! of file or by a read error.  The comparison walks two such sources in
//! chunks of `CHUNK_SIZE` bytes, exactly as the grouping pass reads files,
//! and decides whether the two contents match.

use vstd::prelude::*;

verus! {

/// Number of bytes read per round of the lockstep comparison.
pub const CHUNK_SIZE: usize = 2048;

/// What reading one file yields: the bytes obtained, in order, and whether
/// the end of the file was reached cleanly (`complete`) or a read failed
/// right after `bytes` (`!complete`).
pub struct SourceBytes {
    pub bytes: Vec<u8>,
    pub complete: bool,
}

/// A candidate of one size bucket: its path and what opening it yields.
/// `source == None` means the file could not be opened.
pub struct CandidateFile {
    pub path: String,
    pub source: Option<SourceBytes>,
}

/// Mathematical model of `SourceBytes`.
pub ghost struct DataModel {
    pub bytes: Seq<u8>,
    pub complete: bool,
}

/// Mathematical model of `CandidateFile`.
pub ghost struct FileModel {
    pub path: Seq<char>,
    pub source: Option<DataModel>,
}

impl View for SourceBytes {
    type V = DataModel;

    open spec fn view(&self) -> DataModel {
        DataModel { bytes: self.bytes@, complete: self.complete }
    }
}

impl DeepView for SourceBytes {
    type V = DataModel;

    open spec fn deep_view(&self) -> DataModel {
        self@
    }
}

impl View for CandidateFile {
    type V = FileModel;

    open spec fn view(&self) -> FileModel {
        FileModel {
            path: self.path@,
            source: match self.source {
                Some(s) => Some(s@),
                None => None,
            },
        }
    }
}

impl DeepView for CandidateFile {
    type V = FileModel;

    open spec fn deep_view(&self) -> FileModel {
        self@
    }
}

/// A read at `pos` succeeds if there are bytes left before the failure point,
/// or the source reaches its end cleanly.
pub open spec fn read_ok(d: DataModel, pos: int) -> bool {
    pos < d.bytes.len() || d.complete
}

/// How many bytes a successful read at `pos` returns: a full chunk, or
/// whatever remains before the end of the source.
pub open spec fn read_len(d: DataModel, pos: int) -> int {
    if d.bytes.len() - pos >= CHUNK_SIZE {
        CHUNK_SIZE as int
    } else if d.bytes.len() - pos >= 0 {
        d.bytes.len() - pos
    } else {
        0
    }
}

/// The bytes a successful read at `pos` returns.
pub open spec fn read_chunk(d: DataModel, pos: int) -> Seq<u8> {
    d.bytes.subrange(pos, pos + read_len(d, pos))
}

/// Outcome of comparing a pivot `p` against a candidate `c` in lockstep,
/// chunk by chunk, starting at offset `pos`: `true` exactly when both reach a
/// clean end of file simultaneously with every chunk equal along the way.
/// A failed read on either side, a length difference, or a byte difference
/// makes the candidate a non-match.
pub open spec fn lockstep_match_from(p: DataModel, c: DataModel, pos: int) -> bool
    recommends
        0 <= pos,
    decreases p.bytes.len() - pos,
{
    if !read_ok(p, pos) || !read_ok(c, pos) {
        false
    } else {
        let n1 = read_len(p, pos);
        let n2 = read_len(c, pos);
        if n1 == 0 && n2 == 0 {
            true
        } else if n1 != n2 {
            false
        } else if read_chunk(p, pos) != read_chunk(c, pos) {
            false
        } else {
            lockstep_match_from(p, c, pos + n1)
        }
    }
}

/// Two sources match when the lockstep comparison of their full contents does.
pub open spec fn data_matches(p: DataModel, c: DataModel) -> bool {
    lockstep_match_from(p, c, 0)
}

/// The lockstep comparison from offset `pos` succeeds exactly when both
/// sources are complete and agree on everything from `pos` on.
pub proof fn lemma_lockstep_iff_suffix_eq(p: DataModel, c: DataModel, pos: int)
    requires
        0 <= pos <= p.bytes.len(),
        pos <= c.bytes.len(),
    ensures
        lockstep_match_from(p, c, pos) <==> (p.complete && c.complete && p.bytes.skip(pos)
            == c.bytes.skip(pos)),
    decreases p.bytes.len() - pos,
{
    let n1 = read_len(p, pos);
    let n2 = read_len(c, pos);
    if !read_ok(p, pos) || !read_ok(c, pos) {
        assert(!(p.complete && c.complete));
    } else if n1 == 0 && n2 == 0 {
        assert(p.bytes.skip(pos) =~= c.bytes.skip(pos));
    } else if n1 != n2 {
        if p.bytes.skip(pos) == c.bytes.skip(pos) {
            assert(p.bytes.skip(pos).len() == c.bytes.skip(pos).len());
            assert(false);
        }
    } else if read_chunk(p, pos) != read_chunk(c, pos) {
        if p.bytes.skip(pos) == c.bytes.skip(pos) {
            assert(read_chunk(p, pos) =~= read_chunk(c, pos)) by {
                assert(forall|i: int|
                    0 <= i < n1 ==> p.bytes.skip(pos)[i] == c.bytes.skip(pos)[i]);
            }
            assert(false);
        }
    } else {
        lemma_lockstep_iff_suffix_eq(p, c, pos + n1);
        assert(read_chunk(p, pos) == read_chunk(c, pos));
        if p.bytes.skip(pos + n1) == c.bytes.skip(pos + n1) {
            assert(p.bytes.skip(pos + n1).len() == p.bytes.len() - pos - n1);
            assert(c.bytes.skip(pos + n1).len() == c.bytes.len() - pos - n1);
            assert(p.bytes.len() == c.bytes.len());
            assert forall|i: int|
                0 <= i < p.bytes.len() - pos implies #[trigger] p.bytes.skip(pos)[i]
                == c.bytes.skip(pos)[i] by {
                if i < n1 {
                    assert(read_chunk(p, pos)[i] == p.bytes[pos + i]);
                    assert(read_chunk(c, pos)[i] == c.bytes[pos + i]);
                } else {
                    assert(p.bytes.skip(pos + n1)[i - n1] == c.bytes.skip(pos + n1)[i - n1]);
                    assert(p.bytes.skip(pos + n1)[i - n1] == p.bytes[pos + i]);
                    assert(c.bytes.skip(pos + n1)[i - n1] == c.bytes[pos + i]);
                }
                assert(p.bytes.skip(pos)[i] == p.bytes[pos + i]);
                assert(c.bytes.skip(pos)[i] == c.bytes[pos + i]);
            }
            assert(p.bytes.skip(pos) =~= c.bytes.skip(pos));
        }
        if p.bytes.skip(pos) == c.bytes.skip(pos) {
            assert(p.bytes.len() == c.bytes.len());
            assert forall|i: int|
                0 <= i < p.bytes.len() - pos - n1 implies #[trigger] p.bytes.skip(pos + n1)[i]
                == c.bytes.skip(pos + n1)[i] by {
                assert(p.bytes.skip(pos)[i + n1] == c.bytes.skip(pos)[i + n1]);
                assert(p.bytes.skip(pos + n1)[i] == p.bytes[pos + n1 + i]);
                assert(c.bytes.skip(pos + n1)[i] == c.bytes[pos + n1 + i]);
                assert(p.bytes.skip(pos)[i + n1] == p.bytes[pos + n1 + i]);
                assert(c.bytes.skip(pos)[i + n1] == c.bytes[pos + n1 + i]);
            }
            assert(p.bytes.skip(pos + n1) =~= c.bytes.skip(pos + n1));
        }
    }
}

/// Two contents match exactly when both were read completely and hold the
/// same bytes.
pub proof fn lemma_match_iff_bytes_eq(p: DataModel, c: DataModel)
    ensures
        data_matches(p, c) <==> (p.complete && c.complete && p.bytes == c.bytes),
{
    lemma_lockstep_iff_suffix_eq(p, c, 0);
    assert(p.bytes.skip(0) =~= p.bytes);
    assert(c.bytes.skip(0) =~= c.bytes);
}

/// Compare `n` bytes of `p` and `c` starting at `pos`.
fn range_eq(p: &Vec<u8>, c: &Vec<u8>, pos: usize, n: usize) -> (r: bool)
    requires
        pos + n <= p@.len(),
        pos + n <= c@.len(),
    ensures
        r == (p@.subrange(pos as int, pos + n) == c@.subrange(pos as int, pos + n)),
{
    let plen: usize = p.len();
    let clen: usize = c.len();
    let mut i: usize = 0;
    while i < n
        invariant
            0 <= i <= n,
            pos + n <= plen,
            pos + n <= clen,
            plen == p@.len(),
            clen == c@.len(),
            forall|j: int| 0 <= j < i ==> #[trigger] p@[pos + j] == c@[pos + j],
        decreases n - i,
    {
        if p[pos + i] != c[pos + i] {
            assert(p@.subrange(pos as int, pos + n)[i as int] != c@.subrange(
                pos as int,
                pos + n,
            )[i as int]);
            return false;
        }
        i = i + 1;
    }
    assert forall|k: int|
        0 <= k < n implies #[trigger] p@.subrange(pos as int, pos + n)[k] == c@.subrange(
        pos as int,
        pos + n,
    )[k] by {
        assert(p@[pos + k] == c@[pos + k]);
    }
    assert(p@.subrange(pos as int, pos + n) =~= c@.subrange(pos as int, pos + n));
    true
}

/// Run the lockstep chunked comparison on two in-memory sources.
pub fn content_matches(p: &SourceBytes, c: &SourceBytes) -> (r: bool)
    ensures
        r == data_matches(p@, c@),
{
    let mut pos: usize = 0;
    loop
        invariant
            pos <= p.bytes.len(),
            pos <= c.bytes.len(),
            data_matches(p@, c@) == lockstep_match_from(p@, c@, pos as int),
        decreases p@.bytes.len() - pos,
    {
        if pos == p.bytes.len() && !p.complete {
            return false;
        }
        if pos == c.bytes.len() && !c.complete {
            return false;
        }
        let n1: usize = if p.bytes.len() - pos >= CHUNK_SIZE {
            CHUNK_SIZE
        } else {
            p.bytes.len() - pos
        };
        let n2: usize = if c.bytes.len() - pos >= CHUNK_SIZE {
            CHUNK_SIZE
        } else {
            c.bytes.len() - pos
        };
        assert(n1 == read_len(p@, pos as int));
        assert(n2 == read_len(c@, pos as int));
        if n1 == 0 && n2 == 0 {
            return true;
        }
        if n1 != n2 {
            return false;
        }
        if !range_eq(&p.bytes, &c.bytes, pos, n1) {
            assert(read_chunk(p@, pos as int) != read_chunk(c@, pos as int));
            return false;
        }
        assert(read_chunk(p@, pos as int) == read_chunk(c@, pos as int));
        pos = pos + n1;
    }
}

} // verus!
