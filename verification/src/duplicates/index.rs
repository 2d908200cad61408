//! The size bucket index: group incoming `(path, size)` records by exact
//! byte size and keep the sizes holding at least two files.  A file whose
//! size is unique cannot have a duplicate, so it is eliminated here, before
//! any content is read.
//!
//! The index is held in a `multimap::MultiMap` keyed by size; the multimap
//! itself is outside code, so its contents are named by an uninterpreted
//! function and each method used gets a trusted wrapper.

use vstd::prelude::*;

use multimap::MultiMap;

verus! {

/// Declares multimap's `MultiMap`, a hash map from keys to vectors of
/// values, so that it can stand in signatures; its contents are named by
/// `mm_contents` below.
#[verifier::external_type_specification]
#[verifier::external_body]
#[verifier::reject_recursive_types(K)]
#[verifier::reject_recursive_types(V)]
#[verifier::reject_recursive_types(S)]
pub struct ExMultiMap<K, V, S>(MultiMap<K, V, S>);

/// A multimap from byte sizes to the paths of the files having them.
pub type PathsBySize = MultiMap<u64, String>;

/// What a size-to-paths multimap holds: for each size of its domain, the
/// paths inserted under that size, in insertion order.
pub uninterp spec fn mm_contents(m: PathsBySize) -> Map<u64, Seq<Seq<char>>>;

/// Relies on multimap::MultiMap::new: the new multimap is empty.
#[verifier::external_body]
fn mm_new() -> (res: PathsBySize)
    ensures
        mm_contents(res).dom() == Set::<u64>::empty(),
{
    MultiMap::new()
}

/// Relies on multimap::MultiMap::insert: the value is pushed onto the vector
/// held under the key; a fresh one-element vector is created when the key is
/// new.
#[verifier::external_body]
fn mm_insert(m: &mut PathsBySize, size: u64, path: String)
    ensures
        mm_contents(*final(m)) == mm_contents(*old(m)).insert(
            size,
            if mm_contents(*old(m)).dom().contains(size) {
                mm_contents(*old(m))[size].push(path@)
            } else {
                seq![path@]
            },
        ),
{
    m.insert(size, path);
}

/// Relies on multimap::MultiMap::iter_all: every key of the multimap is
/// visited exactly once, in arbitrary order, together with the vector of
/// values held under it.
#[verifier::external_body]
fn mm_entries(m: &PathsBySize) -> (r: Vec<(u64, Vec<String>)>)
    ensures
        forall|i: int|
            0 <= i < r@.len() ==> mm_contents(*m).dom().contains((#[trigger] r@[i]).0),
        forall|i: int|
            0 <= i < r@.len() ==> (#[trigger] r@[i]).1.deep_view() == mm_contents(*m)[r@[i].0],
        forall|k: u64|
            #[trigger] mm_contents(*m).dom().contains(k) ==> exists|i: int|
                0 <= i < r@.len() && (#[trigger] r@[i]).0 == k,
        forall|i: int, j: int| 0 <= i < j < r@.len() ==> r@[i].0 != r@[j].0,
{
    m.iter_all().map(|(k, v)| (*k, v.clone())).collect()
}

/// One record of the traversal feed: a file's path and its size in bytes.
pub struct FileRecord {
    pub path: String,
    pub size: u64,
}

/// Mathematical model of `FileRecord`.
pub ghost struct RecordModel {
    pub path: Seq<char>,
    pub size: u64,
}

impl View for FileRecord {
    type V = RecordModel;

    open spec fn view(&self) -> RecordModel {
        RecordModel { path: self.path@, size: self.size }
    }
}

impl DeepView for FileRecord {
    type V = RecordModel;

    open spec fn deep_view(&self) -> RecordModel {
        self@
    }
}

/// The mapping from each size to the paths of the records carrying it, in
/// record order.
pub open spec fn size_index(records: Seq<RecordModel>) -> Map<u64, Seq<Seq<char>>>
    decreases records.len(),
{
    if records.len() == 0 {
        Map::empty()
    } else {
        let prev = size_index(records.drop_last());
        let r = records.last();
        prev.insert(
            r.size,
            if prev.dom().contains(r.size) {
                prev[r.size].push(r.path)
            } else {
                seq![r.path]
            },
        )
    }
}

/// Build the size index of a record stream: every record lands in the
/// bucket of its exact size.
pub fn map_path_by_filesize(records: Vec<FileRecord>) -> (m: PathsBySize)
    ensures
        mm_contents(m) == size_index(records.deep_view()),
{
    let ghost rs = records.deep_view();
    let mut input = records;
    let mut m = mm_new();
    let ghost mut done: Seq<RecordModel> = Seq::empty();
    proof {
        assert(size_index(done) =~= Map::<u64, Seq<Seq<char>>>::empty());
        assert(mm_contents(m) =~= Map::<u64, Seq<Seq<char>>>::empty());
    }
    while input.len() > 0
        invariant
            rs == done + input.deep_view(),
            mm_contents(m) == size_index(done),
        decreases input.len(),
    {
        let ghost in0 = input.deep_view();
        let r = input.remove(0);
        proof {
            assert(r@ == in0[0]);
            assert(input.deep_view() =~= in0.skip(1));
            assert(done.push(r@) + input.deep_view() =~= done + in0);
        }
        let ghost rm = r@;
        mm_insert(&mut m, r.size, r.path);
        proof {
            let d0 = done;
            done = done.push(rm);
            assert(done.drop_last() =~= d0);
            assert(done.last() == rm);
        }
    }
    proof {
        assert(input.deep_view() =~= Seq::<RecordModel>::empty());
        assert(done =~= rs);
    }
    m
}

/// Every path in a size's bucket comes from a record of exactly that size.
pub proof fn lemma_size_index_members(records: Seq<RecordModel>, s: u64, k: int)
    requires
        size_index(records).dom().contains(s),
        0 <= k < size_index(records)[s].len(),
    ensures
        exists|i: int|
            0 <= i < records.len() && (#[trigger] records[i]).path == size_index(records)[s][k]
                && records[i].size == s,
    decreases records.len(),
{
    if records.len() == 0 {
    } else {
        let dl = records.drop_last();
        let prev = size_index(dl);
        let r = records.last();
        let cur = size_index(records);
        assert(forall|i: int| 0 <= i < dl.len() ==> #[trigger] dl[i] == records[i]);
        if r.size == s {
            if prev.dom().contains(s) && k < prev[s].len() {
                lemma_size_index_members(dl, s, k);
                let i = choose|i: int|
                    0 <= i < dl.len() && (#[trigger] dl[i]).path == prev[s][k] && dl[i].size == s;
                assert(records[i].path == cur[s][k] && records[i].size == s);
            } else {
                assert(cur[s][k] == r.path);
                assert(records[records.len() - 1].path == cur[s][k]);
            }
        } else {
            assert(cur[s] == prev[s]);
            lemma_size_index_members(dl, s, k);
            let i = choose|i: int|
                0 <= i < dl.len() && (#[trigger] dl[i]).path == prev[s][k] && dl[i].size == s;
            assert(records[i].path == cur[s][k] && records[i].size == s);
        }
    }
}

/// Every record's path stands in the bucket of its size.
pub proof fn lemma_size_index_covers(records: Seq<RecordModel>, i: int)
    requires
        0 <= i < records.len(),
    ensures
        size_index(records).dom().contains(records[i].size),
        size_index(records)[records[i].size].contains(records[i].path),
    decreases records.len(),
{
    let dl = records.drop_last();
    let prev = size_index(dl);
    let r = records.last();
    let cur = size_index(records);
    if i == records.len() - 1 {
        if prev.dom().contains(r.size) {
            assert(cur[r.size] == prev[r.size].push(r.path));
            assert(cur[r.size][cur[r.size].len() - 1] == r.path);
        } else {
            assert(cur[r.size] == seq![r.path]);
            assert(cur[r.size][0] == r.path);
        }
    } else {
        assert(dl[i] == records[i]);
        lemma_size_index_covers(dl, i);
        let sz = records[i].size;
        if sz == r.size {
            if prev.dom().contains(r.size) {
                assert(cur[sz] == prev[sz].push(r.path));
                let k = choose|k: int| 0 <= k < prev[sz].len() && prev[sz][k] == records[i].path;
                assert(cur[sz][k] == records[i].path);
            }
        } else {
            assert(cur[sz] == prev[sz]);
        }
    }
}

/// One retained size bucket: a size and the paths of the files having it.
pub struct SizeBucket {
    pub size: u64,
    pub paths: Vec<String>,
}

/// Mathematical model of `SizeBucket`.
pub ghost struct BucketModel {
    pub size: u64,
    pub paths: Seq<Seq<char>>,
}

impl View for SizeBucket {
    type V = BucketModel;

    open spec fn view(&self) -> BucketModel {
        BucketModel { size: self.size, paths: self.paths.deep_view() }
    }
}

impl DeepView for SizeBucket {
    type V = BucketModel;

    open spec fn deep_view(&self) -> BucketModel {
        self@
    }
}

/// Keep the sizes holding at least two files: every returned bucket is an
/// entry of the index with two or more paths, every such entry is returned,
/// and no size appears twice.  The bucket order is arbitrary.
pub fn get_sizes_with_multiple_files(m: &PathsBySize) -> (b: Vec<SizeBucket>)
    ensures
        forall|i: int|
            0 <= i < b.deep_view().len() ==> {
                &&& mm_contents(*m).dom().contains((#[trigger] b.deep_view()[i]).size)
                &&& b.deep_view()[i].paths == mm_contents(*m)[b.deep_view()[i].size]
                &&& b.deep_view()[i].paths.len() >= 2
            },
        forall|k: u64|
            #[trigger] mm_contents(*m).dom().contains(k) && mm_contents(*m)[k].len() >= 2
                ==> exists|i: int|
                0 <= i < b.deep_view().len() && (#[trigger] b.deep_view()[i]).size == k,
        forall|i: int, j: int|
            0 <= i < j < b.deep_view().len() ==> b.deep_view()[i].size != b.deep_view()[j].size,
{
    let entries = mm_entries(m);
    let ghost es = entries@;
    let mut out: Vec<SizeBucket> = Vec::new();
    let mut idx: usize = 0;
    while idx < entries.len()
        invariant
            es == entries@,
            idx <= es.len(),
            forall|i: int|
                0 <= i < es.len() ==> mm_contents(*m).dom().contains((#[trigger] es[i]).0),
            forall|i: int|
                0 <= i < es.len() ==> (#[trigger] es[i]).1.deep_view() == mm_contents(*m)[es[i].0],
            forall|i: int, j: int| 0 <= i < j < es.len() ==> es[i].0 != es[j].0,
            forall|i: int|
                0 <= i < out.deep_view().len() ==> {
                    &&& mm_contents(*m).dom().contains((#[trigger] out.deep_view()[i]).size)
                    &&& out.deep_view()[i].paths == mm_contents(*m)[out.deep_view()[i].size]
                    &&& out.deep_view()[i].paths.len() >= 2
                },
            forall|j: int|
                0 <= j < idx && (#[trigger] es[j]).1.deep_view().len() >= 2 ==> exists|i: int|
                    0 <= i < out.deep_view().len() && (#[trigger] out.deep_view()[i]).size
                        == es[j].0,
            forall|i: int|
                0 <= i < out.deep_view().len() ==> exists|j: int|
                    0 <= j < idx && (#[trigger] out.deep_view()[i]).size == es[j].0,
            forall|i: int, j: int|
                0 <= i < j < out.deep_view().len() ==> out.deep_view()[i].size
                    != out.deep_view()[j].size,
        decreases entries.len() - idx,
    {
        let entry = &entries[idx];
        if entry.1.len() >= 2 {
            let ghost oo = out.deep_view();
            let bucket = SizeBucket { size: entry.0, paths: clone_paths(&entry.1) };
            let ghost bv = bucket@;
            out.push(bucket);
            proof {
                assert(out.deep_view() =~= oo.push(bv));
                assert(forall|i: int|
                    0 <= i < oo.len() ==> #[trigger] out.deep_view()[i] == oo[i]);
                assert(out.deep_view()[oo.len() as int] == bv);
                assert(bv.size == es[idx as int].0);
                assert(bv.paths == es[idx as int].1.deep_view());
                assert(mm_contents(*m).dom().contains(bv.size));
                assert(bv.paths == mm_contents(*m)[bv.size]);
                assert(bv.paths.len() >= 2);
                assert forall|i: int, j: int|
                    0 <= i < j < out.deep_view().len() implies out.deep_view()[i].size
                    != out.deep_view()[j].size by {
                    if j == oo.len() {
                        assert(oo[i] == out.deep_view()[i]);
                        let jj = choose|jj: int| 0 <= jj < idx && oo[i].size == es[jj].0;
                        assert(es[jj].0 != es[idx as int].0);
                    }
                }
                assert forall|j: int|
                    0 <= j < idx + 1 && (#[trigger] es[j]).1.deep_view().len() >= 2
                    implies exists|i: int|
                    0 <= i < out.deep_view().len() && (#[trigger] out.deep_view()[i]).size
                        == es[j].0 by {
                    if j == idx {
                        assert(out.deep_view()[oo.len() as int].size == es[j].0);
                    } else {
                        let i0 = choose|i0: int|
                            0 <= i0 < oo.len() && (#[trigger] oo[i0]).size == es[j].0;
                        assert(out.deep_view()[i0].size == es[j].0);
                    }
                }
                assert forall|i: int| 0 <= i < out.deep_view().len() implies exists|j: int|
                    0 <= j < idx + 1 && (#[trigger] out.deep_view()[i]).size == es[j].0 by {
                    if i == oo.len() {
                        assert(out.deep_view()[i].size == es[idx as int].0);
                    } else {
                        let j0 = choose|j0: int| 0 <= j0 < idx && oo[i].size == es[j0].0;
                        assert(out.deep_view()[i].size == es[j0].0);
                    }
                }
            }
        } else {
            proof {
                assert(es[idx as int].1.deep_view().len() < 2);
            }
        }
        idx = idx + 1;
    }
    proof {
        assert forall|k: u64|
            #[trigger] mm_contents(*m).dom().contains(k) && mm_contents(*m)[k].len() >= 2
                implies exists|i: int|
            0 <= i < out.deep_view().len() && (#[trigger] out.deep_view()[i]).size == k by {
            let j = choose|j: int| 0 <= j < es.len() && (#[trigger] es[j]).0 == k;
            assert(es[j].1.deep_view() == mm_contents(*m)[k]);
            assert(es[j].1.deep_view().len() >= 2);
        }
    }
    out
}

/// Copy a vector of paths.
fn clone_paths(v: &Vec<String>) -> (r: Vec<String>)
    ensures
        r.deep_view() == v.deep_view(),
{
    let mut r: Vec<String> = Vec::new();
    let mut i: usize = 0;
    while i < v.len()
        invariant
            i <= v@.len(),
            r.deep_view() == v.deep_view().take(i as int),
        decreases v@.len() - i,
    {
        let ghost rr = r.deep_view();
        let s: &String = &v[i];
        r.push(s.clone());
        proof {
            assert(r.deep_view() =~= rr.push(s@));
            assert(rr.push(s@) =~= v.deep_view().take(i + 1));
        }
        i = i + 1;
    }
    proof {
        assert(v.deep_view().take(v.deep_view().len() as int) =~= v.deep_view());
    }
    r
}

} // verus!
