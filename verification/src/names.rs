//! File-name matching helpers shared by the classifiers: equality and
//! suffix tests on the UTF-8 bytes of names.

use vstd::prelude::*;

verus! {

use vstd::string::StringSliceAdditionalSpecFns;

/// `sfx` is a suffix of `s`.
pub open spec fn suffix_of(sfx: Seq<u8>, s: Seq<u8>) -> bool {
    sfx.len() <= s.len() && s.skip(s.len() - sfx.len()) == sfx
}

/// `s` ends in `sfx` and has at least one byte before it: the shape of a
/// file name with a non-empty stem and a fixed dotted extension.
pub open spec fn has_stem_and_suffix(s: Seq<u8>, sfx: Seq<u8>) -> bool {
    s.len() > sfx.len() && suffix_of(sfx, s)
}

/// Compare two byte slices.
pub fn bytes_eq(a: &[u8], b: &[u8]) -> (r: bool)
    ensures
        r == (a@ == b@),
{
    let alen: usize = a.len();
    if alen != b.len() {
        assert(a@.len() != b@.len());
        return false;
    }
    let mut i: usize = 0;
    while i < alen
        invariant
            i <= alen,
            alen == a@.len(),
            alen == b@.len(),
            forall|j: int| 0 <= j < i ==> a@[j] == b@[j],
        decreases alen - i,
    {
        if a[i] != b[i] {
            return false;
        }
        i = i + 1;
    }
    assert(a@ =~= b@);
    true
}

/// Compare two string slices by their UTF-8 bytes.
pub fn str_eq(a: &str, b: &str) -> (r: bool)
    ensures
        r == (a.spec_bytes() == b.spec_bytes()),
{
    bytes_eq(a.as_bytes(), b.as_bytes())
}

/// Does `name` end in `suffix`, with at least one byte of stem before it?
pub fn name_has_suffix(name: &str, suffix: &str) -> (r: bool)
    ensures
        r == has_stem_and_suffix(name.spec_bytes(), suffix.spec_bytes()),
{
    let nb = name.as_bytes();
    let sb = suffix.as_bytes();
    let nlen: usize = nb.len();
    let slen: usize = sb.len();
    if nlen <= slen {
        return false;
    }
    let mut i: usize = 0;
    while i < slen
        invariant
            i <= slen,
            slen < nlen,
            nlen == nb@.len(),
            slen == sb@.len(),
            nb@ == name.spec_bytes(),
            sb@ == suffix.spec_bytes(),
            forall|j: int| 0 <= j < i ==> nb@[nlen - slen + j] == sb@[j],
        decreases slen - i,
    {
        if nb[nlen - slen + i] != sb[i] {
            assert(nb@.skip(nlen - slen)[i as int] != sb@[i as int]);
            return false;
        }
        i = i + 1;
    }
    assert forall|j: int| 0 <= j < slen implies #[trigger] nb@.skip(nlen - slen)[j] == sb@[j] by {
        assert(nb@[nlen - slen + j] == sb@[j]);
    }
    assert(nb@.skip(nlen - slen) =~= sb@);
    true
}

} // verus!
