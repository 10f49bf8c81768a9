//! Searching one run of bytes in another.

use vstd::prelude::*;

verus! {

/// `needle` stands in `hay` at index `i`.
pub open spec fn occurs_at(hay: Seq<u8>, needle: Seq<u8>, i: int) -> bool {
    0 <= i && i + needle.len() <= hay.len() && hay.subrange(i, i + needle.len()) == needle
}

/// What a forward search for `needle` in `hay` answers: the least index at
/// which it stands, if there is one.
pub open spec fn first_occurrence(hay: Seq<u8>, needle: Seq<u8>, found: Option<usize>) -> bool {
    match found {
        Some(i) => occurs_at(hay, needle, i as int) && forall|j: int|
            0 <= j < i ==> !occurs_at(hay, needle, j),
        None => forall|j: int| !occurs_at(hay, needle, j),
    }
}

/// `memchr::memmem::find`: the index of the first occurrence of `needle` in
/// `hay`, or `None` where it does not occur. Trusted, not proved.
#[verifier::external_body]
pub(crate) fn find_first(hay: &[u8], needle: &[u8]) -> (found: Option<usize>)
    ensures
        first_occurrence(hay@, needle@, found),
{
    memchr::memmem::find(hay, needle)
}

/// Whether `needle` stands in `hay` at index `i`.
fn matches_at(hay: &[u8], needle: &[u8], i: usize) -> (hit: bool)
    ensures
        hit == occurs_at(hay@, needle@, i as int),
{
    let n: usize = needle.len();
    if hay.len() < n || i > hay.len() - n {
        return false;
    }
    let mut k: usize = 0;
    while k < n
        invariant
            n == needle@.len(),
            i + n <= hay@.len() <= usize::MAX,
            k <= n,
            forall|j: int| 0 <= j < k ==> hay@[i + j] == needle@[j],
        decreases n - k,
    {
        if hay[i + k] != needle[k] {
            return false;
        }
        k += 1;
    }
    assert(hay@.subrange(i as int, i + n) =~= needle@);
    true
}

/// The least index at which `needle` stands in `hay`, found by trying every
/// index in turn. An empty needle stands at the front.
pub fn _find_subsequence(hay: &[u8], needle: &[u8]) -> (found: Option<usize>)
    ensures
        first_occurrence(hay@, needle@, found),
{
    let n: usize = needle.len();
    if n == 0 {
        assert(hay@.subrange(0, 0) =~= needle@);
        return Some(0);
    }
    if hay.len() < n {
        return None;
    }
    let last: usize = hay.len() - n;
    let mut i: usize = 0;
    while i <= last
        invariant
            n == needle@.len(),
            n > 0,
            last + n == hay@.len(),
            hay@.len() <= usize::MAX,
            i <= last + 1,
            forall|j: int| 0 <= j < i ==> !occurs_at(hay@, needle@, j),
        decreases last + 1 - i,
    {
        if matches_at(hay, needle, i) {
            return Some(i);
        }
        i += 1;
    }
    None
}

} // verus!
