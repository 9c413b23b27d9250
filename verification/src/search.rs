//! Byte searches.
use crate::seqs::{occurs, occurs_at};
use vstd::prelude::*;

verus! {

/// `memchr::memchr` returns the index of the first `needle` in `haystack`, if there is one.
pub assume_specification[ memchr::memchr ](needle: u8, haystack: &[u8]) -> (found: Option<usize>)
    ensures
        match found {
            Some(at) => at < haystack@.len() && haystack@[at as int] == needle && forall|j: int|
                0 <= j < at ==> #[trigger] haystack@[j] != needle,
            None => forall|j: int| 0 <= j < haystack@.len() ==> #[trigger] haystack@[j] != needle,
        },
;

/// `memchr::memmem::find` returns the index of the first occurrence of `needle` in
/// `haystack`, if there is one.
pub assume_specification[ memchr::memmem::find ](haystack: &[u8], needle: &[u8]) -> (found: Option<
    usize,
>)
    ensures
        match found {
            Some(at) => occurs_at(haystack@, needle@, at as int) && forall|j: int|
                0 <= j < at ==> !#[trigger] occurs_at(haystack@, needle@, j),
            None => !occurs(haystack@, needle@),
        },
;

/// Whether two byte strings are the same.
pub fn same_bytes(left: &[u8], right: &[u8]) -> (same: bool)
    ensures
        same == (left@ == right@),
{
    if left.len() != right.len() {
        return false;
    }
    for i in 0..left.len()
        invariant
            left@.len() == right@.len(),
            forall|j: int| 0 <= j < i ==> left@[j] == right@[j],
    {
        if left[i] != right[i] {
            return false;
        }
    }
    assert(left@ =~= right@);
    true
}

} // verus!
