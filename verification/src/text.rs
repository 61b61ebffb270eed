//! Comparison of string slices.

use vstd::prelude::*;

verus! {

/// Whether two string slices hold the same text.
///
/// This calls `==` of `str`, the standard library's `PartialEq` for string
/// slices. It is taken on trust that the operator returns `true` exactly
/// when the two slices are the same sequence of characters.
#[verifier::external_body]
pub(crate) fn same_text(a: &str, b: &str) -> (same: bool)
    ensures
        same == (a@ == b@),
{
    a == b
}

} // verus!
