//! Putting the suffixes of a text in order.

use vstd::prelude::*;
use crate::non_concurrent::lexicographic::{lex_lt, tail};
use crate::non_concurrent::suffix_order::compare_tails;

verus! {

/// Whether of the suffixes of `text` that start at the places of `order` none
/// stands behind one that follows it.
pub open spec fn in_order(text: Seq<u8>, order: Seq<usize>) -> bool {
    forall|i: int, j: int|
        0 <= i < j < order.len() ==> !lex_lt(
            #[trigger] tail(text, order[j]),
            #[trigger] tail(text, order[i]),
        )
}

/// Puts the places in `suffixes` in the order of the suffixes of `text` that
/// start there, with `sort_by` of std's slices, which neither adds a place
/// nor drops one, and leaves none behind one that it compares as greater.
#[verifier::external_body]
pub(crate) fn sort_suffixes(text: &[u8], suffixes: &mut Vec<usize>)
    requires
        forall|i: int| 0 <= i < old(suffixes).len() ==> old(suffixes)[i] <= text.len(),
    ensures
        final(suffixes)@.to_multiset() == old(suffixes)@.to_multiset(),
        in_order(text@, final(suffixes)@),
{
    suffixes.sort_by(|a, b| compare_tails(text, *a, text, *b));
}

} // verus!
