//! Comparing the tails of byte strings.

use std::cmp::Ordering;
use vstd::prelude::*;
use crate::non_concurrent::lexicographic::{
    lemma_tails_agree_next, lemma_tails_decided, lemma_transitive, lex_lt, place, tail,
    tails_agree,
};

verus! {

/// The order of the tail of `x` from `i` and the tail of `y` from `j`, byte
/// by byte.
pub fn compare_tails(x: &[u8], i: usize, y: &[u8], j: usize) -> (r: Ordering)
    requires
        i <= x.len(),
        j <= y.len(),
    ensures
        match r {
            Ordering::Less => lex_lt(tail(x@, i), tail(y@, j)),
            Ordering::Equal => tail(x@, i) == tail(y@, j),
            Ordering::Greater => lex_lt(tail(y@, j), tail(x@, i)),
        },
{
    let mut k: usize = 0;
    while i + k < x.len() && j + k < y.len() && x[i + k] == y[j + k]
        invariant
            i <= x.len(),
            j <= y.len(),
            i + k <= x.len(),
            j + k <= y.len(),
            tails_agree(x@, i, y@, j, k),
        decreases x.len() - i - k,
    {
        proof {
            lemma_tails_agree_next(x@, i, y@, j, k);
        }
        k = k + 1;
    }
    proof {
        lemma_tails_decided(x@, i, y@, j, k);
    }
    if i + k == x.len() {
        if j + k == y.len() {
            Ordering::Equal
        } else {
            Ordering::Less
        }
    } else if j + k == y.len() {
        Ordering::Greater
    } else if x[i + k] < y[j + k] {
        Ordering::Less
    } else {
        Ordering::Greater
    }
}

/// Whether the suffixes of `text` that start at the places of `order` stand
/// in ascending order, each before the next.
pub open spec fn suffixes_ascend(text: Seq<u8>, order: Seq<usize>) -> bool {
    forall|i: int, j: int|
        0 <= i < j < order.len() ==> lex_lt(
            #[trigger] tail(text, order[i]),
            #[trigger] tail(text, order[j]),
        )
}

/// Whether `value` parts the suffixes at `at`: those before stand before
/// `value`, and those from there on behind it.
pub open spec fn parts_at(text: Seq<u8>, order: Seq<usize>, value: Seq<u8>, at: usize) -> bool {
    &&& at <= order.len()
    &&& forall|k: int| 0 <= k < at ==> lex_lt(#[trigger] tail(text, order[k]), tail(value, 0))
    &&& forall|k: int|
        at <= k < order.len() ==> lex_lt(tail(value, 0), #[trigger] tail(text, order[k]))
}

/// Looks by bisection for the suffix of `text` that is `value`, among the
/// suffixes that start at the places of `order`, which stand in ascending
/// order. Returns the place of that suffix in the order, or, as an error,
/// the place where `value` parts the suffixes.
pub fn search_suffix(text: &[u8], order: &Vec<usize>, value: &[u8]) -> (r: Result<usize, usize>)
    requires
        suffixes_ascend(text@, order@),
        forall|k: int| 0 <= k < order.len() ==> #[trigger] order[k] <= text.len(),
    ensures
        match r {
            Ok(at) => at < order.len() && tail(text@, place(order@, at)) == tail(value@, 0),
            Err(at) => parts_at(text@, order@, value@, at),
        },
{
    let mut lo: usize = 0;
    let mut hi: usize = order.len();
    while lo < hi
        invariant
            0 <= lo <= hi <= order.len(),
            suffixes_ascend(text@, order@),
            forall|k: int| 0 <= k < order.len() ==> #[trigger] order[k] <= text.len(),
            forall|k: int| 0 <= k < lo ==> lex_lt(#[trigger] tail(text@, order[k]), tail(value@, 0)),
            forall|k: int|
                hi <= k < order.len() ==> lex_lt(tail(value@, 0), #[trigger] tail(text@, order[k])),
        decreases hi - lo,
    {
        let mid: usize = lo + (hi - lo) / 2;
        match compare_tails(text, order[mid], value, 0) {
            Ordering::Equal => {
                return Ok(mid);
            },
            Ordering::Less => {
                proof {
                    let ghost m = place(order@, mid);
                    assert forall|k: int| 0 <= k < mid + 1 implies lex_lt(
                        #[trigger] tail(text@, order[k]),
                        tail(value@, 0),
                    ) by {
                        if k < mid {
                            assert(lex_lt(tail(text@, order[k]), tail(text@, m)));
                            lemma_transitive(
                                tail(text@, order[k]),
                                tail(text@, m),
                                tail(value@, 0),
                            );
                        }
                    }
                }
                lo = mid + 1;
            },
            Ordering::Greater => {
                proof {
                    let ghost m = place(order@, mid);
                    assert forall|k: int| mid <= k < order.len() implies lex_lt(
                        tail(value@, 0),
                        #[trigger] tail(text@, order[k]),
                    ) by {
                        if k > mid {
                            assert(lex_lt(tail(text@, m), tail(text@, order[k])));
                            lemma_transitive(
                                tail(value@, 0),
                                tail(text@, m),
                                tail(text@, order[k]),
                            );
                        }
                    }
                }
                hi = mid;
            },
        }
    }
    Err(lo)
}

} // verus!
