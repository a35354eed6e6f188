//! The suffix array of a text: the suffixes of the text in lexicographic
//! order, with the lengths of what neighbours in that order have in common.

use vstd::prelude::*;
use vstd::string::{StrSliceExecFns, StringSliceAdditionalSpecFns};
use crate::non_concurrent::lexicographic::{
    agree, is_prefix, lemma_asymmetric, lemma_before_prefix, lemma_prefix_between,
    lemma_prefix_first, lemma_tails_agree_next, lemma_transitive, lex_lt, tail, tails_agree,
};
use crate::non_concurrent::suffix_order::{parts_at, search_suffix, suffixes_ascend};
use crate::non_concurrent::suffix_sort::{in_order, sort_suffixes};

verus! {

broadcast use vstd::string::is_ascii_spec_bytes;

/// Suffix Array Data Structure
pub struct SuffixArray<'a> {
    text: &'a str,
    /// The places where the suffixes start, in the order of the suffixes.
    suffixes: Vec<usize>,
    /// For each suffix but the last, the number of bytes that it has in
    /// common with the next at their starts.
    lcp_array: Vec<usize>,
}

/// Whether `k` is the number of bytes that `a` and `b` start with in common.
pub open spec fn is_common(a: Seq<u8>, b: Seq<u8>, k: int) -> bool {
    &&& agree(a, b, k)
    &&& (k == a.len() || k == b.len() || a[k] != b[k])
}

/// Whether `order` holds the places of all suffixes of `text` but the empty
/// one.
pub open spec fn all_suffixes(text: Seq<u8>, order: Seq<usize>) -> bool {
    &&& order.len() == text.len()
    &&& forall|i: int| 0 <= i < order.len() ==> #[trigger] order[i] < text.len()
    &&& forall|s: usize| s < text.len() ==> #[trigger] order.contains(s)
}

impl<'a> SuffixArray<'a> {
    /// The bytes of the text.
    pub closed spec fn bytes(&self) -> Seq<u8> {
        self.text.spec_bytes()
    }

    /// The places where the suffixes start, in the order of the suffixes.
    pub closed spec fn order(&self) -> Seq<usize> {
        self.suffixes@
    }

    /// For each suffix but the last in the order, the number of bytes that
    /// it has in common with the next at their starts.
    pub closed spec fn common(&self) -> Seq<usize> {
        self.lcp_array@
    }

    /// The invariant of a suffix array.
    pub closed spec fn wf(&self) -> bool {
        &&& self.text.is_ascii()
        &&& all_suffixes(self.bytes(), self.order())
        &&& suffixes_ascend(self.bytes(), self.order())
        &&& self.common().len() + 1 == self.order().len() || (self.common().len() == 0
            && self.order().len() == 0)
        &&& forall|i: int|
            0 <= i < self.common().len() ==> is_common(
                tail(self.bytes(), self.order()[i]),
                tail(self.bytes(), self.order()[i + 1]),
                #[trigger] self.common()[i] as int,
            )
    }

    /// What the invariant of a suffix array says of its text: the order holds
    /// the places of all suffixes, in ascending order of the suffixes, with
    /// what each has in common with the next.
    pub proof fn lemma_wf(&self)
        requires
            self.wf(),
        ensures
            all_suffixes(self.bytes(), self.order()),
            suffixes_ascend(self.bytes(), self.order()),
            neighbours_common(self.bytes(), self.order(), self.common()),
    {
    }

    /// The suffix array of `string`, which holds no characters but those of
    /// ASCII.
    #[verifier::spinoff_prover]
    pub fn new(string: &'a str) -> (r: Self)
        requires
            string.is_ascii(),
        ensures
            r.wf(),
            r.bytes() == string.spec_bytes(),
    {
        let bytes: &[u8] = string.as_bytes();
        let n: usize = bytes.len();
        let mut suffixes: Vec<usize> = Vec::new();
        let mut i: usize = 0;
        while i < n
            invariant
                0 <= i <= n,
                suffixes.len() == i,
                forall|k: int| 0 <= k < i ==> suffixes@[k] == k,
            decreases n - i,
        {
            suffixes.push(i);
            i = i + 1;
        }
        let ghost starts = suffixes@;
        sort_suffixes(bytes, &mut suffixes);
        proof {
            lemma_sorted_suffixes(bytes@, starts, suffixes@);
        }
        let mut lcp_array: Vec<usize> = Vec::new();
        let mut i: usize = 0;
        while i + 1 < n
            invariant
                n == bytes@.len(),
                suffixes.len() == n,
                lcp_array.len() == i,
                i + 1 <= n || (i == 0 && n == 0),
                forall|k: int| 0 <= k < n ==> #[trigger] suffixes@[k] < n,
                forall|k: int|
                    0 <= k < i ==> is_common(
                        tail(bytes@, suffixes@[k]),
                        tail(bytes@, suffixes@[k + 1]),
                        #[trigger] lcp_array@[k] as int,
                    ),
            decreases n - i,
        {
            let a: usize = suffixes[i];
            let b: usize = suffixes[i + 1];
            let mut k: usize = 0;
            while a + k < n && b + k < n && bytes[a + k] == bytes[b + k]
                invariant
                    n == bytes@.len(),
                    a < n,
                    b < n,
                    a + k <= n,
                    b + k <= n,
                    tails_agree(bytes@, a, bytes@, b, k),
                decreases n - a - k,
            {
                proof {
                    lemma_tails_agree_next(bytes@, a, bytes@, b, k);
                }
                k = k + 1;
            }
            proof {
                let x = tail(bytes@, a);
                let y = tail(bytes@, b);
                if k < x.len() && k < y.len() {
                    assert(x[k as int] == bytes@[a + k]);
                    assert(y[k as int] == bytes@[b + k]);
                }
            }
            lcp_array.push(k);
            i = i + 1;
        }
        Self { text: string, suffixes, lcp_array }
    }
}

/// The places of all suffixes, put in order, are the places of all suffixes
/// still, and each suffix stands before the next.
#[verifier::spinoff_prover]
pub proof fn lemma_sorted_suffixes(text: Seq<u8>, starts: Seq<usize>, order: Seq<usize>)
    requires
        starts.len() == text.len(),
        forall|k: int| 0 <= k < starts.len() ==> starts[k] == k,
        order.to_multiset() == starts.to_multiset(),
        in_order(text, order),
    ensures
        all_suffixes(text, order),
        suffixes_ascend(text, order),
{
    starts.to_multiset_ensures();
    order.to_multiset_ensures();
    assert forall|i: int| 0 <= i < order.len() implies #[trigger] order[i] < text.len() by {
        assert(order.contains(order[i]));
        assert(starts.to_multiset().count(order[i]) > 0);
        assert(starts.contains(order[i]));
        let k = starts.index_of(order[i]);
    }
    assert forall|s: usize| s < text.len() implies #[trigger] order.contains(s) by {
        assert(starts[s as int] == s);
        assert(starts.contains(s));
        assert(order.to_multiset().count(s) > 0);
    }
    assert(starts.no_duplicates());
    starts.lemma_multiset_has_no_duplicates();
    order.lemma_multiset_has_no_duplicates_conv();
    assert forall|i: int, j: int| 0 <= i < j < order.len() implies lex_lt(
        #[trigger] tail(text, order[i]),
        #[trigger] tail(text, order[j]),
    ) by {
        let a = tail(text, order[i]);
        let b = tail(text, order[j]);
        assert(order[i] != order[j]);
        assert(a.len() != b.len());
        lemma_total(a, b, 0);
    }
}

/// Of two strings that agree in their first `k` bytes, one stands before the
/// other, or they are the same.
pub proof fn lemma_total(a: Seq<u8>, b: Seq<u8>, k: int)
    requires
        agree(a, b, k),
    ensures
        lex_lt(a, b) || a == b || lex_lt(b, a),
    decreases a.len() - k,
{
    if k == a.len() && k == b.len() {
        assert(a =~= b);
    } else if k == a.len() {
        assert(crate::non_concurrent::lexicographic::less_at(a, b, k));
    } else if k == b.len() {
        assert(crate::non_concurrent::lexicographic::less_at(b, a, k));
    } else if a[k] < b[k] {
        assert(crate::non_concurrent::lexicographic::less_at(a, b, k));
    } else if a[k] > b[k] {
        assert(crate::non_concurrent::lexicographic::less_at(b, a, k));
    } else {
        lemma_total(a, b, k + 1);
    }
}

/// Whether `value` stands in `text` at the place `at`.
pub open spec fn stands_at(value: Seq<u8>, text: Seq<u8>, at: int) -> bool {
    &&& 0 <= at
    &&& at + value.len() <= text.len()
    &&& forall|i: int| 0 <= i < value.len() ==> text[at + i] == value[i]
}

/// Whether `value` stands in `text` at two places at least, which may
/// overlap.
pub open spec fn is_repeated(value: Seq<u8>, text: Seq<u8>) -> bool {
    exists|p: int, q: int|
        #![trigger stands_at(value, text, p), stands_at(value, text, q)]
        p != q && stands_at(value, text, p) && stands_at(value, text, q)
}

/// Whether `value` stands in `text` at one place and no other.
pub open spec fn stands_once(value: Seq<u8>, text: Seq<u8>) -> bool {
    &&& exists|p: int| stands_at(value, text, p)
    &&& !is_repeated(value, text)
}

/// Whether `common` holds, for each suffix of the order but the last, the
/// number of bytes that it has in common with the next at their starts.
pub open spec fn neighbours_common(text: Seq<u8>, order: Seq<usize>, common: Seq<usize>) -> bool {
    &&& common.len() + 1 == order.len() || (common.len() == 0 && order.len() == 0)
    &&& forall|i: int|
        0 <= i < common.len() ==> is_common(
            tail(text, order[i]),
            tail(text, order[i + 1]),
            #[trigger] common[i] as int,
        )
}

/// What two suffixes have in common at their starts, each of the suffixes
/// between them in the order has in common with them: of the suffixes at `i`
/// and behind it up to `j`, each agrees with the next in `k` bytes.
pub proof fn lemma_between_share(text: Seq<u8>, order: Seq<usize>, i: int, j: int, k: int, m: int)
    requires
        suffixes_ascend(text, order),
        0 <= i <= m < j < order.len(),
        agree(tail(text, order[i]), tail(text, order[j]), k),
    ensures
        agree(tail(text, order[m]), tail(text, order[m + 1]), k),
{
    let a = tail(text, order[i]);
    let c = tail(text, order[j]);
    let p = a.take(k);
    assert(is_prefix(p, a));
    assert(is_prefix(p, c));
    lemma_prefix_first(p, a);
    // the suffix at `m` starts with `p`
    let x = tail(text, order[m]);
    if m > i {
        assert(lex_lt(a, x));
        if p != a {
            lemma_transitive(p, a, x);
        }
        lemma_prefix_between(p, x, c);
    }
    assert(is_prefix(p, x));
    // and so does the one behind it
    let y = tail(text, order[m + 1]);
    assert(lex_lt(x, y));
    if m + 1 < j {
        assert(lex_lt(a, y));
        if p != a {
            lemma_transitive(p, a, y);
        }
        lemma_prefix_between(p, y, c);
    }
    assert(is_prefix(p, y));
    assert(agree(x, y, k)) by {
        assert forall|n: int| 0 <= n < k implies x[n] == y[n] by {
            assert(p[n] == x[n]);
            assert(p[n] == y[n]);
        }
    }
}

/// A string that stands at two places of the text is no longer than what
/// some neighbours in the order of the suffixes have in common.
pub proof fn lemma_repeated_bound(
    text: Seq<u8>,
    order: Seq<usize>,
    common: Seq<usize>,
    value: Seq<u8>,
)
    requires
        all_suffixes(text, order),
        suffixes_ascend(text, order),
        neighbours_common(text, order, common),
        is_repeated(value, text),
        value.len() > 0,
        text.len() <= usize::MAX,
    ensures
        exists|m: int| 0 <= m < common.len() && value.len() <= #[trigger] common[m],
{
    let (p, q) = choose|p: int, q: int|
        #![trigger stands_at(value, text, p), stands_at(value, text, q)]
        p != q && stands_at(value, text, p) && stands_at(value, text, q);
    assert(0 <= p < text.len() && 0 <= q < text.len());
    assert(order.contains(p as usize));
    assert(order.contains(q as usize));
    let x = order.index_of(p as usize);
    let y = order.index_of(q as usize);
    let (i, j) = if x < y {
        (x, y)
    } else {
        (y, x)
    };
    assert(order[x] == p && order[y] == q);
    assert(i != j);
    let k = value.len() as int;
    assert(agree(tail(text, order[i]), tail(text, order[j]), k)) by {
        assert forall|n: int| 0 <= n < k implies tail(text, order[i])[n] == tail(
            text,
            order[j],
        )[n] by {
            assert(text[order[i] + n] == value[n]);
            assert(text[order[j] + n] == value[n]);
        }
    }
    lemma_between_share(text, order, i, j, k, i);
    assert(is_common(tail(text, order[i]), tail(text, order[i + 1]), common[i] as int));
    assert(k <= common[i]);
}

/// What neighbours in the order of the suffixes have in common stands at two
/// places of the text.
pub proof fn lemma_common_repeated(text: Seq<u8>, order: Seq<usize>, common: Seq<usize>, m: int)
    requires
        all_suffixes(text, order),
        suffixes_ascend(text, order),
        neighbours_common(text, order, common),
        0 <= m < common.len(),
    ensures
        is_repeated(tail(text, order[m]).take(common[m] as int), text),
{
    let a = tail(text, order[m]);
    let b = tail(text, order[m + 1]);
    let k = common[m] as int;
    let value = a.take(k);
    assert(is_common(a, b, k));
    assert(lex_lt(a, b));
    lemma_asymmetric(a, b);
    assert(order[m] != order[m + 1]);
    assert(stands_at(value, text, order[m] as int));
    assert(stands_at(value, text, order[m + 1] as int)) by {
        assert forall|n: int| 0 <= n < value.len() implies text[order[m + 1] + n] == value[n] by {
            assert(a[n] == b[n]);
        }
    }
}

/// One byte more than a suffix has in common with its neighbours in the
/// order, from the start of the suffix, stands at one place of the text and
/// no other.
pub proof fn lemma_stands_once(
    text: Seq<u8>,
    order: Seq<usize>,
    common: Seq<usize>,
    idx: int,
    shares: int,
)
    requires
        all_suffixes(text, order),
        suffixes_ascend(text, order),
        neighbours_common(text, order, common),
        text.len() <= usize::MAX,
        0 <= idx < order.len(),
        0 <= shares,
        shares + 1 <= text.len() - order[idx],
        idx > 0 ==> common[idx - 1] <= shares,
        idx < common.len() ==> common[idx] <= shares,
    ensures
        stands_once(tail(text, order[idx]).take(shares + 1), text),
{
    let here = tail(text, order[idx]);
    let value = here.take(shares + 1);
    assert(stands_at(value, text, order[idx] as int));
    assert forall|p: int| stands_at(value, text, p) implies p == order[idx] by {
        if p != order[idx] {
            assert(0 <= p < text.len());
            assert(order.contains(p as usize));
            let j = order.index_of(p as usize);
            assert(order[j] == p);
            let there = tail(text, order[j]);
            assert(agree(here, there, shares + 1)) by {
                assert forall|n: int| 0 <= n < shares + 1 implies here[n] == there[n] by {
                    assert(text[order[j] + n] == value[n]);
                }
            }
            if j < idx {
                assert(agree(there, here, shares + 1));
                lemma_between_share(text, order, j, idx, shares + 1, idx - 1);
                assert(is_common(
                    tail(text, order[idx - 1]),
                    tail(text, order[idx - 1 + 1]),
                    common[idx - 1] as int,
                ));
            } else {
                lemma_between_share(text, order, idx, j, shares + 1, idx);
                assert(is_common(here, tail(text, order[idx + 1]), common[idx] as int));
            }
        }
    }
}

/// Whether `value` is a suffix of `text`, and not empty.
pub open spec fn is_suffix_of(value: Seq<u8>, text: Seq<u8>) -> bool {
    exists|s: usize| s < text.len() && #[trigger] tail(text, s) == value
}

/// Whether `value` stands somewhere in `text`, which is not empty.
pub open spec fn is_substring_of(value: Seq<u8>, text: Seq<u8>) -> bool {
    exists|s: usize| s < text.len() && is_prefix(value, #[trigger] tail(text, s))
}

/// Whether the tail of `text` from `from` starts with `value`.
pub fn starts_with(text: &[u8], from: usize, value: &[u8]) -> (r: bool)
    requires
        from <= text.len(),
    ensures
        r == is_prefix(value@, tail(text@, from)),
{
    if value.len() > text.len() - from {
        return false;
    }
    let mut k: usize = 0;
    while k < value.len()
        invariant
            from <= text.len(),
            value.len() <= text.len() - from,
            0 <= k <= value.len(),
            forall|i: int| 0 <= i < k ==> value@[i] == tail(text@, from)[i],
        decreases value.len() - k,
    {
        if value[k] != text[from + k] {
            assert(tail(text@, from)[k as int] == text@[from + k]);
            return false;
        }
        assert(tail(text@, from)[k as int] == text@[from + k]);
        k = k + 1;
    }
    true
}

/// What the place where a value parts the suffixes says of the value: it is
/// no suffix; and it stands in the text exactly if the suffix at that place
/// starts with it.
#[verifier::spinoff_prover]
pub proof fn lemma_parted(text: Seq<u8>, order: Seq<usize>, value: Seq<u8>, at: usize)
    requires
        all_suffixes(text, order),
        suffixes_ascend(text, order),
        parts_at(text, order, value, at),
    ensures
        !is_suffix_of(value, text),
        is_substring_of(value, text) <==> at < order.len() && is_prefix(
            value,
            tail(text, order[at as int]),
        ),
{
    assert(tail(value, 0) =~= value);
    if is_suffix_of(value, text) {
        let s = choose|s: usize| s < text.len() && #[trigger] tail(text, s) == value;
        assert(order.contains(s));
        let k = order.index_of(s);
        lemma_asymmetric(tail(text, order[k]), value);
        lemma_asymmetric(value, tail(text, order[k]));
    }
    if is_substring_of(value, text) {
        let s = choose|s: usize| s < text.len() && is_prefix(value, #[trigger] tail(text, s));
        assert(order.contains(s));
        let k = order.index_of(s);
        lemma_before_prefix(value, tail(text, order[k]));
        assert(at <= k);
        let here = tail(text, order[at as int]);
        assert(lex_lt(value, here));
        if at < k {
            assert(lex_lt(here, tail(text, order[k])));
        }
        lemma_prefix_between(value, here, tail(text, order[k]));
    }
    if at < order.len() && is_prefix(value, tail(text, order[at as int])) {
        assert(order[at as int] < text.len());
    }
}

impl<'a> SuffixArray<'a> {
    /// Whether `value` is a suffix of the text, and not empty.
    ///
    /// Complexity: O(log(n)) comparisons
    pub fn is_suffix(&self, value: &str) -> (r: bool)
        requires
            self.wf(),
        ensures
            r == is_suffix_of(value.spec_bytes(), self.bytes()),
    {
        let text: &[u8] = self.text.as_bytes();
        let value: &[u8] = value.as_bytes();
        proof {
            assert(tail(value@, 0) =~= value@);
            assert(suffixes_ascend(text@, self.suffixes@));
        }
        match search_suffix(text, &self.suffixes, value) {
            Ok(at) => {
                assert(self.suffixes@[at as int] < text@.len());
                true
            },
            Err(at) => {
                proof {
                    lemma_parted(text@, self.suffixes@, value@, at);
                }
                false
            },
        }
    }

    /// Whether `value` stands somewhere in the text.
    ///
    /// Complexity: O(log(n)) comparisons
    pub fn has_substring(&self, value: &str) -> (r: bool)
        requires
            self.wf(),
        ensures
            r == is_substring_of(value.spec_bytes(), self.bytes()),
    {
        let text: &[u8] = self.text.as_bytes();
        let value: &[u8] = value.as_bytes();
        proof {
            assert(tail(value@, 0) =~= value@);
            assert(suffixes_ascend(text@, self.suffixes@));
        }
        match search_suffix(text, &self.suffixes, value) {
            Ok(at) => {
                // not just any substring, but a suffix
                proof {
                    let s = self.suffixes@[at as int];
                    assert(s < text@.len());
                    assert(is_prefix(value@, tail(text@, s)));
                }
                true
            },
            Err(idx) => {
                proof {
                    lemma_parted(text@, self.suffixes@, value@, idx);
                }
                // `suffixes[idx]` is the suffix where `value` would be a prefix, if any
                idx < self.suffixes.len() && starts_with(text, self.suffixes[idx], value)
            },
        }
    }

    /// Whether the number at `idx` is the greatest of `common`, and the last
    /// that is as great.
    pub open spec fn is_longest(common: Seq<usize>, idx: int) -> bool {
        &&& 0 <= idx < common.len()
        &&& forall|i: int| 0 <= i < common.len() ==> common[i] <= common[idx]
        &&& forall|i: int| idx < i < common.len() ==> common[i] < common[idx]
    }

    /// The longest string that stands at two places of the text, which may
    /// overlap: what two suffixes that are neighbours in the order start with
    /// in common, of the last such neighbours where several have as much.
    /// None where no byte stands in the text twice.
    ///
    /// Complexity: O(n)
    pub fn longest_repeated_substring(&self) -> (r: Option<&'a str>)
        requires
            self.wf(),
        ensures
            match r {
                None => forall|i: int| 0 <= i < self.common().len() ==> self.common()[i] == 0,
                Some(found) => exists|idx: int|
                    Self::is_longest(self.common(), idx) && self.common()[idx] > 0
                        && found.spec_bytes() == #[trigger] tail(
                        self.bytes(),
                        self.order()[idx],
                    ).take(self.common()[idx] as int),
            },
            // the longest string that stands at two places of the text
            match r {
                None => forall|value: Seq<u8>| #[trigger]
                    is_repeated(value, self.bytes()) ==> value.len() == 0,
                Some(found) => {
                    &&& found.spec_bytes().len() > 0
                    &&& is_repeated(found.spec_bytes(), self.bytes())
                    &&& forall|value: Seq<u8>| #[trigger]
                        is_repeated(value, self.bytes()) ==> value.len() <= found.spec_bytes().len()
                },
            },
    {
        if self.lcp_array.len() == 0 {
            proof {
                assert forall|value: Seq<u8>| #[trigger]
                    is_repeated(value, self.bytes()) implies value.len() == 0 by {
                    if value.len() > 0 {
                        assert(self.suffixes.len() == self.bytes().len());
                        lemma_repeated_bound(self.bytes(), self.order(), self.common(), value);
                    }
                }
            }
            return None;
        }
        let mut idx: usize = 0;
        let mut i: usize = 1;
        while i < self.lcp_array.len()
            invariant
                0 <= idx < i <= self.lcp_array.len(),
                forall|k: int| 0 <= k < i ==> self.lcp_array@[k] <= self.lcp_array@[idx as int],
                forall|k: int| idx < k < i ==> self.lcp_array@[k] < self.lcp_array@[idx as int],
            decreases self.lcp_array.len() - i,
        {
            if self.lcp_array[i] >= self.lcp_array[idx] {
                idx = i;
            }
            i = i + 1;
        }
        let len: usize = self.lcp_array[idx];
        proof {
            assert forall|value: Seq<u8>| #[trigger]
                is_repeated(value, self.bytes()) implies value.len() <= len by {
                if value.len() > 0 {
                    assert(self.suffixes.len() == self.bytes().len());
                    lemma_repeated_bound(self.bytes(), self.order(), self.common(), value);
                    let m = choose|m: int|
                        0 <= m < self.common().len() && value.len() <= #[trigger] self.common()[m];
                    assert(self.common()[m] <= self.common()[idx as int]);
                }
            }
        }
        if len == 0 {
            return None;
        }
        let start: usize = self.suffixes[idx];
        proof {
            assert(is_common(
                tail(self.bytes(), self.order()[idx as int]),
                tail(self.bytes(), self.order()[idx + 1]),
                self.common()[idx as int] as int,
            ));
            assert(self.order()[idx as int] < self.bytes().len());
            assert(tail(self.bytes(), start).len() == self.bytes().len() - start);
            assert(self.text@.len() == self.bytes().len());
            assert(agree(
                tail(self.bytes(), start),
                tail(self.bytes(), self.order()[idx + 1]),
                len as int,
            ));
            assert(len <= self.bytes().len() - start);
            assert(self.suffixes.len() == self.bytes().len());
        }
        let found: &'a str = self.text.substring_ascii(start, start + len);
        proof {
            assert(found.spec_bytes() =~= tail(self.bytes(), start).take(len as int));
            assert(Self::is_longest(self.common(), idx as int));
            lemma_common_repeated(self.bytes(), self.order(), self.common(), idx as int);
        }
        Some(found)
    }
}

/// How many bytes the suffix at the place `i` of the order, which is not the
/// first, shares with a neighbour at most: the greater of the numbers that it
/// has in common with the suffix before it and with the one behind it. Where
/// that is all of the suffix, the greatest number that there is.
pub open spec fn shared(common: Seq<usize>, order: Seq<usize>, n: int, i: int) -> int {
    let x = common[i - 1] as int;
    let y = if i < common.len() {
        common[i] as int
    } else {
        0
    };
    let l = if x >= y {
        x
    } else {
        y
    };
    if l == n - order[i] {
        usize::MAX as int
    } else {
        l
    }
}

/// Whether the suffix at the place `idx` of the order shares the fewest bytes
/// with a neighbour, and is the first that shares as few.
pub open spec fn is_shortest(common: Seq<usize>, order: Seq<usize>, n: int, idx: int) -> bool {
    &&& 1 <= idx < order.len()
    &&& forall|i: int|
        1 <= i < order.len() ==> shared(common, order, n, idx) <= #[trigger] shared(
            common,
            order,
            n,
            i,
        )
    &&& forall|i: int|
        1 <= i < idx ==> shared(common, order, n, idx) < #[trigger] shared(common, order, n, i)
}

impl<'a> SuffixArray<'a> {
    /// The last suffix of the order shares less than all of itself with the
    /// suffix before it.
    proof fn lemma_last_shared(&self)
        requires
            self.wf(),
            self.order().len() >= 2,
        ensures
            shared(
                self.common(),
                self.order(),
                self.bytes().len() as int,
                self.order().len() - 1,
            ) < self.bytes().len() - self.order()[self.order().len() - 1],
    {
        let n = self.order().len() as int;
        let a = tail(self.bytes(), self.order()[n - 2]);
        let b = tail(self.bytes(), self.order()[n - 1]);
        let k = self.common()[n - 2] as int;
        assert(is_common(a, b, k));
        assert(lex_lt(a, b));
        assert(self.order()[n - 1] < self.bytes().len());
        if k == b.len() {
            assert(is_prefix(b, a));
            lemma_prefix_first(b, a);
            lemma_asymmetric(a, b);
        }
    }

    /// The suffix that shares the fewest bytes with a neighbour has a byte more
    /// than it shares.
    proof fn lemma_shortest_fits(&self, idx: int)
        requires
            self.wf(),
            is_shortest(self.common(), self.order(), self.bytes().len() as int, idx),
        ensures
            0 <= shared(self.common(), self.order(), self.bytes().len() as int, idx),
            shared(self.common(), self.order(), self.bytes().len() as int, idx) + 1
                <= self.bytes().len() - self.order()[idx],
            self.order()[idx] < self.bytes().len(),
            self.text@.len() == self.bytes().len(),
            self.bytes().len() == self.order().len(),
    {
        let n = self.order().len() as int;
        let common = self.common();
        let order = self.order();
        self.lemma_last_shared();
        assert(n == self.suffixes.len());
        assert(n <= usize::MAX);
        assert(shared(common, order, n, idx) <= shared(common, order, n, n - 1));
        assert(order[n - 1] < n);
        assert(order[idx] < n);
        let here = tail(self.bytes(), order[idx]);
        assert(here.len() == n - order[idx]);
        let x = common[idx - 1] as int;
        assert(is_common(tail(self.bytes(), order[idx - 1]), here, x));
        if idx < common.len() {
            assert(is_common(here, tail(self.bytes(), order[idx + 1]), common[idx] as int));
        }
    }

    /// The shortest string that stands at the start of one suffix and of
    /// neither of its neighbours in the order: one byte more than the suffix
    /// shares with a neighbour, of the first suffix behind the first of the
    /// order that shares the fewest. It stands at one place of the text and
    /// no other. The first suffix of the order is not looked at, so a shorter
    /// such string may stand at its start. None for a text of fewer than two
    /// bytes.
    #[verifier::spinoff_prover]
    pub fn shortest_non_repeated_substring(&self) -> (r: Option<&'a str>)
        requires
            self.wf(),
        ensures
            match r {
                None => self.order().len() <= 1,
                Some(found) => exists|idx: int|
                    is_shortest(self.common(), self.order(), self.bytes().len() as int, idx)
                        && found.spec_bytes() == #[trigger] tail(
                        self.bytes(),
                        self.order()[idx],
                    ).take(shared(self.common(), self.order(), self.bytes().len() as int, idx) + 1),
            },
            // a string that stands at one place of the text and no other
            r matches Some(found) ==> found.spec_bytes().len() > 0 && stands_once(
                found.spec_bytes(),
                self.bytes(),
            ),
    {
        let n: usize = self.suffixes.len();
        if n <= 1 {
            return None;
        }
        let ghost common = self.common();
        let ghost order = self.order();
        proof {
            assert(n == self.bytes().len());
            assert forall|k: int| 0 <= k < n implies #[trigger] order[k] < n by {}
        }
        let mut idx: usize = 1;
        let mut len: usize = usize::MAX;
        let mut i: usize = 1;
        // min of pairwise maxes of lcp array values
        while i < n
            invariant
                common == self.lcp_array@,
                order == self.suffixes@,
                n == order.len(),
                common.len() + 1 == n,
                forall|k: int| 0 <= k < n ==> #[trigger] order[k] < n,
                1 <= i <= n,
                1 <= idx < n,
                i > 1 ==> idx < i && len == shared(common, order, n as int, idx as int),
                i == 1 ==> len == usize::MAX,
                forall|k: int| 1 <= k < i ==> len <= #[trigger] shared(common, order, n as int, k),
                forall|k: int|
                    1 <= k < idx && i > 1 ==> len < #[trigger] shared(common, order, n as int, k),
            decreases n - i,
        {
            let x: usize = self.lcp_array[i - 1];
            let y: usize = if i < self.lcp_array.len() {
                self.lcp_array[i]
            } else {
                0
            };
            let l: usize = if x >= y {
                x
            } else {
                y
            };
            proof {
                assert(order[i as int] < n);
            }
            let key: usize = if l == n - self.suffixes[i] {
                usize::MAX
            } else {
                l
            };
            assert(key == shared(common, order, n as int, i as int));
            if i == 1 || key < len {
                idx = i;
                len = key;
            }
            i = i + 1;
        }
        proof {
            assert(is_shortest(common, order, n as int, idx as int));
            self.lemma_shortest_fits(idx as int);
        }
        let start: usize = self.suffixes[idx];
        let found: &'a str = self.text.substring_ascii(start, start + len + 1);
        proof {
            assert(found.spec_bytes() =~= tail(self.bytes(), start).take(len + 1));
            lemma_stands_once(self.bytes(), order, common, idx as int, len as int);
        }
        Some(found)
    }
}

} // verus!
