//! The lexicographic order of byte strings, which is the order of `str`.

use vstd::prelude::*;

verus! {

/// Whether `a` and `b` agree in their first `k` bytes.
pub open spec fn agree(a: Seq<u8>, b: Seq<u8>, k: int) -> bool {
    &&& 0 <= k <= a.len()
    &&& k <= b.len()
    &&& forall|i: int| 0 <= i < k ==> a[i] == b[i]
}

/// Whether `a` stands before `b` because of what follows their first `k`
/// bytes, in which they agree: `a` ends there and `b` does not, or the next
/// byte of `a` is the smaller one.
pub open spec fn less_at(a: Seq<u8>, b: Seq<u8>, k: int) -> bool {
    &&& agree(a, b, k)
    &&& (k == a.len() && k < b.len()) || (k < a.len() && k < b.len() && a[k] < b[k])
}

/// Whether `a` stands before `b` in the lexicographic order.
pub open spec fn lex_lt(a: Seq<u8>, b: Seq<u8>) -> bool {
    exists|k: int| less_at(a, b, k)
}

/// Whether `p` is what `s` starts with.
pub open spec fn is_prefix(p: Seq<u8>, s: Seq<u8>) -> bool {
    agree(p, s, p.len() as int)
}

/// The bytes of `s` from the place `from` on.
pub open spec fn tail(s: Seq<u8>, from: usize) -> Seq<u8> {
    s.skip(from as int)
}

/// The place that stands at `i` in `order`.
pub open spec fn place(order: Seq<usize>, i: usize) -> usize {
    order[i as int]
}

/// Whether the tails of `x` from `i` and of `y` from `j` agree in their first
/// `k` bytes.
pub open spec fn tails_agree(x: Seq<u8>, i: usize, y: Seq<u8>, j: usize, k: usize) -> bool {
    agree(tail(x, i), tail(y, j), k as int)
}

/// One byte more in which two tails agree.
pub proof fn lemma_tails_agree_next(x: Seq<u8>, i: usize, y: Seq<u8>, j: usize, k: usize)
    requires
        tails_agree(x, i, y, j, k),
        i + k < x.len(),
        j + k < y.len(),
        x[i + k] == y[j + k],
        k < usize::MAX,
    ensures
        tails_agree(x, i, y, j, (k + 1) as usize),
{
    let a = tail(x, i);
    let b = tail(y, j);
    assert forall|m: int| 0 <= m < k + 1 implies a[m] == b[m] by {
        if m == k {
            assert(a[m] == x[i + k]);
            assert(b[m] == y[j + k]);
        }
    }
}

/// What the bytes behind what two tails agree in say of their order.
pub proof fn lemma_tails_decided(x: Seq<u8>, i: usize, y: Seq<u8>, j: usize, k: usize)
    requires
        tails_agree(x, i, y, j, k),
        i <= x.len(),
        j <= y.len(),
    ensures
        i + k == x.len() && j + k == y.len() ==> tail(x, i) == tail(y, j),
        i + k == x.len() && j + k < y.len() ==> lex_lt(tail(x, i), tail(y, j)),
        i + k < x.len() && j + k == y.len() ==> lex_lt(tail(y, j), tail(x, i)),
        i + k < x.len() && j + k < y.len() && x[i + k] < y[j + k] ==> lex_lt(tail(x, i), tail(y, j)),
        i + k < x.len() && j + k < y.len() && x[i + k] > y[j + k] ==> lex_lt(tail(y, j), tail(x, i)),
{
    let a = tail(x, i);
    let b = tail(y, j);
    if i + k == x.len() && j + k == y.len() {
        assert(a =~= b);
    }
    if i + k == x.len() && j + k < y.len() {
        assert(less_at(a, b, k as int));
    }
    if i + k < x.len() && j + k == y.len() {
        assert(less_at(b, a, k as int));
    }
    if i + k < x.len() && j + k < y.len() {
        assert(a[k as int] == x[i + k]);
        assert(b[k as int] == y[j + k]);
        if x[i + k] < y[j + k] {
            assert(less_at(a, b, k as int));
        }
        if x[i + k] > y[j + k] {
            assert(less_at(b, a, k as int));
        }
    }
}

/// No string stands before itself, and of two strings one at most stands
/// before the other.
pub proof fn lemma_asymmetric(a: Seq<u8>, b: Seq<u8>)
    ensures
        !(lex_lt(a, b) && lex_lt(b, a)),
        !lex_lt(a, a),
        lex_lt(a, b) ==> a != b,
{
    if lex_lt(a, b) && lex_lt(b, a) {
        let k = choose|k: int| less_at(a, b, k);
        let m = choose|m: int| less_at(b, a, m);
        if k < m {
            assert(b[k] == a[k]);
        } else if m < k {
            assert(a[m] == b[m]);
        }
    }
    if lex_lt(a, a) {
        let k = choose|k: int| less_at(a, a, k);
    }
}

/// The order is transitive.
pub proof fn lemma_transitive(a: Seq<u8>, b: Seq<u8>, c: Seq<u8>)
    requires
        lex_lt(a, b),
        lex_lt(b, c),
    ensures
        lex_lt(a, c),
{
    let k = choose|k: int| less_at(a, b, k);
    let m = choose|m: int| less_at(b, c, m);
    if k <= m {
        assert forall|i: int| 0 <= i < k implies a[i] == c[i] by {
            assert(a[i] == b[i]);
            assert(b[i] == c[i]);
        }
        if k < m {
            assert(b[k] == c[k]);
        }
        assert(less_at(a, c, k));
    } else {
        assert forall|i: int| 0 <= i < m implies a[i] == c[i] by {
            assert(a[i] == b[i]);
            assert(b[i] == c[i]);
        }
        assert(a[m] == b[m]);
        assert(less_at(a, c, m));
    }
}

/// What a string starts with is the string itself or stands before it.
pub proof fn lemma_prefix_first(p: Seq<u8>, s: Seq<u8>)
    requires
        is_prefix(p, s),
    ensures
        p == s || lex_lt(p, s),
{
    if p.len() == s.len() {
        assert(p =~= s);
    } else {
        assert(less_at(p, s, p.len() as int));
    }
}

/// The strings that start with `p` stand together in the order: what stands
/// behind `p` and not behind a string that starts with `p`, starts with `p`.
pub proof fn lemma_prefix_between(p: Seq<u8>, x: Seq<u8>, y: Seq<u8>)
    requires
        lex_lt(p, x),
        x == y || lex_lt(x, y),
        is_prefix(p, y),
    ensures
        is_prefix(p, x),
{
    let k = choose|k: int| less_at(p, x, k);
    if k < p.len() {
        // `p` and `x` differ at `k`, where `x` has the greater byte
        if x == y {
            assert(y[k] == p[k]);
        } else {
            let m = choose|m: int| less_at(x, y, m);
            if m <= k {
                if m < k {
                    assert(p[m] == x[m]);
                }
                assert(p[m] == y[m]);
            } else {
                assert(x[k] == y[k]);
                assert(p[k] == y[k]);
            }
        }
    }
}

/// A string that starts with `p` does not stand before `p`.
pub proof fn lemma_before_prefix(p: Seq<u8>, x: Seq<u8>)
    ensures
        !(lex_lt(x, p) && is_prefix(p, x)),
{
    if lex_lt(x, p) && is_prefix(p, x) {
        let k = choose|k: int| less_at(x, p, k);
        if k < p.len() {
            assert(p[k] == x[k]);
        }
    }
}

} // verus!
