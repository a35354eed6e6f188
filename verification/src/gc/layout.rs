//! Sizes and alignments of the managed heap, and the arithmetic on them.
//!
//! The heap is a simulated address space: an address is a `usize`, and every
//! eight bytes of committed memory hold one machine word.

use vstd::prelude::*;

verus! {

/// Bytes that a block header occupies in managed memory: four words.
pub const HEADER_SIZE: usize = 32;

/// Alignment of every block header, and so of every block's data.
pub const HEADER_ALIGN: usize = 16;

/// The address that stands for the data of a value of no size: it is aligned
/// as a word, and no address of the heap.
pub const DANGLING: usize = 8;

/// The largest alignment that an allocation request may ask for.
pub const MAX_ALIGN: usize = 16;

/// The powers of two: the alignments that a layout can have.
pub open spec fn is_power_of_two(n: int) -> bool
    decreases n,
{
    if n <= 0 {
        false
    } else if n == 1 {
        true
    } else {
        n % 2 == 0 && is_power_of_two(n / 2)
    }
}

/// `n` rounded up to the next multiple of sixteen.
pub open spec fn padded(n: int) -> int {
    (n + 15) / 16 * 16
}

/// `n` rounded up to the next multiple of `align`.
pub open spec fn round_up(n: int, align: int) -> int {
    if n % align == 0 {
        n
    } else {
        n - n % align + align
    }
}

/// What padding gives: the least multiple of sixteen that is not below `n`.
pub proof fn lemma_padded(n: int, m: int)
    requires
        n >= 0,
    ensures
        padded(n) >= n,
        padded(n) - n < 16,
        padded(n) % 16 == 0,
        m % 16 == 0 && m >= n ==> padded(n) <= m,
{
    let q = (n + 15) / 16;
    vstd::arithmetic::div_mod::lemma_fundamental_div_mod(n + 15, 16);
    assert(padded(n) == q * 16);
    assert(q * 16 <= n + 15 < q * 16 + 16);
    vstd::arithmetic::div_mod::lemma_fundamental_div_mod_converse(q * 16, 16, q, 0);
    if m % 16 == 0 && m >= n {
        let k = m / 16;
        vstd::arithmetic::div_mod::lemma_fundamental_div_mod(m, 16);
        assert(m == 16 * k);
        if k < q {
            assert(16 * k + 16 <= 16 * q);
        }
    }
}

/// A power of two that is at least sixteen is a multiple of sixteen.
pub proof fn lemma_power_of_two_multiple_of_16(n: int)
    requires
        is_power_of_two(n),
        n >= 16,
    ensures
        n % 16 == 0,
{
    reveal_with_fuel(is_power_of_two, 6);
}

/// The powers of two up to sixteen are exactly 1, 2, 4, 8 and 16.
pub proof fn lemma_small_powers_of_two(n: int)
    requires
        0 <= n <= 16,
    ensures
        is_power_of_two(n) <==> (n == 1 || n == 2 || n == 4 || n == 8 || n == 16),
{
    reveal_with_fuel(is_power_of_two, 6);
}

/// Whether `n` is a power of two.
pub fn check_power_of_two(n: usize) -> (r: bool)
    ensures
        r == is_power_of_two(n as int),
{
    if n == 0 {
        return false;
    }
    let mut m: usize = n;
    while m % 2 == 0
        invariant
            m > 0,
            is_power_of_two(m as int) == is_power_of_two(n as int),
        decreases m,
    {
        m = m / 2;
    }
    m == 1
}

/// Rounds `n` up to the next multiple of sixteen, where that fits.
pub fn pad_to_header_align(n: usize) -> (r: Option<usize>)
    ensures
        match r {
            Some(p) => p == padded(n as int),
            None => padded(n as int) > usize::MAX,
        },
        padded(n as int) >= n,
        padded(n as int) - n < 16,
        padded(n as int) % 16 == 0,
{
    if n > usize::MAX - 15 {
        assert(usize::MAX % 16 == 15) by {
            assert(usize::MAX == 0xffff_ffff || usize::MAX == 0xffff_ffff_ffff_ffff);
        }
        None
    } else {
        let p: usize = (n + 15) / 16 * 16;
        Some(p)
    }
}

/// Rounds `n` up to the next multiple of `align`, where that fits.
pub fn round_up_to(n: usize, align: usize) -> (r: Option<usize>)
    requires
        align > 0,
    ensures
        match r {
            Some(p) => p == round_up(n as int, align as int),
            None => round_up(n as int, align as int) > usize::MAX,
        },
        round_up(n as int, align as int) >= n,
        round_up(n as int, align as int) - n < align,
        round_up(n as int, align as int) % (align as int) == 0,
{
    let rem: usize = n % align;
    proof {
        lemma_round_up(n as int, align as int);
    }
    if rem == 0 {
        Some(n)
    } else {
        let add: usize = align - rem;
        if n > usize::MAX - add {
            None
        } else {
            Some(n + add)
        }
    }
}

/// What rounding up gives: the least multiple of `align` that is not below `n`.
pub proof fn lemma_round_up(n: int, align: int)
    requires
        n >= 0,
        align > 0,
    ensures
        round_up(n, align) >= n,
        round_up(n, align) - n < align,
        round_up(n, align) % align == 0,
{
    let r = n % align;
    if r != 0 {
        let q = n / align;
        assert(n == q * align + r) by {
            vstd::arithmetic::div_mod::lemma_fundamental_div_mod(n, align);
            assert(align * q == q * align) by (nonlinear_arith);
        }
        assert(n - r + align == (q + 1) * align) by (nonlinear_arith)
            requires
                n == q * align + r,
        ;
        assert(((q + 1) * align) % align == 0) by {
            vstd::arithmetic::div_mod::lemma_mod_multiples_basic(q + 1, align);
        }
    }
}

/// A word-aligned address stands a whole number of words behind an aligned
/// base.
pub proof fn lemma_word_index(base: int, a: int)
    requires
        base % 16 == 0,
        a % 8 == 0,
    ensures
        a - base == 8 * ((a - base) / 8),
{
    let q = base / 16;
    let r = a / 8;
    vstd::arithmetic::div_mod::lemma_fundamental_div_mod(base, 16);
    vstd::arithmetic::div_mod::lemma_fundamental_div_mod(a, 8);
    assert(base == 16 * q);
    assert(a == 8 * r);
    assert(a - base == 8 * (r - 2 * q));
    vstd::arithmetic::div_mod::lemma_fundamental_div_mod_converse(a - base, 8, r - 2 * q, 0);
}

/// Behind a header at a multiple of sixteen, the data starts at a multiple of
/// sixteen.
pub proof fn lemma_data_aligned(b: int)
    requires
        b % 16 == 0,
    ensures
        (b + 32) % 16 == 0,
{
    let q = b / 16;
    vstd::arithmetic::div_mod::lemma_fundamental_div_mod(b, 16);
    vstd::arithmetic::div_mod::lemma_fundamental_div_mod_converse(b + 32, 16, q + 2, 0);
}

/// At a multiple of sixteen stand four words.
pub proof fn lemma_header_words_aligned(b: int)
    requires
        b % 16 == 0,
    ensures
        b % 8 == 0,
        (b + 8) % 8 == 0,
        (b + 16) % 8 == 0,
        (b + 24) % 8 == 0,
{
    let q = b / 16;
    vstd::arithmetic::div_mod::lemma_fundamental_div_mod(b, 16);
    assert(b == 16 * q);
    vstd::arithmetic::div_mod::lemma_fundamental_div_mod_converse(b, 8, 2 * q, 0);
    vstd::arithmetic::div_mod::lemma_fundamental_div_mod_converse(b + 8, 8, 2 * q + 1, 0);
    vstd::arithmetic::div_mod::lemma_fundamental_div_mod_converse(b + 16, 8, 2 * q + 2, 0);
    vstd::arithmetic::div_mod::lemma_fundamental_div_mod_converse(b + 24, 8, 2 * q + 3, 0);
}

/// A multiple of sixteen that is greater than another is greater by sixteen
/// at least.
pub proof fn lemma_step_16(x: int, y: int)
    requires
        x % 16 == 0,
        y % 16 == 0,
        x > y,
    ensures
        x >= y + 16,
{
    let p = x / 16;
    let q = y / 16;
    vstd::arithmetic::div_mod::lemma_fundamental_div_mod(x, 16);
    vstd::arithmetic::div_mod::lemma_fundamental_div_mod(y, 16);
    assert(x == 16 * p);
    assert(y == 16 * q);
    if p <= q {
        assert(16 * p <= 16 * q);
    }
}

/// A multiple of a multiple of `m` is a multiple of `m`.
pub proof fn lemma_multiple_of_multiple(n: int, k: int, m: int)
    requires
        m > 0,
        k > 0,
        k % m == 0,
        n % k == 0,
    ensures
        n % m == 0,
{
    let q = n / k;
    let p = k / m;
    vstd::arithmetic::div_mod::lemma_fundamental_div_mod(n, k);
    vstd::arithmetic::div_mod::lemma_fundamental_div_mod(k, m);
    assert(n == (q * p) * m) by (nonlinear_arith)
        requires
            n == k * q,
            k == m * p,
    ;
    vstd::arithmetic::div_mod::lemma_mod_multiples_basic(q * p, m);
}

/// The pages that hold `num_bytes` bytes of data and a header.
pub open spec fn pages_for(num_bytes: int) -> int {
    (num_bytes + 32 + 4095) / 4096
}

/// The pages for a request hold it and a header.
pub proof fn lemma_pages_cover(num_bytes: int)
    requires
        num_bytes >= 0,
    ensures
        pages_for(num_bytes) * 4096 >= num_bytes + 32,
        pages_for(num_bytes) * 4096 < num_bytes + 32 + 4096,
        pages_for(num_bytes) >= 1,
{
    let q = (num_bytes + 32 + 4095) / 4096;
    vstd::arithmetic::div_mod::lemma_fundamental_div_mod(num_bytes + 32 + 4095, 4096);
    assert(q * 4096 <= num_bytes + 32 + 4095 < q * 4096 + 4096);
}

/// The pages for a request are the fewest that hold it and a header.
pub proof fn lemma_pages_least(num_bytes: int, len: int)
    requires
        num_bytes >= 0,
        len % 4096 == 0,
        len >= num_bytes + 32,
    ensures
        pages_for(num_bytes) * 4096 <= len,
{
    let q = (num_bytes + 32 + 4095) / 4096;
    let k = len / 4096;
    vstd::arithmetic::div_mod::lemma_fundamental_div_mod(num_bytes + 32 + 4095, 4096);
    vstd::arithmetic::div_mod::lemma_fundamental_div_mod(len, 4096);
    assert(len == 4096 * k);
    assert(q * 4096 <= num_bytes + 32 + 4095);
    assert(q * 4096 < 4096 * k + 4096);
    assert(q <= k);
}

} // verus!
