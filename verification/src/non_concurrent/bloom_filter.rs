//! A Bloom filter: a set that may answer "yes" for a value that was never
//! added, and never "no" for one that was.

use std::hash::{BuildHasher, Hash, RandomState};
use vstd::prelude::*;

verus! {

/// The number of the hash functions of a filter.
pub const NUM_HASHES: usize = 5;

/// A Bloom filter with five hash functions, each seeded at random when the
/// filter is made.
pub struct BloomFilter {
    bit_array: Vec<u64>,
    num_u64s: usize,
    num_elements: usize,
    num_set_bits: usize,
    hashes: Vec<RandomState>,
}

/// A filter as the contracts see it.
pub struct BloomView {
    /// The bits of the filter, in words of sixty-four.
    pub bits: Seq<u64>,
    /// The number of values that were added.
    pub elements: int,
    /// The number of hashes that found their bit set when they were added.
    pub set_bits: int,
}

/// Whether the bit `b` of the word `w` is set.
pub open spec fn has_bit(w: u64, b: u64) -> bool {
    w & (1u64 << b) != 0
}

/// The word of a filter of `words` words that the hash `hash` falls into.
pub open spec fn word_of(hash: u64, words: int) -> int {
    (hash / 64) as int % words
}

/// The bit of its word that the hash `hash` falls onto.
pub open spec fn bit_of(hash: u64) -> u64 {
    hash % 64
}

/// Whether the bit of the hash `hash` is set in `bits`.
pub open spec fn is_marked(bits: Seq<u64>, hash: u64) -> bool {
    has_bit(bits[word_of(hash, bits.len() as int)], bit_of(hash))
}

/// The bits `bits` with the bit of the hash `hash` set.
pub open spec fn marked(bits: Seq<u64>, hash: u64) -> Seq<u64> {
    let word = word_of(hash, bits.len() as int);
    bits.update(word, bits[word] | (1u64 << bit_of(hash)))
}

/// The bits `bits` with the bits of the first `n` of `hashes` set.
pub open spec fn marked_all(bits: Seq<u64>, hashes: Seq<u64>, n: int) -> Seq<u64>
    decreases n,
{
    if n <= 0 {
        bits
    } else {
        marked(marked_all(bits, hashes, n - 1), hashes[n - 1])
    }
}

/// The number of those of the first `n` of `hashes` that find their bit set
/// when the bits of the hashes are set in `bits` one after the other.
pub open spec fn collisions(bits: Seq<u64>, hashes: Seq<u64>, n: int) -> int
    decreases n,
{
    if n <= 0 {
        0
    } else {
        collisions(bits, hashes, n - 1) + if is_marked(
            marked_all(bits, hashes, n - 1),
            hashes[n - 1],
        ) {
            1int
        } else {
            0int
        }
    }
}

/// Whether the bits of all of `hashes` are set in `bits`.
pub open spec fn all_marked(bits: Seq<u64>, hashes: Seq<u64>) -> bool {
    forall|k: int| 0 <= k < hashes.len() ==> is_marked(bits, #[trigger] hashes[k])
}

/// Whether `after` is the filter `before` with a value added that has the
/// hashes `hashes`.
pub open spec fn added(before: BloomView, after: BloomView, hashes: Seq<u64>) -> bool {
    &&& hashes.len() == NUM_HASHES
    &&& after.bits == marked_all(before.bits, hashes, hashes.len() as int)
    &&& after.elements == before.elements + 1
    &&& after.set_bits == before.set_bits + collisions(before.bits, hashes, hashes.len() as int)
}

/// Setting a bit of a word sets that bit and clears none.
pub proof fn lemma_set_bit(w: u64, b: u64, c: u64)
    requires
        b < 64,
        c < 64,
    ensures
        has_bit(w | (1u64 << b), b),
        has_bit(w, c) ==> has_bit(w | (1u64 << b), c),
        c != b ==> has_bit(w | (1u64 << b), c) == has_bit(w, c),
        has_bit(w, b) == ((w >> b) & 1 == 1),
        !has_bit(0, c),
{
    assert(b < 64 ==> (w | (1u64 << b)) & (1u64 << b) != 0) by (bit_vector);
    assert(b < 64 && c < 64 && w & (1u64 << c) != 0 ==> (w | (1u64 << b)) & (1u64 << c) != 0)
        by (bit_vector);
    assert(b < 64 && c < 64 && c != b ==> ((w | (1u64 << b)) & (1u64 << c) != 0) == (w & (1u64
        << c) != 0)) by (bit_vector);
    assert(b < 64 ==> (w & (1u64 << b) != 0) == ((w >> b) & 1 == 1)) by (bit_vector);
    assert(c < 64 ==> 0u64 & (1u64 << c) == 0) by (bit_vector);
}

/// Marking a hash marks it, and leaves marked what was marked.
pub proof fn lemma_marked(bits: Seq<u64>, hash: u64, other: u64)
    requires
        bits.len() > 0,
    ensures
        marked(bits, hash).len() == bits.len(),
        is_marked(marked(bits, hash), hash),
        is_marked(bits, other) ==> is_marked(marked(bits, hash), other),
{
    let word = word_of(hash, bits.len() as int);
    let other_word = word_of(other, bits.len() as int);
    lemma_set_bit(bits[word], bit_of(hash), bit_of(other));
}

/// Marking hashes marks each of them, and leaves marked what was marked.
pub proof fn lemma_marked_all(bits: Seq<u64>, hashes: Seq<u64>, n: int)
    requires
        bits.len() > 0,
        0 <= n <= hashes.len(),
    ensures
        marked_all(bits, hashes, n).len() == bits.len(),
        forall|k: int| 0 <= k < n ==> is_marked(marked_all(bits, hashes, n), #[trigger] hashes[k]),
        forall|other: u64|
            is_marked(bits, other) ==> #[trigger] is_marked(marked_all(bits, hashes, n), other),
        0 <= collisions(bits, hashes, n) <= n,
    decreases n,
{
    if n > 0 {
        lemma_marked_all(bits, hashes, n - 1);
        let before = marked_all(bits, hashes, n - 1);
        assert forall|k: int| 0 <= k < n implies is_marked(
            marked_all(bits, hashes, n),
            #[trigger] hashes[k],
        ) by {
            lemma_marked(before, hashes[n - 1], hashes[k]);
        }
        assert forall|other: u64| is_marked(bits, other) implies #[trigger] is_marked(
            marked_all(bits, hashes, n),
            other,
        ) by {
            lemma_marked(before, hashes[n - 1], other);
        }
        lemma_marked(before, hashes[n - 1], hashes[n - 1]);
    }
}

impl View for BloomFilter {
    type V = BloomView;

    closed spec fn view(&self) -> BloomView {
        BloomView {
            bits: self.bit_array@,
            elements: self.num_elements as int,
            set_bits: self.num_set_bits as int,
        }
    }
}

/// A hasher of std with keys of its own, which are chosen at random.
#[verifier::external_body]
fn random_state() -> RandomState {
    RandomState::new()
}

/// The hash of `value` under `state`, as `hash_one` of std's `BuildHasher`
/// computes it. Nothing is said of the hash.
#[verifier::external_body]
fn hash_one<T: ?Sized + Hash>(state: &RandomState, value: &T) -> u64 {
    state.hash_one(value)
}

impl BloomFilter {
    /// The invariant of a filter: it has its five hash functions, and the
    /// hashes that found their bit set are five for each value at most.
    pub closed spec fn wf(&self) -> bool {
        &&& self.hashes.len() == NUM_HASHES
        &&& self.num_u64s == self.bit_array.len()
        &&& self.num_u64s * 64 <= usize::MAX
        &&& self.num_set_bits <= NUM_HASHES * self.num_elements
    }

    /// Creates a BloomFilter with at least `bits` bits, all clear.
    pub fn new(bits: usize) -> (r: Self)
        requires
            bits <= usize::MAX - 63,
        ensures
            r.wf(),
            r@.bits.len() * 64 >= bits,
            r@.bits.len() * 64 < bits + 64,
            r@.elements == 0,
            r@.set_bits == 0,
            forall|i: int| 0 <= i < r@.bits.len() ==> r@.bits[i] == 0,
    {
        let mut hashes: Vec<RandomState> = Vec::new();
        let mut k: usize = 0;
        while k < NUM_HASHES
            invariant
                0 <= k <= NUM_HASHES,
                hashes.len() == k,
            decreases NUM_HASHES - k,
        {
            hashes.push(random_state());
            k = k + 1;
        }
        let num_u64s: usize = (bits + 63) / 64;
        let mut bit_array: Vec<u64> = Vec::new();
        let mut i: usize = 0;
        while i < num_u64s
            invariant
                0 <= i <= num_u64s,
                bit_array.len() == i,
                forall|j: int| 0 <= j < i ==> bit_array@[j] == 0,
            decreases num_u64s - i,
        {
            bit_array.push(0);
            i = i + 1;
        }
        Self { bit_array, num_u64s, num_elements: 0, num_set_bits: 0, hashes }
    }

    /// The amount of elements put into the bloom filter
    pub fn len(&self) -> (r: usize)
        ensures
            r == self@.elements,
    {
        self.num_elements
    }

    /// Whether nothing was put into the bloom filter.
    pub fn is_empty(&self) -> (r: bool)
        ensures
            r == (self@.elements == 0),
    {
        self.len() == 0
    }

    /// The total amount of bits in the bloom filter.
    pub fn bit_len(&self) -> (r: usize)
        requires
            self.wf(),
        ensures
            r == self@.bits.len() * 64,
    {
        self.num_u64s * 64
    }

    /// The number of hashes that found their bit set when they were added.
    pub fn set_bits(&self) -> (r: usize)
        ensures
            r == self@.set_bits,
    {
        self.num_set_bits
    }

    /// The hashes of `value` under the hash functions of the filter. The
    /// hash functions are seeded when the filter is made, so nothing is said
    /// of the hashes but their number.
    pub fn hashes_of<T: ?Sized + Hash>(&self, value: &T) -> (r: Vec<u64>)
        requires
            self.wf(),
        ensures
            r.len() == NUM_HASHES,
    {
        let mut hashes: Vec<u64> = Vec::new();
        let mut k: usize = 0;
        while k < NUM_HASHES
            invariant
                0 <= k <= NUM_HASHES,
                self.hashes.len() == NUM_HASHES,
                hashes.len() == k,
            decreases NUM_HASHES - k,
        {
            hashes.push(hash_one(&self.hashes[k], value));
            k = k + 1;
        }
        hashes
    }

    /// Inserts a value into the bloom filter by its hashes: the bit of each
    /// hash is set.
    pub fn add_hashes(&mut self, hashes: &Vec<u64>)
        requires
            old(self).wf(),
            old(self)@.bits.len() > 0,
            hashes.len() == NUM_HASHES,
            old(self)@.elements < usize::MAX / NUM_HASHES,
        ensures
            final(self).wf(),
            added(old(self)@, final(self)@, hashes@),
    {
        let mut k: usize = 0;
        while k < hashes.len()
            invariant
                0 <= k <= hashes.len(),
                hashes.len() == NUM_HASHES,
                self.hashes.len() == NUM_HASHES,
                self.num_u64s == self.bit_array.len(),
                self.num_u64s == old(self).num_u64s,
                self.num_u64s > 0,
                self.num_u64s * 64 <= usize::MAX,
                self.num_elements == old(self).num_elements,
                old(self).num_set_bits <= NUM_HASHES * old(self).num_elements,
                old(self).num_elements < usize::MAX / NUM_HASHES,
                self.bit_array@ == marked_all(old(self).bit_array@, hashes@, k as int),
                self.num_set_bits == old(self).num_set_bits + collisions(
                    old(self).bit_array@,
                    hashes@,
                    k as int,
                ),
                0 <= collisions(old(self).bit_array@, hashes@, k as int) <= k,
            decreases hashes.len() - k,
        {
            let hash: u64 = hashes[k];
            let word: u64 = hash / 64;
            let bit: u64 = hash % 64;
            let index: usize = (word % (self.num_u64s as u64)) as usize;
            proof {
                lemma_set_bit(self.bit_array@[index as int], bit, bit);
            }
            let found: u64 = (self.bit_array[index] >> bit) & 1;
            if found == 1 {
                self.num_set_bits = self.num_set_bits + 1;
            }
            let updated: u64 = self.bit_array[index] | (1u64 << bit);
            self.bit_array.set(index, updated);
            k = k + 1;
        }
        self.num_elements = self.num_elements + 1;
    }

    /// Whether the bloom filter might contain a value, by its hashes:
    /// whether the bit of each hash is set.
    pub fn contains_hashes(&self, hashes: &Vec<u64>) -> (r: bool)
        requires
            self.wf(),
            self@.bits.len() > 0,
        ensures
            r == all_marked(self@.bits, hashes@),
    {
        let mut k: usize = 0;
        while k < hashes.len()
            invariant
                0 <= k <= hashes.len(),
                self.num_u64s == self.bit_array.len(),
                self.num_u64s > 0,
                forall|j: int| 0 <= j < k ==> is_marked(self.bit_array@, #[trigger] hashes[j]),
            decreases hashes.len() - k,
        {
            let hash: u64 = hashes[k];
            let word: u64 = hash / 64;
            let bit: u64 = hash % 64;
            let index: usize = (word % (self.num_u64s as u64)) as usize;
            if self.bit_array[index] & (1u64 << bit) == 0 {
                return false;
            }
            k = k + 1;
        }
        true
    }

    /// Inserts a value into the bloom filter: the bits of its hashes are set.
    pub fn add<T: ?Sized + Hash>(&mut self, value: &T)
        requires
            old(self).wf(),
            old(self)@.bits.len() > 0,
            old(self)@.elements < usize::MAX / NUM_HASHES,
        ensures
            final(self).wf(),
            final(self)@.bits.len() == old(self)@.bits.len(),
            final(self)@.elements == old(self)@.elements + 1,
            old(self)@.set_bits <= final(self)@.set_bits <= old(self)@.set_bits + NUM_HASHES,
            forall|other: u64|
                is_marked(old(self)@.bits, other) ==> #[trigger] is_marked(final(self)@.bits, other),
            exists|hashes: Seq<u64>| #[trigger] added(old(self)@, final(self)@, hashes),
    {
        let hashes: Vec<u64> = self.hashes_of(value);
        proof {
            lemma_marked_all(self@.bits, hashes@, hashes.len() as int);
        }
        self.add_hashes(&hashes);
        assert(added(old(self)@, self@, hashes@));
    }

    /// Whether the bloom filter might contain `value`: whether the bits of
    /// its hashes are all set.
    ///
    /// This function may return false positives. It returns no false
    /// negatives as long as equal values have equal hashes, which this
    /// contract does not say.
    pub fn contains<T: ?Sized + Hash>(&self, value: &T) -> (r: bool)
        requires
            self.wf(),
            self@.bits.len() > 0,
        ensures
            exists|hashes: Seq<u64>|
                hashes.len() == NUM_HASHES && r == #[trigger] all_marked(self@.bits, hashes),
    {
        let hashes: Vec<u64> = self.hashes_of(value);
        let r: bool = self.contains_hashes(&hashes);
        assert(hashes@.len() == NUM_HASHES && r == all_marked(self@.bits, hashes@));
        r
    }
}

/// No false negatives: a filter that a value was added to by its hashes
/// holds those hashes, and every hash that it held before.
pub proof fn lemma_no_false_negatives(bits: Seq<u64>, hashes: Seq<u64>, other: u64)
    requires
        bits.len() > 0,
    ensures
        all_marked(marked_all(bits, hashes, hashes.len() as int), hashes),
        is_marked(bits, other) ==> is_marked(marked_all(bits, hashes, hashes.len() as int), other),
{
    lemma_marked_all(bits, hashes, hashes.len() as int);
}

} // verus!
