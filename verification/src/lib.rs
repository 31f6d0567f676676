pub mod bitset;

use vstd::prelude::*;

verus! {

use crate::bitset::Bitset;
use std::collections::hash_map::DefaultHasher;
use std::hash::Hasher;
use vstd::std_specs::hash::DefaultHasherAdditionalSpecFns;
use vstd::bytes::spec_u64_to_le_bytes;
use vstd::bytes::u64_to_le_bytes;
use vstd::arithmetic::mul::lemma_mul_inequality;
use vstd::wrapping::u64_specs;

/// Abstract state of a Bloom filter: the bit array, the two sizing
/// parameters fixed at construction, the number of insertions so far,
/// and the seed that primes every digest computation.
#[verifier::ext_equal]
pub ghost struct FilterView {
    pub bits: Seq<bool>,
    pub hash_count: nat,
    pub capacity: nat,
    pub element_count: nat,
    pub seed: u64,
}

/// First 64-bit digest of an item: a fresh hasher primed with the seed,
/// then fed the item's bytes.
pub open spec fn digest_a(seed: u64, data: Seq<u8>) -> u64 {
    DefaultHasher::spec_finish(seq![spec_u64_to_le_bytes(seed), data])
}

/// Second digest: a fresh hasher primed with the seed, then fed the bytes
/// of the first digest.
pub open spec fn digest_b(seed: u64, data: Seq<u8>) -> u64 {
    DefaultHasher::spec_finish(
        seq![spec_u64_to_le_bytes(seed), spec_u64_to_le_bytes(digest_a(seed, data))],
    )
}

/// Double-hashing index formula: hash slot `i` touches bit
/// `i * capacity + ((hash_a + i) * hash_b) mod capacity`, with the inner
/// arithmetic wrapping at 64 bits. The `i * capacity` offset keeps each
/// slot inside its own segment of the bit array.
pub open spec fn spec_index(i: int, capacity: int, hash_a: u64, hash_b: u64) -> int {
    i * capacity + u64_specs::wrapping_mul(u64_specs::wrapping_add(hash_a, i as u64), hash_b) % (
    capacity as u64)
}

/// The bit array after one insertion with digests `(hash_a, hash_b)`:
/// every bit keeps its old value, and the `hash_count` indexed bits are set.
pub open spec fn bits_after_insert(
    bits: Seq<bool>,
    hash_count: nat,
    capacity: nat,
    hash_a: u64,
    hash_b: u64,
) -> Seq<bool> {
    Seq::new(
        bits.len(),
        |j: int|
            bits[j] || (exists|i: int|
                0 <= i < hash_count && j == #[trigger] spec_index(
                    i,
                    capacity as int,
                    hash_a,
                    hash_b,
                )),
    )
}

/// Whether every bit addressed by the digests `(hash_a, hash_b)` is set.
pub open spec fn contains_digests(
    bits: Seq<bool>,
    hash_count: nat,
    capacity: nat,
    hash_a: u64,
    hash_b: u64,
) -> bool {
    forall|i: int|
        0 <= i < hash_count ==> bits[#[trigger] spec_index(i, capacity as int, hash_a, hash_b)]
}

impl FilterView {
    /// Well-formed filter state: at least one hash slot, a non-empty
    /// segment per slot, both parameters machine-representable, and a bit
    /// array that is exactly the `hash_count` segments laid end to end.
    pub open spec fn wf(self) -> bool {
        &&& self.hash_count >= 1
        &&& self.capacity >= 1
        &&& self.hash_count <= usize::MAX
        &&& self.capacity <= usize::MAX
        &&& self.bits.len() == self.hash_count * self.capacity
    }

    /// State reached by inserting one item.
    pub open spec fn spec_insert(self, data: Seq<u8>) -> FilterView {
        FilterView {
            bits: bits_after_insert(
                self.bits,
                self.hash_count,
                self.capacity,
                digest_a(self.seed, data),
                digest_b(self.seed, data),
            ),
            hash_count: self.hash_count,
            capacity: self.capacity,
            element_count: (self.element_count + 1) as nat,
            seed: self.seed,
        }
    }

    /// Whether a query for `data` reports "possibly present".
    pub open spec fn spec_contains(self, data: Seq<u8>) -> bool {
        contains_digests(
            self.bits,
            self.hash_count,
            self.capacity,
            digest_a(self.seed, data),
            digest_b(self.seed, data),
        )
    }

    /// State reached by inserting a whole sequence of items, in order.
    pub open spec fn spec_insert_all(self, items: Seq<Seq<u8>>) -> FilterView
        decreases items.len(),
    {
        if items.len() == 0 {
            self
        } else {
            self.spec_insert(items[0]).spec_insert_all(items.drop_first())
        }
    }
}

/// A Bloom filter: answers "possibly present" or "definitely absent" for
/// a stream of inserted byte strings, never producing a false negative.
#[derive(Debug)]
pub struct BloomFilter {
    hits: Bitset,
    hash_count: usize,
    capacity: usize,
    element_count: usize,
    seed: u64,
}

impl View for BloomFilter {
    type V = FilterView;

    closed spec fn view(&self) -> FilterView {
        FilterView {
            bits: self.hits@,
            hash_count: self.hash_count as nat,
            capacity: self.capacity as nat,
            element_count: self.element_count as nat,
            seed: self.seed,
        }
    }
}

impl BloomFilter {
    /// Well-formed filter: the abstract state is well-formed and the bit
    /// storage has the right shape.
    pub closed spec fn wf(&self) -> bool {
        &&& self.hits.wf()
        &&& self.hash_count >= 1
        &&& self.capacity >= 1
        &&& self.hits@.len() == self.hash_count * self.capacity
    }

    /// Derives the two 64-bit digests for `data`, exactly as `insert` and
    /// `check` do: each digest comes from a fresh hasher, so no state leaks
    /// between calls.
    pub fn generate_hashes(&self, data: &[u8]) -> (r: (u64, u64))
        ensures
            r.0 == digest_a(self@.seed, data@),
            r.1 == digest_b(self@.seed, data@),
    {
        let seed_bytes: Vec<u8> = u64_to_le_bytes(self.seed);
        let mut hasher = DefaultHasher::new();
        hasher.write(seed_bytes.as_slice());
        hasher.write(data);
        let hash_a: u64 = hasher.finish();
        proof {
            assert(hasher@ =~= seq![spec_u64_to_le_bytes(self.seed), data@]);
        }
        let hash_a_bytes: Vec<u8> = u64_to_le_bytes(hash_a);
        let mut second_hasher = DefaultHasher::new();
        second_hasher.write(seed_bytes.as_slice());
        second_hasher.write(hash_a_bytes.as_slice());
        let hash_b: u64 = second_hasher.finish();
        proof {
            assert(second_hasher@ =~= seq![
                spec_u64_to_le_bytes(self.seed),
                spec_u64_to_le_bytes(hash_a),
            ]);
        }
        (hash_a, hash_b)
    }

    /// Bit index touched by hash slot `i`: always lands inside segment `i`.
    pub fn index(i: usize, capacity: usize, hash_a: u64, hash_b: u64) -> (r: usize)
        requires
            capacity >= 1,
            (i + 1) * capacity <= usize::MAX,
        ensures
            r == spec_index(i as int, capacity as int, hash_a, hash_b),
            i * capacity <= r < (i + 1) * capacity,
    {
        let combined: u64 = hash_a.wrapping_add(i as u64).wrapping_mul(hash_b);
        let offset: u64 = combined % (capacity as u64);
        proof {
            assert((i + 1) * capacity == i * capacity + capacity) by (nonlinear_arith);
            assert(i * capacity >= 0) by (nonlinear_arith)
                requires
                    i >= 0,
                    capacity >= 1,
            ;
        }
        i * capacity + (offset as usize)
    }

    /// Builds a filter with the given hash count and per-hash segment
    /// length, priming every digest with `seed`. All bits start false.
    pub fn with_params_and_seed(hash_count: usize, per_hash_span: usize, seed: u64) -> (r: Self)
        requires
            hash_count >= 1,
            per_hash_span >= 1,
            hash_count * per_hash_span <= usize::MAX,
        ensures
            r.wf(),
            r@ == (FilterView {
                bits: Seq::new((hash_count * per_hash_span) as nat, |j: int| false),
                hash_count: hash_count as nat,
                capacity: per_hash_span as nat,
                element_count: 0,
                seed,
            }),
    {
        proof {
            assert(hash_count * per_hash_span >= 1) by (nonlinear_arith)
                requires
                    hash_count >= 1,
                    per_hash_span >= 1,
            ;
        }
        let total: usize = hash_count * per_hash_span;
        let hits = Bitset::new(total);
        BloomFilter { hits, hash_count, capacity: per_hash_span, element_count: 0, seed }
    }

    /// Builds a filter with the deterministic default hashing: the seed is
    /// fixed at zero, so equal insert sequences give bit-for-bit equal
    /// filters in every run.
    pub fn with_params(hash_count: usize, per_hash_span: usize) -> (r: Self)
        requires
            hash_count >= 1,
            per_hash_span >= 1,
            hash_count * per_hash_span <= usize::MAX,
        ensures
            r.wf(),
            r@ == (FilterView {
                bits: Seq::new((hash_count * per_hash_span) as nat, |j: int| false),
                hash_count: hash_count as nat,
                capacity: per_hash_span as nat,
                element_count: 0,
                seed: 0u64,
            }),
    {
        Self::with_params_and_seed(hash_count, per_hash_span, 0)
    }

    /// Inserts an item: sets one bit per hash slot and counts the insertion.
    pub fn insert(&mut self, data: &[u8])
        requires
            old(self).wf(),
            old(self)@.element_count < usize::MAX,
        ensures
            final(self).wf(),
            final(self)@ == old(self)@.spec_insert(data@),
    {
        let (hash_a, hash_b) = self.generate_hashes(data);
        let hash_count = self.hash_count;
        let capacity = self.capacity;
        let ghost len = self.hits@.len();
        proof {
            self.hits.lemma_view_len_bound();
        }
        let mut i: usize = 0;
        while i < hash_count
            invariant
                i <= hash_count,
                hash_count == self.hash_count,
                capacity == self.capacity,
                self.hash_count == old(self).hash_count,
                self.capacity == old(self).capacity,
                self.element_count == old(self).element_count,
                self.seed == old(self).seed,
                self.wf(),
                self.hits@.len() == len,
                len == hash_count * capacity,
                len <= usize::MAX,
                forall|j: int|
                    0 <= j < len ==> self.hits@[j] == (old(self).hits@[j] || (exists|i2: int|
                        0 <= i2 < i && j == #[trigger] spec_index(
                            i2,
                            capacity as int,
                            hash_a,
                            hash_b,
                        ))),
            decreases hash_count - i,
        {
            proof {
                lemma_mul_inequality(i as int + 1, hash_count as int, capacity as int);
            }
            let ghost before = self.hits@;
            let idx = Self::index(i, capacity, hash_a, hash_b);
            self.hits.set(idx, true);
            proof {
                assert forall|j: int|
                    0 <= j < len implies self.hits@[j] == (old(self).hits@[j] || (exists|i2: int|
                        0 <= i2 < i + 1 && j == #[trigger] spec_index(
                            i2,
                            capacity as int,
                            hash_a,
                            hash_b,
                        ))) by {
                    if j == idx {
                        assert(idx as int == spec_index(i as int, capacity as int, hash_a, hash_b));
                        assert(exists|i2: int|
                            0 <= i2 < i + 1 && j == #[trigger] spec_index(
                                i2,
                                capacity as int,
                                hash_a,
                                hash_b,
                            ));
                    } else {
                        assert(self.hits@[j] == before[j]);
                    }
                }
            }
            i += 1;
        }
        self.element_count = self.element_count + 1;
        proof {
            let a = digest_a(old(self)@.seed, data@);
            let b = digest_b(old(self)@.seed, data@);
            assert(self.hits@ =~= bits_after_insert(
                old(self).hits@,
                old(self)@.hash_count,
                old(self)@.capacity,
                a,
                b,
            ));
            assert(self@ =~= old(self)@.spec_insert(data@));
        }
    }

    /// Queries an item: true means "possibly present", false means
    /// "definitely absent". Short-circuits on the first unset bit.
    pub fn check(&self, data: &[u8]) -> (r: bool)
        requires
            self.wf(),
        ensures
            r == self@.spec_contains(data@),
    {
        let (hash_a, hash_b) = self.generate_hashes(data);
        let hash_count = self.hash_count;
        let capacity = self.capacity;
        proof {
            self.hits.lemma_view_len_bound();
        }
        let mut i: usize = 0;
        while i < hash_count
            invariant
                i <= hash_count,
                hash_count == self.hash_count,
                capacity == self.capacity,
                self.wf(),
                hash_a == digest_a(self@.seed, data@),
                hash_b == digest_b(self@.seed, data@),
                self.hits@.len() <= usize::MAX,
                forall|i2: int|
                    0 <= i2 < i ==> self.hits@[#[trigger] spec_index(
                        i2,
                        capacity as int,
                        hash_a,
                        hash_b,
                    )],
            decreases hash_count - i,
        {
            proof {
                lemma_mul_inequality(i as int + 1, hash_count as int, capacity as int);
            }
            let idx = Self::index(i, capacity, hash_a, hash_b);
            if !self.hits.get(idx) {
                proof {
                    assert(!self.hits@[spec_index(i as int, capacity as int, hash_a, hash_b)]);
                }
                return false;
            }
            i += 1;
        }
        true
    }

    /// Number of hash slots, fixed at construction.
    pub fn hash_count(&self) -> (r: usize)
        ensures
            r == self@.hash_count,
    {
        self.hash_count
    }

    /// Bit positions allocated per hash slot, fixed at construction.
    pub fn per_hash_span(&self) -> (r: usize)
        ensures
            r == self@.capacity,
    {
        self.capacity
    }

    /// Number of insertions performed so far.
    pub fn element_count(&self) -> (r: usize)
        ensures
            r == self@.element_count,
    {
        self.element_count
    }

    /// Total length of the bit array.
    pub fn bit_count(&self) -> (r: usize)
        ensures
            r == self@.bits.len(),
    {
        self.hits.len()
    }

    /// Reads one bit of the underlying array.
    pub fn bit_at(&self, index: usize) -> (r: bool)
        requires
            self.wf(),
            index < self@.bits.len(),
        ensures
            r == self@.bits[index as int],
    {
        self.hits.get(index)
    }
}

/// Index partition: for every hash slot `i` and every digest pair, the
/// double-hashing formula lands inside segment `i`, the half-open range
/// `[i * capacity, (i + 1) * capacity)`.
pub proof fn lemma_index_partition(i: int, capacity: int, hash_a: u64, hash_b: u64)
    requires
        0 <= i,
        1 <= capacity <= u64::MAX,
    ensures
        i * capacity <= spec_index(i, capacity, hash_a, hash_b) < (i + 1) * capacity,
{
    let offset = u64_specs::wrapping_mul(u64_specs::wrapping_add(hash_a, i as u64), hash_b) as int
        % (capacity as u64) as int;
    assert(0 <= offset < capacity);
    assert((i + 1) * capacity == i * capacity + capacity) by (nonlinear_arith);
    assert(i * capacity >= 0) by (nonlinear_arith)
        requires
            i >= 0,
            capacity >= 1,
    ;
}

/// Every index a digest pair addresses in a well-formed state lies inside
/// the bit array.
proof fn lemma_index_in_bounds(v: FilterView, i: int, hash_a: u64, hash_b: u64)
    requires
        v.wf(),
        0 <= i < v.hash_count,
    ensures
        0 <= spec_index(i, v.capacity as int, hash_a, hash_b) < v.bits.len(),
{
    lemma_index_partition(i, v.capacity as int, hash_a, hash_b);
    lemma_mul_inequality(i + 1, v.hash_count as int, v.capacity as int);
}

/// Inserting an item preserves well-formedness: the bit array keeps its
/// length and the sizing parameters never change.
pub proof fn lemma_insert_preserves_wf(v: FilterView, data: Seq<u8>)
    requires
        v.wf(),
    ensures
        v.spec_insert(data).wf(),
{
}

/// Bits are monotonic: a bit that is set is never cleared by an insertion.
pub proof fn lemma_bits_monotonic(v: FilterView, data: Seq<u8>, j: int)
    requires
        v.wf(),
        0 <= j < v.bits.len(),
        v.bits[j],
    ensures
        v.spec_insert(data).bits[j],
{
}

/// An item just inserted is reported "possibly present".
pub proof fn lemma_insert_establishes_membership(v: FilterView, data: Seq<u8>)
    requires
        v.wf(),
    ensures
        v.spec_insert(data).spec_contains(data),
{
    let a = digest_a(v.seed, data);
    let b = digest_b(v.seed, data);
    let w = v.spec_insert(data);
    assert forall|i: int| 0 <= i < w.hash_count implies w.bits[#[trigger] spec_index(
        i,
        w.capacity as int,
        a,
        b,
    )] by {
        lemma_index_in_bounds(v, i, a, b);
    }
}

/// A membership verdict survives later insertions: inserting `other`
/// cannot make a previously positive query for `data` negative.
pub proof fn lemma_insert_preserves_membership(v: FilterView, data: Seq<u8>, other: Seq<u8>)
    requires
        v.wf(),
        v.spec_contains(data),
    ensures
        v.spec_insert(other).spec_contains(data),
{
    let a = digest_a(v.seed, data);
    let b = digest_b(v.seed, data);
    let w = v.spec_insert(other);
    assert forall|i: int| 0 <= i < w.hash_count implies w.bits[#[trigger] spec_index(
        i,
        w.capacity as int,
        a,
        b,
    )] by {
        lemma_index_in_bounds(v, i, a, b);
        assert(v.bits[spec_index(i, v.capacity as int, a, b)]);
    }
}

/// Inserting a sequence of items preserves well-formedness.
pub proof fn lemma_insert_all_preserves_wf(v: FilterView, items: Seq<Seq<u8>>)
    requires
        v.wf(),
    ensures
        v.spec_insert_all(items).wf(),
    decreases items.len(),
{
    if items.len() > 0 {
        lemma_insert_preserves_wf(v, items[0]);
        lemma_insert_all_preserves_wf(v.spec_insert(items[0]), items.drop_first());
    }
}

/// A membership verdict survives a whole sequence of later insertions.
pub proof fn lemma_insert_all_preserves_membership(
    v: FilterView,
    data: Seq<u8>,
    items: Seq<Seq<u8>>,
)
    requires
        v.wf(),
        v.spec_contains(data),
    ensures
        v.spec_insert_all(items).spec_contains(data),
    decreases items.len(),
{
    if items.len() > 0 {
        lemma_insert_preserves_membership(v, data, items[0]);
        lemma_insert_preserves_wf(v, items[0]);
        lemma_insert_all_preserves_membership(v.spec_insert(items[0]), data, items.drop_first());
    }
}

/// No false negatives: after inserting any sequence of items into a
/// well-formed filter, a query for each of those items is "possibly
/// present", whatever else was inserted before or after it.
pub proof fn lemma_no_false_negatives(v: FilterView, items: Seq<Seq<u8>>, idx: int)
    requires
        v.wf(),
        0 <= idx < items.len(),
    ensures
        v.spec_insert_all(items).spec_contains(items[idx]),
    decreases items.len(),
{
    let w = v.spec_insert(items[0]);
    lemma_insert_preserves_wf(v, items[0]);
    if idx == 0 {
        lemma_insert_establishes_membership(v, items[0]);
        lemma_insert_all_preserves_membership(w, items[0], items.drop_first());
    } else {
        lemma_no_false_negatives(w, items.drop_first(), idx - 1);
        assert(items.drop_first()[idx - 1] == items[idx]);
    }
}

/// Empty filter: a freshly constructed filter, whose bits are all false,
/// answers "definitely absent" for every item.
pub proof fn lemma_empty_filter_rejects_all(v: FilterView, data: Seq<u8>)
    requires
        v.wf(),
        forall|j: int| 0 <= j < v.bits.len() ==> !v.bits[j],
    ensures
        !v.spec_contains(data),
{
    let a = digest_a(v.seed, data);
    let b = digest_b(v.seed, data);
    lemma_index_in_bounds(v, 0, a, b);
    assert(!v.bits[spec_index(0, v.capacity as int, a, b)]);
}

/// Determinism: the state after an insert sequence is a function of the
/// starting state and the items alone, so two filters in equal states —
/// for instance, two freshly constructed with the same parameters and
/// seed — stay bit-for-bit equal under the same insert sequence.
pub proof fn lemma_determinism(v1: FilterView, v2: FilterView, items: Seq<Seq<u8>>)
    requires
        v1 == v2,
    ensures
        v1.spec_insert_all(items) == v2.spec_insert_all(items),
{
}

/// The element count after an insert sequence is the old count plus the
/// number of items inserted; in particular it never decreases, and with it
/// the load factor that drives the false-positive estimate only grows.
pub proof fn lemma_element_count_after_inserts(v: FilterView, items: Seq<Seq<u8>>)
    ensures
        v.spec_insert_all(items).element_count == v.element_count + items.len(),
    decreases items.len(),
{
    if items.len() > 0 {
        lemma_element_count_after_inserts(v.spec_insert(items[0]), items.drop_first());
    }
}

} // verus!
