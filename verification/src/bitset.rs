use vstd::prelude::*;

verus! {

/// Whether bit `k` of `block` is set (`k` must be below 64).
pub open spec fn nth_bit(block: u64, k: u64) -> bool {
    (block >> k) & 1 == 1
}

/// Number of 64-bit blocks needed to hold `n` bits.
pub open spec fn block_count(n: nat) -> nat {
    n / 64 + if n % 64 == 0 {
        0nat
    } else {
        1nat
    }
}

/// A fixed-length array of bits, packed 64 to a block. The length is set
/// once at construction and never changes; bits are read and written one
/// at a time by index.
#[derive(Debug)]
pub struct Bitset {
    blocks: Vec<u64>,
    length: usize,
}

impl View for Bitset {
    type V = Seq<bool>;

    closed spec fn view(&self) -> Seq<bool> {
        Seq::new(self.length as nat, |i: int| nth_bit(self.blocks@[i / 64], (i % 64) as u64))
    }
}

proof fn lemma_nth_bit_of_zero(k: u64)
    by (bit_vector)
    requires
        k < 64,
    ensures
        !nth_bit(0u64, k),
{
}

proof fn lemma_set_bit(block: u64, s: u64, t: u64)
    by (bit_vector)
    requires
        s < 64,
        t < 64,
    ensures
        nth_bit(block | (1u64 << s), t) == (s == t || nth_bit(block, t)),
{
}

proof fn lemma_clear_bit(block: u64, s: u64, t: u64)
    by (bit_vector)
    requires
        s < 64,
        t < 64,
    ensures
        nth_bit(block & !(1u64 << s), t) == (s != t && nth_bit(block, t)),
{
}

/// A bit index below `n` lands in a block index below `block_count(n)`.
proof fn lemma_block_index_in_range(i: nat, n: nat)
    requires
        i < n,
    ensures
        i / 64 < block_count(n),
{
    assert(i / 64 < block_count(n)) by (nonlinear_arith)
        requires
            i < n,
    {
        assert(64 * (i / 64) + i % 64 == i);
        assert(64 * (n / 64) + n % 64 == n);
    }
}

/// Two bit indices with the same block index and the same offset are equal.
proof fn lemma_same_slot(i: nat, j: nat)
    requires
        i / 64 == j / 64,
        i % 64 == j % 64,
    ensures
        i == j,
{
    assert(64 * (i / 64) + i % 64 == i) by (nonlinear_arith);
    assert(64 * (j / 64) + j % 64 == j) by (nonlinear_arith);
}

impl Bitset {
    /// Internal shape: exactly enough blocks for `length` bits.
    pub closed spec fn wf(&self) -> bool {
        self.blocks@.len() == block_count(self.length as nat)
    }

    /// The view has one entry per allocated bit, so its length fits a `usize`.
    pub proof fn lemma_view_len_bound(&self)
        ensures
            self@.len() <= usize::MAX,
    {
    }

    /// Allocates storage for `length` bits, all initially false.
    pub fn new(length: usize) -> (r: Bitset)
        requires
            length >= 1,
        ensures
            r.wf(),
            r@ == Seq::new(length as nat, |i: int| false),
    {
        let whole_blocks: usize = length / 64;
        let needed: usize = if length % 64 == 0 {
            whole_blocks
        } else {
            whole_blocks + 1
        };
        let mut blocks: Vec<u64> = Vec::new();
        let mut i: usize = 0;
        while i < needed
            invariant
                i <= needed,
                blocks@.len() == i as nat,
                forall|j: int| 0 <= j < i ==> blocks@[j] == 0u64,
            decreases needed - i,
        {
            blocks.push(0u64);
            i += 1;
        }
        let r = Bitset { blocks, length };
        proof {
            assert forall|j: int| 0 <= j < length implies !nth_bit(
                #[trigger] r.blocks@[j / 64],
                (j % 64) as u64,
            ) by {
                lemma_block_index_in_range(j as nat, length as nat);
                lemma_nth_bit_of_zero((j % 64) as u64);
            }
            assert(r@ =~= Seq::new(length as nat, |i: int| false));
        }
        r
    }

    /// Number of bits the storage was created with.
    pub fn len(&self) -> (r: usize)
        ensures
            r == self@.len(),
    {
        self.length
    }

    /// Reads the bit at `index`.
    pub fn get(&self, index: usize) -> (r: bool)
        requires
            self.wf(),
            index < self@.len(),
        ensures
            r == self@[index as int],
    {
        proof {
            lemma_block_index_in_range(index as nat, self.length as nat);
        }
        let block: u64 = self.blocks[index / 64];
        (block >> ((index % 64) as u64)) & 1 == 1
    }

    /// Sets the bit at `index` to `value`.
    pub fn set(&mut self, index: usize, value: bool)
        requires
            old(self).wf(),
            index < old(self)@.len(),
        ensures
            final(self).wf(),
            final(self)@ == old(self)@.update(index as int, value),
    {
        proof {
            lemma_block_index_in_range(index as nat, self.length as nat);
        }
        let block_index: usize = index / 64;
        let shift: u64 = (index % 64) as u64;
        let block: u64 = self.blocks[block_index];
        let updated: u64 = if value {
            block | (1u64 << shift)
        } else {
            block & !(1u64 << shift)
        };
        self.blocks[block_index] = updated;
        proof {
            assert forall|j: int| 0 <= j < self.length implies self@[j] == old(self)@.update(
                index as int,
                value,
            )[j] by {
                let s = (index % 64) as u64;
                let t = (j % 64) as u64;
                if j / 64 == index as int / 64 {
                    if value {
                        lemma_set_bit(block, s, t);
                    } else {
                        lemma_clear_bit(block, s, t);
                    }
                    if s == t {
                        lemma_same_slot(index as nat, j as nat);
                    }
                } else {
                    assert(self.blocks@[j / 64] == old(self).blocks@[j / 64]);
                }
            }
            assert(self@ =~= old(self)@.update(index as int, value));
        }
    }
}

} // verus!
