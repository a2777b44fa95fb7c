use super::bits::{
    lemma_bit_and_not_single, lemma_bit_binary, lemma_bit_mask_test, lemma_bit_or_single,
    lemma_bit_zero, lemma_words_equal, word_bit,
};
use core::marker::PhantomData;
use vstd::prelude::*;

verus! {

/// Number of 64-bit words that back every bit array.
pub const WORD_COUNT: usize = 4;

/// Largest number of bits that a bit array can hold.
pub const CAPACITY: usize = 256;

/// Describes one size of bit array.
pub trait BitArraySettings: Copy {
    /// Number of addressable bits.
    spec fn spec_size() -> nat;

    proof fn lemma_size_fits()
        ensures
            Self::spec_size() <= CAPACITY,
    ;

    fn size() -> (r: usize)
        ensures
            r == Self::spec_size(),
    ;
}

/// How the bits selected by a mask are set in a bit array.
#[derive(Clone, Copy, Debug, PartialEq, Eq, Hash, Structural)]
pub enum MaskComparison {
    /// Every bit of the mask is set.
    Equal,
    /// No bit of the mask is set.
    Zero,
    /// Some, but not all, bits of the mask are set.
    Partial,
}

/// Bit `i` of a sequence of 64-bit words.
pub open spec fn bit_of(words: Seq<u64>, i: int) -> bool {
    word_bit(words[i / 64], (i % 64) as u64)
}

/// The set of indices `i < size` for which `indices` holds `i`.
pub open spec fn indices_to_bits(size: nat, indices: Seq<usize>) -> Seq<bool> {
    Seq::new(size, |i: int| indices.contains(i as usize))
}

/// Number of `true` entries of a sequence.
pub open spec fn count_set(s: Seq<bool>) -> nat
    decreases s.len(),
{
    if s.len() == 0 {
        0
    } else {
        count_set(s.drop_last()) + if s.last() {
            1nat
        } else {
            0nat
        }
    }
}

/// The bits that `permutation` sends the set bits of `bits` to: bit `j` is set when
/// some set bit `k` (with `k` a position of `permutation`) has `permutation[k] == j`.
pub open spec fn permuted_bits(bits: Seq<bool>, permutation: Seq<usize>) -> Seq<bool> {
    Seq::new(
        bits.len(),
        |j: int|
            exists|k: int|
                0 <= k < bits.len() && k < permutation.len() && bits[k] && #[trigger] permutation[k]
                    == j,
    )
}

/// Result of comparing `bits` with the bits selected by `mask`.
pub open spec fn mask_comparison(bits: Seq<bool>, mask: Seq<bool>) -> MaskComparison {
    if forall|i: int| 0 <= i < mask.len() && #[trigger] mask[i] ==> bits[i] {
        MaskComparison::Equal
    } else if forall|i: int| 0 <= i < mask.len() && #[trigger] mask[i] ==> !bits[i] {
        MaskComparison::Zero
    } else {
        MaskComparison::Partial
    }
}

/// A fixed-size set of cell indices, stored one bit per index.
#[derive(Copy, Debug, Hash)]
pub struct BitArray<Settings: BitArraySettings> {
    words: [u64; WORD_COUNT],
    settings: PhantomData<Settings>,
}

impl<Settings: BitArraySettings> Clone for BitArray<Settings> {
    fn clone(&self) -> (r: Self)
        ensures
            r == *self,
    {
        *self
    }
}

impl<Settings: BitArraySettings> View for BitArray<Settings> {
    type V = Seq<bool>;

    closed spec fn view(&self) -> Seq<bool> {
        Seq::new(Settings::spec_size(), |i: int| bit_of(self.words@, i))
    }
}

proof fn lemma_update_word_or(words: Seq<u64>, slot: int, w: u64)
    requires
        words.len() == WORD_COUNT,
        0 <= slot < CAPACITY,
        w == words[slot / 64] | (1u64 << ((slot % 64) as u64)),
    ensures
        forall|i: int|
            0 <= i < CAPACITY ==> (#[trigger] bit_of(words.update(slot / 64, w), i) <==> (i == slot
                || bit_of(words, i))),
{
    assert forall|i: int| 0 <= i < CAPACITY implies (#[trigger] bit_of(
        words.update(slot / 64, w),
        i,
    ) <==> (i == slot || bit_of(words, i))) by {
        if i / 64 == slot / 64 {
            lemma_bit_or_single(words[slot / 64], (slot % 64) as u64, (i % 64) as u64);
        }
    }
}

proof fn lemma_update_word_clear(words: Seq<u64>, slot: int, w: u64)
    requires
        words.len() == WORD_COUNT,
        0 <= slot < CAPACITY,
        w == words[slot / 64] & !(1u64 << ((slot % 64) as u64)),
    ensures
        forall|i: int|
            0 <= i < CAPACITY ==> (#[trigger] bit_of(words.update(slot / 64, w), i) <==> (i != slot
                && bit_of(words, i))),
{
    assert forall|i: int| 0 <= i < CAPACITY implies (#[trigger] bit_of(
        words.update(slot / 64, w),
        i,
    ) <==> (i != slot && bit_of(words, i))) by {
        if i / 64 == slot / 64 {
            lemma_bit_and_not_single(words[slot / 64], (slot % 64) as u64, (i % 64) as u64);
        }
    }
}

impl<Settings: BitArraySettings> BitArray<Settings> {
    #[verifier::type_invariant]
    spec fn inv(self) -> bool {
        forall|i: int| Settings::spec_size() <= i < CAPACITY ==> !#[trigger] bit_of(self.words@, i)
    }

    /// The bit array with no bit set.
    /// A bit array holds one entry per addressable bit.
    pub proof fn lemma_len(&self)
        ensures
            self@.len() == Settings::spec_size(),
    {
    }

    pub fn zero() -> (r: Self)
        ensures
            r@ == Seq::new(Settings::spec_size(), |i: int| false),
    {
        let words: [u64; WORD_COUNT] = [0u64, 0u64, 0u64, 0u64];
        proof {
            Settings::lemma_size_fits();
            assert forall|i: int| 0 <= i < CAPACITY implies !#[trigger] bit_of(words@, i) by {
                lemma_bit_zero((i % 64) as u64);
            }
        }
        let r = BitArray { words, settings: PhantomData };
        assert(r@ =~= Seq::new(Settings::spec_size(), |i: int| false));
        r
    }

    /// The bit array whose set bits are exactly the given indices.
    pub fn from_indices(indices: &[usize]) -> (r: Self)
        requires
            forall|k: int| 0 <= k < indices@.len() ==> #[trigger] indices@[k] < Settings::spec_size(),
        ensures
            r@ == indices_to_bits(Settings::spec_size(), indices@),
    {
        let mut result = Self::zero();
        let mut k: usize = 0;
        while k < indices.len()
            invariant
                k <= indices@.len(),
                forall|m: int| 0 <= m < indices@.len() ==> #[trigger] indices@[m] < Settings::spec_size(),
                result@ == indices_to_bits(Settings::spec_size(), indices@.subrange(0, k as int)),
            decreases indices.len() - k,
        {
            let ghost before = result@;
            result.set(indices[k]);
            proof {
                Settings::lemma_size_fits();
                let sub = indices@.subrange(0, k as int);
                let sub1 = indices@.subrange(0, k as int + 1);
                assert(sub1 =~= sub.push(indices@[k as int]));
                assert forall|i: int| 0 <= i < Settings::spec_size() implies #[trigger] result@[i]
                    == sub1.contains(i as usize) by {
                    assert(i as usize as int == i);
                    assert(result@[i] == (before[i] || i == indices@[k as int] as int));
                    if sub.contains(i as usize) {
                        let w = choose|w: int| 0 <= w < sub.len() && sub[w] == i as usize;
                        assert(sub1[w] == i as usize);
                    }
                    if sub1.contains(i as usize) {
                        let w = choose|w: int| 0 <= w < sub1.len() && sub1[w] == i as usize;
                        if w < k {
                            assert(sub[w] == i as usize);
                        }
                    }
                    if i == indices@[k as int] as int {
                        assert(sub1[k as int] == i as usize);
                    }
                }
                assert(result@ =~= indices_to_bits(Settings::spec_size(), sub1));
            }
            k = k + 1;
        }
        assert(indices@.subrange(0, indices@.len() as int) =~= indices@);
        result
    }

    /// Whether the bit at `slot` is set.
    pub fn isset(&self, slot: usize) -> (r: bool)
        requires
            slot < Settings::spec_size(),
        ensures
            r == self@[slot as int],
    {
        proof {
            Settings::lemma_size_fits();
        }
        let index = slot / 64;
        let offset = slot % 64;
        let mask = 1u64 << (offset as u64);
        proof {
            lemma_bit_mask_test(self.words@[index as int], offset as u64);
        }
        self.words[index] & mask == mask
    }

    /// Sets the bit at `slot`.
    pub fn set(&mut self, slot: usize)
        requires
            slot < Settings::spec_size(),
        ensures
            final(self)@ == old(self)@.update(slot as int, true),
    {
        proof {
            Settings::lemma_size_fits();
            use_type_invariant(&*self);
        }
        let index = slot / 64;
        let offset = slot % 64;
        let mut words = self.words;
        let w = words[index] | (1u64 << (offset as u64));
        proof {
            lemma_update_word_or(words@, slot as int, w);
        }
        words[index] = w;
        proof {
            assert(words@ == old(self).words@.update(index as int, w));
        }
        self.words = words;
        assert(self@ =~= old(self)@.update(slot as int, true));
    }

    /// Clears the bit at `slot`.
    pub fn unset(&mut self, slot: usize)
        requires
            slot < Settings::spec_size(),
        ensures
            final(self)@ == old(self)@.update(slot as int, false),
    {
        proof {
            Settings::lemma_size_fits();
            use_type_invariant(&*self);
        }
        let index = slot / 64;
        let offset = slot % 64;
        let mut words = self.words;
        let w = words[index] & !(1u64 << (offset as u64));
        proof {
            lemma_update_word_clear(words@, slot as int, w);
        }
        words[index] = w;
        proof {
            assert(words@ == old(self).words@.update(index as int, w));
        }
        self.words = words;
        assert(self@ =~= old(self)@.update(slot as int, false));
    }
    /// The bit array whose bit `permutation[k]` is set for each set bit `k`.
    pub fn swap(&self, permutation: &[usize]) -> (r: Self)
        requires
            forall|k: int|
                0 <= k < Settings::spec_size() && k < permutation@.len() && #[trigger] self@[k]
                    ==> permutation@[k] < Settings::spec_size(),
        ensures
            r@ == permuted_bits(self@, permutation@),
    {
        let size = Settings::size();
        let count = if permutation.len() < size {
            permutation.len()
        } else {
            size
        };
        let mut result = Self::zero();
        let mut k: usize = 0;
        while k < count
            invariant
                k <= count,
                size == Settings::spec_size(),
                count <= size,
                count <= permutation@.len(),
                count == permutation@.len() || count == size,
                forall|m: int|
                    0 <= m < Settings::spec_size() && m < permutation@.len() && #[trigger] self@[m]
                        ==> permutation@[m] < Settings::spec_size(),
                result@.len() == size,
                forall|j: int|
                    0 <= j < size ==> #[trigger] result@[j] == exists|m: int|
                        0 <= m < k && self@[m] && #[trigger] permutation@[m] == j,
            decreases count - k,
        {
            if self.isset(k) {
                result.set(permutation[k]);
            }
            proof {
                assert forall|j: int| 0 <= j < size implies #[trigger] result@[j] == exists|m: int|
                    0 <= m < k + 1 && self@[m] && #[trigger] permutation@[m] == j by {
                    if self@[k as int] && permutation@[k as int] == j {
                        assert(0 <= k < k + 1 && self@[k as int] && permutation@[k as int] == j);
                    }
                }
            }
            k = k + 1;
        }
        assert(result@ =~= permuted_bits(self@, permutation@));
        result
    }

    /// Compares the bits selected by `mask` with those of `self`.
    pub fn compare_with_mask(&self, mask: &Self) -> (r: MaskComparison)
        ensures
            r == mask_comparison(self@, mask@),
    {
        let size = Settings::size();
        let mut is_zero = true;
        let mut is_equal = true;
        let mut i: usize = 0;
        while i < size
            invariant
                i <= size,
                size == Settings::spec_size(),
                self@.len() == size,
                mask@.len() == size,
                is_equal == forall|m: int| 0 <= m < i && #[trigger] mask@[m] ==> self@[m],
                is_zero == forall|m: int| 0 <= m < i && #[trigger] mask@[m] ==> !self@[m],
            decreases size - i,
        {
            if mask.isset(i) {
                if self.isset(i) {
                    is_zero = false;
                } else {
                    is_equal = false;
                }
            }
            i = i + 1;
        }
        if is_equal {
            MaskComparison::Equal
        } else if is_zero {
            MaskComparison::Zero
        } else {
            MaskComparison::Partial
        }
    }

    /// Number of set bits.
    pub fn count_ones(&self) -> (r: u32)
        ensures
            r == count_set(self@),
    {
        proof {
            Settings::lemma_size_fits();
        }
        let size = Settings::size();
        let mut count: u32 = 0;
        let mut i: usize = 0;
        while i < size
            invariant
                i <= size,
                size == Settings::spec_size(),
                size <= CAPACITY,
                self@.len() == size,
                count <= i,
                count == count_set(self@.subrange(0, i as int)),
            decreases size - i,
        {
            proof {
                assert(self@.subrange(0, i + 1).drop_last() =~= self@.subrange(0, i as int));
            }
            if self.isset(i) {
                count = count + 1;
            }
            i = i + 1;
        }
        assert(self@.subrange(0, size as int) =~= self@);
        count
    }

    /// Bitwise conjunction: the bits set in both arrays.
    pub fn bitand(&self, rhs: &Self) -> (r: Self)
        ensures
            r@ == Seq::new(Settings::spec_size(), |i: int| self@[i] && rhs@[i]),
    {
        proof {
            use_type_invariant(self);
            use_type_invariant(rhs);
            Settings::lemma_size_fits();
        }
        let words: [u64; WORD_COUNT] = [
            self.words[0] & rhs.words[0],
            self.words[1] & rhs.words[1],
            self.words[2] & rhs.words[2],
            self.words[3] & rhs.words[3],
        ];
        proof {
            assert forall|i: int| 0 <= i < CAPACITY implies #[trigger] bit_of(words@, i) == (bit_of(
                self.words@,
                i,
            ) && bit_of(rhs.words@, i)) by {
                lemma_bit_binary(self.words@[i / 64], rhs.words@[i / 64], (i % 64) as u64);
            }
        }
        let r = BitArray { words, settings: PhantomData };
        assert(r@ =~= Seq::new(Settings::spec_size(), |i: int| self@[i] && rhs@[i]));
        r
    }

    /// Bitwise disjunction: the bits set in either array.
    pub fn bitor(&self, rhs: &Self) -> (r: Self)
        ensures
            r@ == Seq::new(Settings::spec_size(), |i: int| self@[i] || rhs@[i]),
    {
        proof {
            use_type_invariant(self);
            use_type_invariant(rhs);
            Settings::lemma_size_fits();
        }
        let words: [u64; WORD_COUNT] = [
            self.words[0] | rhs.words[0],
            self.words[1] | rhs.words[1],
            self.words[2] | rhs.words[2],
            self.words[3] | rhs.words[3],
        ];
        proof {
            assert forall|i: int| 0 <= i < CAPACITY implies #[trigger] bit_of(words@, i) == (bit_of(
                self.words@,
                i,
            ) || bit_of(rhs.words@, i)) by {
                lemma_bit_binary(self.words@[i / 64], rhs.words@[i / 64], (i % 64) as u64);
            }
        }
        let r = BitArray { words, settings: PhantomData };
        assert(r@ =~= Seq::new(Settings::spec_size(), |i: int| self@[i] || rhs@[i]));
        r
    }

    /// Bitwise exclusive disjunction: the bits set in exactly one of the arrays.
    pub fn bitxor(&self, rhs: &Self) -> (r: Self)
        ensures
            r@ == Seq::new(Settings::spec_size(), |i: int| self@[i] != rhs@[i]),
    {
        proof {
            use_type_invariant(self);
            use_type_invariant(rhs);
            Settings::lemma_size_fits();
        }
        let words: [u64; WORD_COUNT] = [
            self.words[0] ^ rhs.words[0],
            self.words[1] ^ rhs.words[1],
            self.words[2] ^ rhs.words[2],
            self.words[3] ^ rhs.words[3],
        ];
        proof {
            assert forall|i: int| 0 <= i < CAPACITY implies #[trigger] bit_of(words@, i) == (bit_of(
                self.words@,
                i,
            ) != bit_of(rhs.words@, i)) by {
                lemma_bit_binary(self.words@[i / 64], rhs.words@[i / 64], (i % 64) as u64);
            }
        }
        let r = BitArray { words, settings: PhantomData };
        assert(r@ =~= Seq::new(Settings::spec_size(), |i: int| self@[i] != rhs@[i]));
        r
    }
}

impl<Settings: BitArraySettings> PartialEq for BitArray<Settings> {
    fn eq(&self, other: &Self) -> (r: bool) {
        proof {
            use_type_invariant(self);
            use_type_invariant(other);
            Settings::lemma_size_fits();
        }
        let r = self.words[0] == other.words[0] && self.words[1] == other.words[1]
            && self.words[2] == other.words[2] && self.words[3] == other.words[3];
        proof {
            if r {
                assert(self.words@ =~= other.words@);
                assert(self@ =~= other@);
            }
            if self@ == other@ {
                assert forall|w: int| 0 <= w < WORD_COUNT implies self.words@[w]
                    == other.words@[w] by {
                    assert forall|j: u64| j < 64 implies (#[trigger] word_bit(self.words@[w], j)
                        <==> word_bit(other.words@[w], j)) by {
                        let i = 64 * w + j;
                        assert(i / 64 == w && i % 64 == j);
                        if i < Settings::spec_size() {
                            assert(self@[i] == other@[i]);
                        } else {
                            assert(!bit_of(self.words@, i));
                            assert(!bit_of(other.words@, i));
                        }
                    }
                    lemma_words_equal(self.words@[w], other.words@[w]);
                }
            }
        }
        r
    }
}

impl<Settings: BitArraySettings> vstd::std_specs::cmp::PartialEqSpecImpl for BitArray<Settings> {
    open spec fn obeys_eq_spec() -> bool {
        true
    }

    open spec fn eq_spec(&self, other: &Self) -> bool {
        self@ == other@
    }
}

impl<Settings: BitArraySettings> Eq for BitArray<Settings> {

}

} // verus!
