use vstd::prelude::*;
use vstd::std_specs::bits::{axiom_u64_trailing_zeros, u64_trailing_zeros};

verus! {

/// Whether bit `j` of the word `w` is set.
pub open spec fn word_bit(w: u64, j: u64) -> bool {
    (w >> j) & 1u64 == 1u64
}

pub proof fn lemma_bit_or_single(w: u64, k: u64, j: u64)
    requires
        k < 64,
        j < 64,
    ensures
        word_bit(w | (1u64 << k), j) <==> (j == k || word_bit(w, j)),
{
    assert(((w | (1u64 << k)) >> j) & 1u64 == 1u64 <==> (j == k || (w >> j) & 1u64 == 1u64))
        by (bit_vector)
        requires
            k < 64,
            j < 64,
    ;
}

pub proof fn lemma_words_equal(a: u64, b: u64)
    requires
        forall|j: u64| j < 64 ==> (#[trigger] word_bit(a, j) <==> word_bit(b, j)),
    ensures
        a == b,
{
    let x = a ^ b;
    if x != 0 {
        axiom_u64_trailing_zeros(x);
        let t = u64_trailing_zeros(x) as u64;
        assert(t < 64);
        assert(((a ^ b) >> t) & 1u64 == 1u64 ==> (((a >> t) & 1u64 == 1u64) != ((b >> t) & 1u64
            == 1u64))) by (bit_vector);
        assert(word_bit(a, t) <==> word_bit(b, t));
        assert(false);
    }
    assert(a ^ b == 0u64 ==> a == b) by (bit_vector);
}


pub proof fn lemma_bit_and_not_single(w: u64, k: u64, j: u64)
    requires
        k < 64,
        j < 64,
    ensures
        word_bit(w & !(1u64 << k), j) <==> (j != k && word_bit(w, j)),
{
    assert(((w & !(1u64 << k)) >> j) & 1u64 == 1u64 <==> (j != k && (w >> j) & 1u64 == 1u64))
        by (bit_vector)
        requires
            k < 64,
            j < 64,
    ;
}

pub proof fn lemma_bit_mask_test(w: u64, k: u64)
    requires
        k < 64,
    ensures
        ((w & (1u64 << k)) == (1u64 << k)) <==> word_bit(w, k),
{
    assert(((w & (1u64 << k)) == (1u64 << k)) <==> (w >> k) & 1u64 == 1u64) by (bit_vector)
        requires
            k < 64,
    ;
}

pub proof fn lemma_bit_binary(a: u64, b: u64, j: u64)
    requires
        j < 64,
    ensures
        word_bit(a & b, j) <==> (word_bit(a, j) && word_bit(b, j)),
        word_bit(a | b, j) <==> (word_bit(a, j) || word_bit(b, j)),
        word_bit(a ^ b, j) <==> (word_bit(a, j) != word_bit(b, j)),
{
    assert(((a & b) >> j) & 1u64 == 1u64 <==> ((a >> j) & 1u64 == 1u64 && (b >> j) & 1u64
        == 1u64)) by (bit_vector);
    assert(((a | b) >> j) & 1u64 == 1u64 <==> ((a >> j) & 1u64 == 1u64 || (b >> j) & 1u64
        == 1u64)) by (bit_vector);
    assert(((a ^ b) >> j) & 1u64 == 1u64 <==> ((a >> j) & 1u64 == 1u64 != ((b >> j) & 1u64
        == 1u64))) by (bit_vector);
}

pub proof fn lemma_bit_zero(j: u64)
    ensures
        !word_bit(0u64, j),
{
    assert((0u64 >> j) & 1u64 != 1u64) by (bit_vector);
}

} // verus!
