//! Facts about single bits of a `u64` word.
use vstd::prelude::*;

verus! {

/// Bit `j` of `w` is set.
pub open spec fn bit(w: u64, j: u64) -> bool {
    (w >> j) & 1u64 == 1u64
}

pub proof fn lemma_bit_set(w: u64, b: u64, j: u64)
    requires
        b < 64,
        j < 64,
    ensures
        bit(w | (1u64 << b), j) == (j == b || bit(w, j)),
{
    assert(((w | (1u64 << b)) >> j) & 1u64 == 1u64 <==> (j == b || (w >> j) & 1u64 == 1u64))
        by (bit_vector)
        requires
            b < 64,
            j < 64,
    ;
}

pub proof fn lemma_bit_clear(w: u64, b: u64, j: u64)
    requires
        b < 64,
        j < 64,
    ensures
        bit(w & !(1u64 << b), j) == (j != b && bit(w, j)),
{
    assert(((w & !(1u64 << b)) >> j) & 1u64 == 1u64 <==> (j != b && (w >> j) & 1u64 == 1u64))
        by (bit_vector)
        requires
            b < 64,
            j < 64,
    ;
}

/// Keeping the bits at and above `b`.
pub proof fn lemma_bits_from(w: u64, b: u64, j: u64)
    requires
        b < 64,
        j < 64,
    ensures
        bit(w & !(((1u64 << b) - 1u64) as u64), j) == (j >= b && bit(w, j)),
        (1u64 << b) >= 1u64,
{
    assert((1u64 << b) >= 1u64) by (bit_vector)
        requires
            b < 64,
    ;
    let m = ((1u64 << b) - 1u64) as u64;
    assert(((w & !m) >> j) & 1u64 == 1u64 <==> (j >= b && (w >> j) & 1u64 == 1u64)) by (bit_vector)
        requires
            b < 64,
            j < 64,
            m == ((1u64 << b) - 1u64) as u64,
            (1u64 << b) >= 1u64,
    ;
}

/// Keeping the bits at and below `b`.
pub proof fn lemma_bits_upto(w: u64, b: u64, j: u64)
    requires
        b < 63,
        j < 64,
    ensures
        bit(w & (((1u64 << (b + 1) as u64) - 1u64) as u64), j) == (j <= b && bit(w, j)),
        (1u64 << (b + 1) as u64) >= 1u64,
{
    let c = (b + 1) as u64;
    assert((1u64 << c) >= 1u64) by (bit_vector)
        requires
            c < 64,
    ;
    let m = ((1u64 << c) - 1u64) as u64;
    assert(((w & m) >> j) & 1u64 == 1u64 <==> (j < c && (w >> j) & 1u64 == 1u64)) by (bit_vector)
        requires
            c < 64,
            j < 64,
            m == ((1u64 << c) - 1u64) as u64,
            (1u64 << c) >= 1u64,
    ;
}

pub proof fn lemma_zero_no_bits(j: u64)
    requires
        j < 64,
    ensures
        !bit(0, j),
{
    assert((0u64 >> j) & 1u64 == 0u64) by (bit_vector);
}

pub proof fn lemma_zero_word_no_bits()
    ensures
        forall|j: u64| j < 64 ==> !#[trigger] bit(0, j),
{
    assert forall|j: u64| j < 64 implies !#[trigger] bit(0, j) by {
        lemma_zero_no_bits(j);
    }
}

} // verus!
