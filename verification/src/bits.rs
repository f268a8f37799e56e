//! The bits of a modifier mask.

use vstd::prelude::*;

verus! {

/// Whether bit number `bit` of `mask` is set.
pub open spec fn has_bit(mask: u32, bit: u32) -> bool {
    mask & (1u32 << bit) != 0
}

/// How many of the bits of `mask` below number `n` are set.
pub open spec fn ones_below(mask: u32, n: nat) -> nat
    decreases n,
{
    if n == 0 {
        0
    } else {
        ones_below(mask, (n - 1) as nat) + if has_bit(mask, (n - 1) as u32) {
            1nat
        } else {
            0nat
        }
    }
}

/// How many bits of `mask` are set.
pub open spec fn ones(mask: u32) -> nat {
    ones_below(mask, 32)
}

/// A mask of one bit tells which bit it is.
pub proof fn lemma_one_bit(a: u32, b: u32)
    requires
        a < 32,
        b < 32,
        1u32 << a == 1u32 << b,
    ensures
        a == b,
{
    assert(a == b) by (bit_vector)
        requires
            a < 32,
            b < 32,
            1u32 << a == 1u32 << b,
    ;
}

/// How many bits of `mask` are set.
pub fn count_ones(mask: u32) -> (count: u32)
    ensures
        count == ones(mask),
{
    let mut count: u32 = 0;
    for bit in 0u32..32u32
        invariant
            count == ones_below(mask, bit as nat),
            count <= bit,
    {
        if mask & (1u32 << bit) != 0 {
            count = count + 1;
        }
    }
    count
}

/// The number of the only bit set in `mask`, where exactly one is.
pub fn single_bit(mask: u32) -> (found: Option<u32>)
    ensures
        match found {
            Some(bit) => bit < 32 && mask == 1u32 << bit,
            None => forall|bit: u32| bit < 32 ==> mask != #[trigger] (1u32 << bit),
        },
{
    for bit in 0u32..32u32
        invariant
            forall|b: u32| b < bit ==> mask != #[trigger] (1u32 << b),
    {
        if mask == 1u32 << bit {
            return Some(bit);
        }
    }
    None
}

/// Whether a bit is set can be read off the mask shifted down to it.
pub proof fn law_has_bit(mask: u32, bit: u32)
    requires
        bit < 32,
    ensures
        has_bit(mask, bit) <==> (mask >> bit) % 2 == 1,
{
    assert(mask & (1u32 << bit) != 0 <==> (mask >> bit) % 2 == 1) by (bit_vector)
        requires
            bit < 32,
    ;
}

/// Setting a bit that is not set leaves the bits below it alone, and counts for one above it.
proof fn lemma_ones_below_set(mask: u32, bit: u32, n: nat)
    requires
        bit < 32,
        n <= 32,
        mask & (1u32 << bit) == 0,
    ensures
        ones_below(mask | (1u32 << bit), n) == ones_below(mask, n) + if bit < n {
            1nat
        } else {
            0nat
        },
    decreases n,
{
    if n > 0 {
        lemma_ones_below_set(mask, bit, (n - 1) as nat);
        let other = (n - 1) as u32;
        if other == bit {
            assert((mask | (1u32 << bit)) & (1u32 << bit) != 0) by (bit_vector)
                requires
                    bit < 32,
            ;
        } else {
            assert((mask | (1u32 << bit)) & (1u32 << other) == mask & (1u32 << other))
                by (bit_vector)
                requires
                    bit < 32,
                    other < 32,
                    other != bit,
            ;
        }
    }
}

/// No bit is set in 0, and setting a bit that is not set counts for one.
pub proof fn law_ones(mask: u32, bit: u32)
    requires
        bit < 32,
        mask & (1u32 << bit) == 0,
    ensures
        ones(0) == 0,
        ones(mask | (1u32 << bit)) == ones(mask) + 1,
{
    lemma_no_ones(32);
    lemma_ones_below_set(mask, bit, 32);
}

/// No bit is set in 0.
proof fn lemma_no_ones(n: nat)
    requires
        n <= 32,
    ensures
        ones_below(0, n) == 0,
    decreases n,
{
    if n > 0 {
        lemma_no_ones((n - 1) as nat);
        let bit = (n - 1) as u32;
        assert(0u32 & (1u32 << bit) == 0) by (bit_vector);
    }
}

} // verus!
