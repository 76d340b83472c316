//! A 64-bit mask read as a set of small indices.

use vstd::prelude::*;

verus! {

/// The number of indices a mask can hold.
pub const MASK_BITS: usize = 64;

/// Whether the mask holds the index `i`.
pub open spec fn bit(mask: u64, i: int) -> bool {
    0 <= i < 64 && (mask >> (i as u64)) & 1 == 1
}

/// The mask with the index `i` added.
pub open spec fn with_bit(mask: u64, i: int) -> u64 {
    mask | (1u64 << (i as u64))
}

/// The mask with the index `i` taken out.
pub open spec fn without_bit(mask: u64, i: int) -> u64 {
    mask & !(1u64 << (i as u64))
}

/// The mask that holds exactly the indices below `n`, for `n` below 64.
pub open spec fn full_mask(n: int) -> u64 {
    ((1u64 << (n as u64)) - 1) as u64
}

/// The indices below `k` of a mask.
pub open spec fn low_bits(mask: u64, k: u64) -> u64 {
    if k >= 64 {
        mask
    } else {
        mask & (((1u64 << k) - 1) as u64)
    }
}

/// The empty mask holds no index.
pub proof fn lemma_no_bits(j: int)
    ensures
        !bit(0, j),
{
    if 0 <= j < 64 {
        let b = j as u64;
        assert((0u64 >> b) & 1 == 0) by (bit_vector);
    }
}

/// Adding an index adds that index and no other.
pub proof fn lemma_with_bit(mask: u64, i: int, j: int)
    requires
        0 <= i < 64,
    ensures
        bit(with_bit(mask, i), j) == (bit(mask, j) || i == j),
{
    if 0 <= j < 64 {
        let a = i as u64;
        let b = j as u64;
        assert((((mask | (1u64 << a)) >> b) & 1 == 1) == (((mask >> b) & 1 == 1) || a == b))
            by (bit_vector)
            requires
                a < 64,
                b < 64,
        ;
    }
}

/// Taking an index out removes that index and no other.
pub proof fn lemma_without_bit(mask: u64, i: int, j: int)
    requires
        0 <= i < 64,
    ensures
        bit(without_bit(mask, i), j) == (bit(mask, j) && i != j),
{
    if 0 <= j < 64 {
        let a = i as u64;
        let b = j as u64;
        assert((((mask & !(1u64 << a)) >> b) & 1 == 1) == (((mask >> b) & 1 == 1) && a != b))
            by (bit_vector)
            requires
                a < 64,
                b < 64,
        ;
    }
}

/// An index just added can be subtracted again, which takes it out.
pub proof fn lemma_subtract_bit(mask: u64, i: int)
    requires
        0 <= i < 64,
    ensures
        with_bit(mask, i) >= (1u64 << (i as u64)),
        (with_bit(mask, i) - (1u64 << (i as u64))) as u64 == without_bit(mask, i),
{
    let a = i as u64;
    assert((mask | (1u64 << a)) >= (1u64 << a)) by (bit_vector);
    assert(((mask | (1u64 << a)) - (1u64 << a)) as u64 == mask & !(1u64 << a)) by (bit_vector);
}

/// The full mask of `n` holds exactly the indices below `n`.
pub proof fn lemma_full_mask(n: int, j: int)
    requires
        0 <= n < 64,
    ensures
        1 <= (1u64 << (n as u64)),
        bit(full_mask(n), j) == (0 <= j < n),
{
    let a = n as u64;
    assert(1 <= (1u64 << a)) by (bit_vector)
        requires
            a < 64,
    ;
    if 0 <= j < 64 {
        let b = j as u64;
        assert((((((1u64 << a) - 1) as u64) >> b) & 1 == 1) == (b < a)) by (bit_vector)
            requires
                a < 64,
                b < 64,
        ;
    }
}

proof fn lemma_low_bits_agree(x: u64, y: u64, k: u64)
    requires
        k <= 64,
        forall|j: int| 0 <= j < k ==> bit(x, j) == bit(y, j),
    ensures
        low_bits(x, k) == low_bits(y, k),
    decreases k,
{
    if k == 0 {
        assert(x & (((1u64 << 0u64) - 1) as u64) == y & (((1u64 << 0u64) - 1) as u64))
            by (bit_vector);
    } else {
        let j: u64 = (k - 1) as u64;
        lemma_low_bits_agree(x, y, j);
        assert(bit(x, j as int) == bit(y, j as int));
        assert(low_bits(x, k) == low_bits(y, k)) by (bit_vector)
            requires
                j < 64,
                k == j + 1,
                low_bits(x, j) == low_bits(y, j),
                ((x >> j) & 1 == 1) == ((y >> j) & 1 == 1),
        ;
    }
}

/// Two masks that hold the same indices are the same mask.
pub proof fn lemma_masks_equal(x: u64, y: u64)
    requires
        forall|j: int| 0 <= j < 64 ==> bit(x, j) == bit(y, j),
    ensures
        x == y,
{
    lemma_low_bits_agree(x, y, 64);
}

/// A mask that holds exactly the indices below `n` is the full mask of `n`.
pub proof fn lemma_is_full_mask(mask: u64, n: int)
    requires
        0 <= n < 64,
        forall|j: int| 0 <= j < 64 ==> bit(mask, j) == (j < n),
    ensures
        mask == full_mask(n),
{
    assert forall|j: int| 0 <= j < 64 implies bit(mask, j) == bit(full_mask(n), j) by {
        lemma_full_mask(n, j);
    }
    lemma_masks_equal(mask, full_mask(n));
}

} // verus!
