//! Kernel-wide constants and small arithmetic helpers.
use vstd::prelude::*;
use vstd::arithmetic::power2::{pow2, lemma_pow2_unfold, lemma2_to64};

verus! {

/// Size of a base page in bytes.
pub const PAGE_SIZE: usize = 4096;

/// Size of a physical page frame in bytes.
pub const PHY_PAGE_SIZE: usize = 4096;

/// Lowest address of the user stack; anonymous mappings grow down from
/// here.
pub const USER_STACK_LOWER_BOUND: u64 = 0xffff_8000;

/// Size of the user stack in bytes.
pub const USER_STACK_SIZE: u64 = 0x8000;

/// One past the highest address of the user stack.
pub const USER_STACK_TOP: u64 = USER_STACK_LOWER_BOUND + USER_STACK_SIZE;


/// `k` is the ceiling of the base-2 logarithm of `size`: the smallest
/// exponent whose power of two is at least `size`.
pub open spec fn is_ilog2_ceil(size: nat, k: nat) -> bool {
    &&& pow2(k) >= size
    &&& (k == 0 || pow2((k - 1) as nat) < size)
}

/// Ceiling of the base-2 logarithm: the smallest `k` with `2^k >= size`.
pub fn ilog2_ceil(size: usize) -> (k: usize)
    requires
        size >= 1,
    ensures
        is_ilog2_ceil(size as nat, k as nat),
{
    let mut k: usize = 0;
    let mut p: u128 = 1;
    proof { lemma2_to64(); }
    while p < size as u128
        invariant
            p == pow2(k as nat),
            k == 0 || pow2((k - 1) as nat) < size,
            k <= 64,
            p <= 2 * (size as u128),
            p >= 1,
        decreases 2 * (size as u128) - p,
    {
        proof {
            lemma2_to64();
            lemma_pow2_unfold((k + 1) as nat);
        }
        p = p * 2;
        k = k + 1;
    }
    k
}

/// Round `addr` up to a multiple of `align`.
pub open spec fn spec_align(addr: nat, align: nat) -> nat
    recommends
        align > 0,
{
    ((addr + align - 1) as nat / align) * align
}

/// `align` is a power of two.
pub open spec fn is_pow2(align: nat) -> bool {
    exists|k: nat| k < usize::BITS && align == pow2(k)
}

/// `addr + alignment - 1` with the bits below `alignment` cleared: for a
/// power-of-two `alignment`, `addr` rounded up to a multiple of it.
pub fn align(addr: usize, alignment: usize) -> (r: usize)
    requires
        alignment > 0,
        addr + alignment - 1 <= usize::MAX,
    ensures
        r == ((addr + alignment - 1) as usize & !((alignment - 1) as usize)),
        is_pow2(alignment as nat) ==> r == spec_align(addr as nat, alignment as nat),
{
    let s = addr + (alignment - 1);
    let m = alignment - 1;
    let r = s & !m;
    proof {
        if is_pow2(alignment as nat) {
            let k = choose|k: nat| k < usize::BITS && alignment == pow2(k);
            vstd::bits::lemma_usize_low_bits_mask_is_mod(s, k);
            assert(vstd::bits::low_bits_mask(k) == m);
            assert(s & !m == s - (s & m)) by (bit_vector);
            assert(s == alignment * (s / alignment) + s % alignment) by (nonlinear_arith)
                requires alignment > 0;
            assert(pow2(k) as usize == alignment);
            assert(s & m == s % alignment);
            assert(r == s - s % alignment);
            assert((s / alignment) * alignment == alignment * (s / alignment)) by (nonlinear_arith);
            assert(spec_align(addr as nat, alignment as nat) == (s / alignment) * alignment);
        }
    }
    r
}

} // verus!
