//! Alignment arithmetic shared by the tag encoding and the allocator.

use vstd::prelude::*;
use crate::MAX_EXTENT;

verus! {

/// Whether `n` is a power of two.
pub open spec fn spec_is_pow2(n: int) -> bool
    decreases n,
{
    if n <= 0 {
        false
    } else if n == 1 {
        true
    } else if n % 2 == 1 {
        false
    } else {
        spec_is_pow2(n / 2)
    }
}

/// The largest multiple of `align` that is at most `addr`.
pub open spec fn align_down_s(addr: int, align: int) -> int {
    (addr / align) * align
}

/// The smallest multiple of `align` that is at least `addr`.
pub open spec fn align_up_s(addr: int, align: int) -> int {
    ((addr + align - 1) / align) * align
}

/// Decides whether `n` is a power of two.
pub fn is_power_of_two(n: usize) -> (r: bool)
    ensures
        r == spec_is_pow2(n as int),
{
    if n == 0 {
        return false;
    }
    let mut m: usize = n;
    while m > 1
        invariant
            1 <= m <= n,
            spec_is_pow2(n as int) == spec_is_pow2(m as int),
        decreases m,
    {
        if m % 2 == 1 {
            return false;
        }
        m = m / 2;
    }
    true
}

/// Align `addr` downwards to a multiple of `align`, a power of two.
pub fn align_down(addr: usize, align: usize) -> (r: usize)
    requires
        spec_is_pow2(align as int),
    ensures
        r == align_down_s(addr as int, align as int),
        r % align == 0,
        r <= addr < r + align,
{
    proof {
        let a = addr as int;
        let al = align as int;
        assert(al >= 1);
        vstd::arithmetic::div_mod::lemma_remainder(a, al);
        vstd::arithmetic::div_mod::lemma_mod_multiples_basic(a / al, al);
    }
    addr / align * align
}

/// Align `addr` upwards to a multiple of `align`, a power of two.
pub fn align_up(addr: usize, align: usize) -> (r: usize)
    requires
        spec_is_pow2(align as int),
        addr <= MAX_EXTENT,
        align <= MAX_EXTENT,
    ensures
        r == align_up_s(addr as int, align as int),
        r % align == 0,
        addr <= r < addr + align,
        r <= MAX_EXTENT + align,
{
    align_down(addr + align - 1, align)
}

/// Rounding up distributes over an already-aligned leading summand.
pub proof fn lemma_align_up_add(base: int, off: int, align: int)
    requires
        align >= 1,
        base % align == 0,
        off >= 0,
        base >= 0,
    ensures
        align_up_s(base + off, align) == base + align_up_s(off, align),
{
    let q = base / align;
    assert(base == q * align) by (nonlinear_arith)
        requires align >= 1, base % align == 0, base >= 0, q == base / align;
    assert((q * align + off + align - 1) / align == q + (off + align - 1) / align)
        by (nonlinear_arith)
        requires align >= 1;
    assert((q + (off + align - 1) / align) * align == q * align + ((off + align - 1) / align)
        * align) by (nonlinear_arith);
}

} // verus!
