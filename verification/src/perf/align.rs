//! Rounding addresses and lengths up to a boundary.

use vstd::prelude::*;

verus! {

/// How far `addr` lies below the next multiple of `align`.
pub open spec fn gap(addr: int, align: int) -> int {
    if addr % align == 0 {
        0
    } else {
        align - addr % align
    }
}

/// The least multiple of `unit` that is not below `n`.
pub open spec fn round_up(n: int, unit: int) -> int {
    n + gap(n, unit)
}

/// The larger of two lengths.
pub open spec fn larger(a: int, b: int) -> int {
    if a < b {
        b
    } else {
        a
    }
}

/// `gap` lands on a multiple of `align`, and on no later one than the next.
pub proof fn gap_is_least(addr: int, align: int)
    requires
        0 < align,
    ensures
        0 <= gap(addr, align) < align,
        (addr + gap(addr, align)) % align == 0,
        forall|k: int| 0 <= k < gap(addr, align) ==> #[trigger] ((addr + k) % align) != 0,
{
    let r = addr % align;
    let q = addr / align;
    vstd::arithmetic::div_mod::lemma_fundamental_div_mod(addr, align);
    vstd::arithmetic::div_mod::lemma_mod_bound(addr, align);
    if r != 0 {
        assert(addr + (align - r) == align * (q + 1)) by (nonlinear_arith)
            requires
                addr == align * q + r,
        ;
        vstd::arithmetic::div_mod::lemma_mod_multiples_basic(q + 1, align);
        assert((q + 1) * align == align * (q + 1)) by (nonlinear_arith);
    }
    assert forall|k: int| 0 <= k < gap(addr, align) implies #[trigger] ((addr + k) % align) != 0 by {
        assert(addr + k == align * q + (r + k));
        vstd::arithmetic::div_mod::lemma_fundamental_div_mod_converse(addr + k, align, q, r + k);
    }
}

/// An even distance keeps an even address even, whichever alignment asked for it.
pub proof fn gap_keeps_even(addr: int, align: int)
    requires
        align == 1 || (0 < align && align % 2 == 0),
        addr % 2 == 0,
    ensures
        gap(addr, align) % 2 == 0,
{
    if align != 1 {
        let q = addr / align;
        vstd::arithmetic::div_mod::lemma_fundamental_div_mod(addr, align);
        let half = align / 2;
        assert(align * q == 2 * (half * q)) by (nonlinear_arith)
            requires
                align == 2 * half,
        ;
        assert((2 * (half * q)) % 2 == 0);
    } else {
        assert(addr % 1 == 0);
    }
}

/// Every power of two is one or even.
pub proof fn power_of_two_parity(n: int)
    requires
        vstd::arithmetic::power2::is_pow2(n),
    ensures
        n == 1 || (0 < n && n % 2 == 0),
{
    reveal(vstd::arithmetic::power2::is_pow2);
}

/// Distance from `addr` up to the next multiple of `align`.
pub fn align_gap(addr: u64, align: u64) -> (r: u64)
    requires
        0 < align,
    ensures
        r == gap(addr as int, align as int),
        r < align,
{
    let rest: u64 = addr % align;
    if rest == 0 {
        0
    } else {
        align - rest
    }
}

/// The least multiple of `unit` that is not below `n`.
pub fn next_multiple_of(n: u64, unit: u64) -> (r: u64)
    requires
        0 < unit,
        round_up(n as int, unit as int) <= u64::MAX,
    ensures
        r == round_up(n as int, unit as int),
{
    n + align_gap(n, unit)
}

} // verus!
