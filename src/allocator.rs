//! Address alignment and the arithmetic facts that the allocators share.

use vstd::arithmetic::div_mod::{lemma_fundamental_div_mod, lemma_mod_multiples_basic, lemma_mod_pos_bound};
use vstd::arithmetic::power2::is_pow2;
use vstd::prelude::*;

pub mod bump;
pub mod fixed_size;
pub mod linked_list;

verus! {

/// Size of the kernel heap in bytes.
pub const HEAP_SIZE: usize = 100 * 1024;

/// `addr` rounded up to the next multiple of `align`.
pub open spec fn spec_align_up(addr: int, align: int) -> int
    recommends
        align > 0,
{
    if addr % align == 0 {
        addr
    } else {
        addr - addr % align + align
    }
}

/// Rounding up gives a multiple of `align` that lies less than `align` above `addr`.
pub proof fn lemma_align_up(addr: int, align: int)
    requires
        addr >= 0,
        align > 0,
    ensures
        spec_align_up(addr, align) % align == 0,
        addr <= spec_align_up(addr, align) < addr + align,
        0 <= addr % align < align,
        addr % align <= addr,
{
    lemma_fundamental_div_mod(addr, align);
    lemma_mod_pos_bound(addr, align);
    let q = addr / align;
    assert(addr % align <= addr) by (nonlinear_arith)
        requires
            addr >= 0,
            align > 0,
    ;
    if addr % align == 0 {
    } else {
        assert(spec_align_up(addr, align) == (q + 1) * align) by (nonlinear_arith)
            requires
                addr == align * q + addr % align,
                spec_align_up(addr, align) == addr - addr % align + align,
        ;
        lemma_mod_multiples_basic(q + 1, align);
    }
}

/// The largest multiple of `align` that is at most `bound` is at least the rounded-up `addr`,
/// whenever `addr` does not exceed it.
pub proof fn lemma_align_up_below(addr: int, align: int, bound: int)
    requires
        addr >= 0,
        align > 0,
        bound >= 0,
        addr <= bound - bound % align,
    ensures
        spec_align_up(addr, align) <= bound - bound % align,
{
    lemma_align_up(addr, align);
    lemma_align_up(bound, align);
    lemma_fundamental_div_mod(bound, align);
    lemma_fundamental_div_mod(spec_align_up(addr, align), align);
    let k = bound / align;
    let q = spec_align_up(addr, align) / align;
    assert(bound - bound % align == align * k);
    assert(spec_align_up(addr, align) == align * q);
    if q > k {
        assert(align * q >= align * k + align) by (nonlinear_arith)
            requires
                q > k,
                align > 0,
        ;
    }
    assert(q <= k);
    assert(align * q <= align * k) by (nonlinear_arith)
        requires
            q <= k,
            align > 0,
    ;
}

/// Of two powers of two, the larger is a multiple of the smaller.
pub proof fn lemma_pow2_divides(a: int, b: int)
    requires
        is_pow2(a),
        is_pow2(b),
        a <= b,
    ensures
        b % a == 0,
    decreases b,
{
    reveal(is_pow2);
    if a == 1 {
        assert(b % 1 == 0);
    } else {
        assert(a % 2 == 0 && is_pow2(a / 2));
        assert(b != 1);
        assert(b % 2 == 0 && is_pow2(b / 2));
        lemma_pow2_divides(a / 2, b / 2);
        lemma_fundamental_div_mod(b / 2, a / 2);
        let k = (b / 2) / (a / 2);
        assert(b == a * k) by (nonlinear_arith)
            requires
                b / 2 == (a / 2) * k,
                a % 2 == 0,
                b % 2 == 0,
                a == 2 * (a / 2),
                b == 2 * (b / 2),
        ;
        lemma_mod_multiples_basic(k, a);
        assert(k * a == a * k) by (nonlinear_arith);
    }
}

/// A multiple of `m` is a multiple of every divisor of `m`.
pub proof fn lemma_mod_transitive(x: int, m: int, d: int)
    requires
        m > 0,
        d > 0,
        x % m == 0,
        m % d == 0,
    ensures
        x % d == 0,
{
    lemma_fundamental_div_mod(x, m);
    lemma_fundamental_div_mod(m, d);
    let p = x / m;
    let q = m / d;
    assert(x == (p * q) * d) by (nonlinear_arith)
        requires
            x == m * p,
            m == d * q,
    ;
    lemma_mod_multiples_basic(p * q, d);
}

/// Align the given address `addr` upwards to alignment `align`.
pub fn align_up(addr: usize, align: usize) -> (r: usize)
    requires
        align > 0,
        spec_align_up(addr as int, align as int) <= usize::MAX,
    ensures
        r == spec_align_up(addr as int, align as int),
        r % align == 0,
        addr <= r < addr + align,
{
    proof {
        lemma_align_up(addr as int, align as int);
    }
    let rem = addr % align;
    if rem == 0 {
        addr
    } else {
        assert(addr - rem + align == spec_align_up(addr as int, align as int));
        addr - rem + align
    }
}

} // verus!
