//! Integer helpers: rounding up to a power-of-two alignment and ceiling
//! logarithms, each proved against a plain arithmetic statement.
use vstd::prelude::*;

verus! {

/// `a` is a power of two whose exponent is below `usize::BITS`.
pub open spec fn is_pow2(a: int) -> bool {
    exists|k: nat| k < usize::BITS && a == vstd::arithmetic::power2::pow2(k)
}

/// The smallest multiple of `a` that is not below `x` (for `x >= 0`, `a > 0`).
pub open spec fn align_up_spec(x: int, a: int) -> int {
    (x + a - 1) - (x + a - 1) % a
}

/// The smallest `e` with `2^e >= x` (0 for `x <= 1`).
pub open spec fn ceil_log2(x: nat) -> nat
    decreases x,
{
    if x <= 1 {
        0
    } else {
        ceil_log2(((x + 1) / 2) as nat) + 1
    }
}

/// `align_up_spec(x, a)` is a multiple of `a` in `[x, x + a)`.
pub proof fn lemma_align_up(x: int, a: int)
    requires
        x >= 0,
        a > 0,
    ensures
        align_up_spec(x, a) % a == 0,
        x <= align_up_spec(x, a) < x + a,
{
    let y = x + a - 1;
    vstd::arithmetic::div_mod::lemma_fundamental_div_mod(y, a);
    vstd::arithmetic::div_mod::lemma_mod_pos_bound(y, a);
    let q = y / a;
    assert(y - y % a == q * a) by (nonlinear_arith)
        requires
            y == a * q + y % a,
    ;
    vstd::arithmetic::div_mod::lemma_mod_multiples_basic(q, a);
}

/// Rounding up gives the least multiple of `a` not below `x`: every such
/// multiple is at least as large.
pub proof fn lemma_align_up_least(x: int, a: int, m: int)
    requires
        x >= 0,
        a > 0,
        m >= x,
        m % a == 0,
    ensures
        align_up_spec(x, a) <= m,
{
    lemma_align_up(x, a);
    let r = align_up_spec(x, a);
    vstd::arithmetic::div_mod::lemma_fundamental_div_mod(r, a);
    vstd::arithmetic::div_mod::lemma_fundamental_div_mod(m, a);
    let qr = r / a;
    let qm = m / a;
    if m < r {
        assert(false) by (nonlinear_arith)
            requires
                r == a * qr,
                m == a * qm,
                0 < r - m < a,
                a > 0,
        ;
    }
}

/// An already aligned value is left unchanged by rounding up.
pub proof fn lemma_align_up_aligned(x: int, a: int)
    requires
        x >= 0,
        a > 0,
        x % a == 0,
    ensures
        align_up_spec(x, a) == x,
{
    lemma_align_up(x, a);
    let r = align_up_spec(x, a);
    // r and x are both multiples of a, and 0 <= r - x < a
    vstd::arithmetic::div_mod::lemma_fundamental_div_mod(r, a);
    vstd::arithmetic::div_mod::lemma_fundamental_div_mod(x, a);
    let qr = r / a;
    let qx = x / a;
    assert(qr == qx) by (nonlinear_arith)
        requires
            r == a * qr,
            x == a * qx,
            0 <= r - x < a,
            a > 0,
    ;
}

/// A power of two is positive.
pub proof fn lemma_pow2_positive(a: int)
    requires
        is_pow2(a),
    ensures
        a >= 1,
{
    let k = choose|k: nat| k < usize::BITS && a == vstd::arithmetic::power2::pow2(k);
    vstd::arithmetic::power2::lemma_pow2_pos(k);
}

/// A power of two is at most `isize::MAX + 1`.
pub proof fn lemma_pow2_at_most_half(a: int)
    requires
        is_pow2(a),
    ensures
        1 <= a <= isize::MAX + 1,
{
    let k = choose|k: nat| k < usize::BITS && a == vstd::arithmetic::power2::pow2(k);
    vstd::arithmetic::power2::lemma_pow2_pos(k);
    vstd::arithmetic::power2::lemma2_to64();
    let top = (usize::BITS - 1) as nat;
    if k < top {
        vstd::arithmetic::power2::lemma_pow2_strictly_increases(k, top);
    }
    vstd::arithmetic::power2::lemma_pow2_unfold(usize::BITS as nat);
    assert(vstd::arithmetic::power2::pow2(top) == isize::MAX + 1);
}

/// A power of two at most 8 divides 8; a larger one is a multiple of 16.
pub proof fn lemma_pow2_vs_8(a: int)
    requires
        is_pow2(a),
    ensures
        a <= 8 ==> 8int % a == 0,
        a > 8 ==> a % 16 == 0 && a % 8 == 0 && a >= 16,
{
    let k = choose|k: nat| k < usize::BITS && a == vstd::arithmetic::power2::pow2(k);
    vstd::arithmetic::power2::lemma2_to64();
    if k > 3 {
        vstd::arithmetic::power2::lemma_pow2_adds((k - 4) as nat, 4);
        vstd::arithmetic::power2::lemma_pow2_pos((k - 4) as nat);
        let q = vstd::arithmetic::power2::pow2((k - 4) as nat) as int;
        assert(a == q * 16);
        vstd::arithmetic::div_mod::lemma_mod_multiples_basic(q, 16);
        vstd::arithmetic::div_mod::lemma_mod_multiples_basic(q * 2, 8);
        assert(a == (q * 2) * 8);
        assert(a >= 16);
    } else {
        if k == 0 {
            assert(a == 1);
            assert(8int % 1 == 0);
        } else if k == 1 {
            assert(a == 2);
            assert(8int % 2 == 0);
        } else if k == 2 {
            assert(a == 4);
            assert(8int % 4 == 0);
        } else {
            assert(a == 8);
            assert(8int % 8 == 0);
        }
    }
}

/// With a power-of-two `a`, masking off the low bits of `y` rounds it down to
/// a multiple of `a`.
proof fn lemma_mask_rounds_down(y: usize, a: usize)
    requires
        is_pow2(a as int),
    ensures
        (y & !((a - 1) as usize)) as int == y as int - (y as int) % (a as int),
{
    let k = choose|k: nat| k < usize::BITS && a as int == vstd::arithmetic::power2::pow2(k);
    vstd::arithmetic::power2::lemma_pow2_pos(k);
    vstd::bits::lemma_usize_low_bits_mask_is_mod(y, k);
    let m = (a - 1) as usize;
    assert(vstd::bits::low_bits_mask(k) as usize == m);
    assert(y & m == y % a);
    assert((y & !m) + (y & m) == y) by (bit_vector);
}

/// Rounds `n` up to a multiple of the power of two `I`.
pub fn align_up<const I: usize>(n: usize) -> (r: usize)
    requires
        is_pow2(I as int),
        n + I - 1 <= usize::MAX,
    ensures
        r == align_up_spec(n as int, I as int),
{
    proof {
        lemma_pow2_positive(I as int);
        lemma_mask_rounds_down((n + (I - 1)) as usize, I);
    }
    (n + (I - 1)) & !(I - 1)
}

/// Rounds `addr` up to a multiple of the power of two `align`.
pub fn align_up_addr(addr: usize, align: usize) -> (r: usize)
    requires
        is_pow2(align as int),
        addr + align - 1 <= usize::MAX,
    ensures
        r == align_up_spec(addr as int, align as int),
{
    proof {
        lemma_pow2_positive(align as int);
    }
    let align_min_1 = align - 1;
    proof {
        lemma_mask_rounds_down((addr + align_min_1) as usize, align);
    }
    (addr + align_min_1) & !align_min_1
}

/// The base-2 logarithm of a nonzero `x`, rounded down: the `r` with
/// `2^r <= x < 2^(r+1)`.
fn floor_log2(x: usize) -> (r: u32)
    requires
        x > 0,
    ensures
        r < usize::BITS,
        vstd::arithmetic::power2::pow2(r as nat) <= x,
        x < vstd::arithmetic::power2::pow2(r as nat + 1),
{
    proof {
        vstd::arithmetic::power2::lemma2_to64();
        lemma_pow2_bits();
    }
    let mut k: usize = 0;
    loop
        invariant
            k < usize::BITS,
            vstd::arithmetic::power2::pow2(k as nat) <= x,
        ensures
            k < usize::BITS,
            vstd::arithmetic::power2::pow2(k as nat) <= x,
            x < vstd::arithmetic::power2::pow2(k as nat + 1),
        decreases usize::BITS - k,
    {
        if k + 1 == usize::BITS as usize {
            proof {
                lemma_pow2_bits();
            }
            break;
        }
        proof {
            vstd::bits::lemma_usize_pow2_no_overflow((k + 1) as nat);
            vstd::bits::lemma_usize_shl_is_mul(1, (k + 1) as usize);
        }
        let p = 1usize << (k + 1);
        if p > x {
            break;
        }
        k = k + 1;
    }
    k as u32
}

/// 2 is a power of two.
pub proof fn lemma_two_is_pow2()
    ensures
        is_pow2(2),
{
    vstd::arithmetic::power2::lemma2_to64();
    assert(2 == vstd::arithmetic::power2::pow2(1));
}

/// `2^usize::BITS` is one past `usize::MAX`.
pub proof fn lemma_pow2_bits()
    ensures
        vstd::arithmetic::power2::pow2(usize::BITS as nat) == usize::MAX + 1,
{
    vstd::arithmetic::power2::lemma2_to64();
}

/// `ceil_log2` is the unique `e` with `2^(e-1) < x <= 2^e`.
pub proof fn lemma_ceil_log2_unique(x: nat, e: nat)
    requires
        x >= 2,
        e >= 1,
        vstd::arithmetic::power2::pow2((e - 1) as nat) < x <= vstd::arithmetic::power2::pow2(e),
    ensures
        ceil_log2(x) == e,
    decreases e,
{
    vstd::arithmetic::power2::lemma_pow2_unfold(e);
    let y = ((x + 1) / 2) as nat;
    assert(ceil_log2(x) == ceil_log2(y) + 1);
    if e == 1 {
        vstd::arithmetic::power2::lemma2_to64();
        assert(x == 2);
        assert(y == 1);
        assert(ceil_log2(1) == 0);
    } else {
        vstd::arithmetic::power2::lemma_pow2_unfold((e - 1) as nat);
        vstd::arithmetic::power2::lemma_pow2_pos((e - 2) as nat);
        lemma_ceil_log2_unique(y, (e - 1) as nat);
    }
}

/// `2^ceil_log2(x)` is at least `x`, and for `x >= 2` the power below it is
/// below `x`.
pub proof fn lemma_ceil_log2_bounds(x: nat)
    requires
        x >= 1,
    ensures
        vstd::arithmetic::power2::pow2(ceil_log2(x)) >= x,
        x >= 2 ==> ceil_log2(x) >= 1 && vstd::arithmetic::power2::pow2((ceil_log2(x) - 1) as nat) < x,
    decreases x,
{
    vstd::arithmetic::power2::lemma2_to64();
    if x == 1 {
        assert(ceil_log2(1) == 0);
    } else {
        let y = ((x + 1) / 2) as nat;
        lemma_ceil_log2_bounds(y);
        let e = ceil_log2(x);
        assert(e == ceil_log2(y) + 1);
        vstd::arithmetic::power2::lemma_pow2_unfold(e);
        if y >= 2 {
            vstd::arithmetic::power2::lemma_pow2_unfold((e - 1) as nat);
        } else {
            assert(ceil_log2(y) == 0);
        }
    }
}

/// The ceiling logarithm of a power of two is its exponent.
pub proof fn lemma_ceil_log2_pow2(e: nat)
    ensures
        ceil_log2(vstd::arithmetic::power2::pow2(e)) == e,
{
    vstd::arithmetic::power2::lemma2_to64();
    if e == 0 {
        assert(ceil_log2(1) == 0);
    } else {
        vstd::arithmetic::power2::lemma_pow2_strictly_increases((e - 1) as nat, e);
        vstd::arithmetic::power2::lemma_pow2_pos((e - 1) as nat);
        lemma_ceil_log2_unique(vstd::arithmetic::power2::pow2(e), e);
    }
}

/// `ceil_log2` does not decrease.
pub proof fn lemma_ceil_log2_monotone(x: nat, y: nat)
    requires
        1 <= x <= y,
    ensures
        ceil_log2(x) <= ceil_log2(y),
{
    lemma_ceil_log2_bounds(x);
    lemma_ceil_log2_bounds(y);
    // Otherwise 2^ceil_log2(y) <= 2^(ceil_log2(x) - 1) < x <= y.
    if ceil_log2(x) > ceil_log2(y) + 1 {
        vstd::arithmetic::power2::lemma_pow2_strictly_increases(
            ceil_log2(y),
            (ceil_log2(x) - 1) as nat,
        );
    }
}

/// Rounds `x` up to its base-2 logarithm: the `e` with `2^(e-1) < x <= 2^e`.
/// MUST be > 1.
pub fn ilog2_ceil(x: usize) -> (r: u32)
    requires
        x > 1,
    ensures
        r as nat == ceil_log2(x as nat),
        r <= usize::BITS,
{
    let l = floor_log2(x - 1);
    proof {
        lemma_ceil_log2_unique(x as nat, (l + 1) as nat);
    }
    l + 1
}

} // verus!
