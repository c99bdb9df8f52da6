//! Rounding to a fixed number of significant binary digits.
//!
//! Binary floating-point formats share one rule: an exact result is replaced
//! by the nearest number with at most `bits` significant binary digits, and a
//! result halfway between two such numbers by the one whose last digit is
//! even. This module states that rule over whole numbers. A quantity is a
//! fraction `n / d` of some fixed unit, the smallest positive number of the
//! format; the rounded result is a whole number of units.

use vstd::arithmetic::div_mod::*;
use vstd::arithmetic::mul::*;
use vstd::arithmetic::power2::*;
use vstd::prelude::*;

verus! {

/// The whole number nearest to `n / d`; halfway cases go to the even neighbour.
pub open spec fn round_half_even(n: nat, d: nat) -> nat
    recommends
        d > 0,
{
    let q = n / d;
    let r = n % d;
    if 2 * r < d || (2 * r == d && q % 2 == 0) {
        q
    } else {
        q + 1
    }
}

/// The binary logarithm of the distance between neighbouring representable
/// numbers around `n / d`: the least `j` with `n / d < 2^(bits + j)`.
pub open spec fn spacing_exp(n: nat, d: nat, bits: nat) -> nat
    recommends
        d > 0,
    decreases n,
{
    if n < d * pow2(bits) || n == 0 {
        0
    } else {
        1 + spacing_exp(n / 2, d, bits)
    }
}

/// The number of at most `bits` significant digits nearest to `n / d`, ties
/// to even.
pub open spec fn nearest(n: nat, d: nat, bits: nat) -> nat
    recommends
        d > 0,
{
    let p = pow2(spacing_exp(n, d, bits));
    round_half_even(n, d * p) * p
}

/// Powers of two grow with their exponent.
pub proof fn lemma_pow2_ordered(a: nat, b: nat)
    requires
        a <= b,
    ensures
        pow2(a) <= pow2(b),
{
    if a < b {
        lemma_pow2_strictly_increases(a, b);
    }
}

/// The bounds that `spacing_exp` picks its result by.
pub proof fn lemma_spacing_bounds(n: nat, d: nat, bits: nat)
    requires
        d > 0,
        bits >= 1,
    ensures
        n < d * pow2(bits) * pow2(spacing_exp(n, d, bits)),
        spacing_exp(n, d, bits) > 0 ==> n >= d * pow2((bits - 1) as nat) * pow2(
            spacing_exp(n, d, bits),
        ),
    decreases n,
{
    lemma2_to64();
    lemma_pow2_unfold(bits);
    let hi = d * pow2(bits);
    let lo = d * pow2((bits - 1) as nat);
    lemma_pow2_pos((bits - 1) as nat);
    assert(hi == 2 * lo && lo > 0) by (nonlinear_arith)
        requires
            hi == d * pow2(bits),
            lo == d * pow2((bits - 1) as nat),
            pow2(bits) == 2 * pow2((bits - 1) as nat),
            pow2((bits - 1) as nat) > 0,
            d > 0,
    ;
    if n < hi {
        assert(hi * pow2(0) == hi) by (nonlinear_arith)
            requires
                pow2(0) == 1,
        ;
    } else {
        lemma_spacing_bounds(n / 2, d, bits);
        let j = spacing_exp(n / 2, d, bits);
        lemma_pow2_unfold(j + 1);
        let p = pow2(j);
        assert(lo * (2 * p) == 2 * (lo * p)) by (nonlinear_arith);
        assert(hi * (2 * p) == 2 * (hi * p)) by (nonlinear_arith);
        if j == 0 {
            assert(lo * (2 * p) == 2 * lo) by (nonlinear_arith)
                requires
                    p == 1,
            ;
        }
    }
}

/// `spacing_exp` is the only exponent within its bounds.
pub proof fn lemma_spacing_unique(n: nat, d: nat, bits: nat, j: nat)
    requires
        d > 0,
        bits >= 1,
        n < d * pow2(bits) * pow2(j),
        j > 0 ==> n >= d * pow2((bits - 1) as nat) * pow2(j),
    ensures
        spacing_exp(n, d, bits) == j,
    decreases j,
{
    lemma2_to64();
    lemma_pow2_unfold(bits);
    lemma_pow2_pos((bits - 1) as nat);
    let hi = d * pow2(bits);
    let lo = d * pow2((bits - 1) as nat);
    assert(hi == 2 * lo && lo > 0) by (nonlinear_arith)
        requires
            hi == d * pow2(bits),
            lo == d * pow2((bits - 1) as nat),
            pow2(bits) == 2 * pow2((bits - 1) as nat),
            pow2((bits - 1) as nat) > 0,
            d > 0,
    ;
    if j == 0 {
        assert(hi * pow2(0) == hi) by (nonlinear_arith)
            requires
                pow2(0) == 1,
        ;
    } else {
        let p = pow2((j - 1) as nat);
        lemma_pow2_unfold(j);
        lemma_pow2_pos((j - 1) as nat);
        assert(lo * (2 * p) == 2 * (lo * p)) by (nonlinear_arith);
        assert(hi * (2 * p) == 2 * (hi * p)) by (nonlinear_arith);
        assert(lo * p >= lo) by (nonlinear_arith)
            requires
                p >= 1,
                lo >= 0,
        ;
        assert(n >= hi);
        if j - 1 > 0 {
            assert(hi * p == 2 * (lo * p)) by (nonlinear_arith)
                requires
                    hi == 2 * lo,
            ;
        }
        lemma_spacing_unique(n / 2, d, bits, (j - 1) as nat);
    }
}

/// Scaling numerator and divisor alike leaves `round_half_even` unchanged.
pub proof fn lemma_round_half_even_scales(n: nat, d: nat, c: nat)
    requires
        d > 0,
        c > 0,
    ensures
        round_half_even(n * c, d * c) == round_half_even(n, d),
{
    lemma_div_multiples_vanish_quotient(c as int, n as int, d as int);
    lemma_truncate_middle(n as int, c as int, d as int);
    lemma_mul_is_commutative(n as int, c as int);
    lemma_mul_is_commutative(d as int, c as int);
    let r = n % d;
    assert((n * c) % (d * c) == c * r);
    assert((n * c) / (d * c) == n / d);
    assert(2 * (c * r) < d * c <==> 2 * r < d) by (nonlinear_arith)
        requires
            c > 0,
    ;
    assert(2 * (c * r) == d * c <==> 2 * r == d) by (nonlinear_arith)
        requires
            c > 0,
    ;
}

/// A multiple of the divisor rounds to its exact quotient.
pub proof fn lemma_round_half_even_exact(q: nat, d: nat)
    requires
        d > 0,
    ensures
        round_half_even(q * d, d) == q,
{
    lemma_div_multiples_vanish(q as int, d as int);
    lemma_mod_multiples_basic(q as int, d as int);
    lemma_mul_is_commutative(q as int, d as int);
}

/// `round_half_even` never moves down when its numerator moves up.
pub proof fn lemma_round_half_even_monotone(n1: nat, n2: nat, d: nat)
    requires
        d > 0,
        n1 <= n2,
    ensures
        round_half_even(n1, d) <= round_half_even(n2, d),
{
    lemma_div_is_ordered(n1 as int, n2 as int, d as int);
    lemma_fundamental_div_mod(n1 as int, d as int);
    lemma_fundamental_div_mod(n2 as int, d as int);
    lemma_mod_bound(n1 as int, d as int);
    lemma_mod_bound(n2 as int, d as int);
    let q1 = n1 / d;
    let q2 = n2 / d;
    if q1 == q2 {
        assert(d * q1 == d * q2);
        assert(n1 % d <= n2 % d);
    }
}

/// `round_half_even` keeps a quotient on its side of a whole number.
pub proof fn lemma_round_half_even_bounds(n: nat, d: nat, k: nat)
    requires
        d > 0,
    ensures
        n < d * k ==> round_half_even(n, d) <= k,
        n >= d * k ==> round_half_even(n, d) >= k,
{
    if n < d * k {
        lemma_multiply_divide_lt(n as int, d as int, k as int);
    } else {
        lemma_div_is_ordered((d * k) as int, n as int, d as int);
        lemma_div_multiples_vanish(k as int, d as int);
    }
}

/// Scaling numerator and divisor alike leaves `nearest` unchanged.
pub proof fn lemma_nearest_scales(n: nat, d: nat, c: nat, bits: nat)
    requires
        d > 0,
        c > 0,
        bits >= 1,
    ensures
        nearest(n * c, d * c, bits) == nearest(n, d, bits),
{
    let j = spacing_exp(n, d, bits);
    let p = pow2(j);
    let top = pow2(bits);
    let half = pow2((bits - 1) as nat);
    lemma_pow2_pos(j);
    lemma_spacing_bounds(n, d, bits);
    assert(n * c < (d * c) * top * p) by (nonlinear_arith)
        requires
            n < d * top * p,
            c > 0,
    ;
    assert(j > 0 ==> n * c >= (d * c) * half * p) by (nonlinear_arith)
        requires
            j > 0 ==> n >= d * half * p,
            c > 0,
    ;
    assert(d * c > 0) by (nonlinear_arith)
        requires
            d > 0,
            c > 0,
    ;
    lemma_spacing_unique(n * c, d * c, bits, j);
    assert(d * p > 0) by (nonlinear_arith)
        requires
            d > 0,
            p > 0,
    ;
    lemma_round_half_even_scales(n, d * p, c);
    assert((d * p) * c == (d * c) * p) by (nonlinear_arith);
}

/// Once the spacing around `n / d` is known, `nearest` is one rounded division.
pub proof fn lemma_nearest_at_spacing(n: nat, d: nat, bits: nat, j: nat)
    requires
        d > 0,
        bits >= 1,
        n < d * pow2(bits) * pow2(j),
        j > 0 ==> n >= d * pow2((bits - 1) as nat) * pow2(j),
    ensures
        nearest(n, d, bits) == round_half_even(n, d * pow2(j)) * pow2(j),
{
    lemma_spacing_unique(n, d, bits, j);
}

/// A number with a mantissa below `2^bits` is representable: rounding keeps it.
pub proof fn lemma_nearest_exact(m: nat, e: nat, bits: nat)
    requires
        bits >= 1,
        m < pow2(bits),
    ensures
        nearest(m * pow2(e), 1, bits) == m * pow2(e),
{
    let n = m * pow2(e);
    let j = spacing_exp(n, 1, bits);
    let top = pow2(bits);
    let half = pow2((bits - 1) as nat);
    lemma_spacing_bounds(n, 1, bits);
    lemma_pow2_unfold(bits);
    lemma_pow2_pos(e);
    lemma_pow2_pos(j);
    if j > e {
        lemma_pow2_ordered(e + 1, j);
        lemma_pow2_unfold(e + 1);
        assert(false) by (nonlinear_arith)
            requires
                n == m * pow2(e),
                m < top,
                top == 2 * half,
                n >= 1 * half * pow2(j),
                pow2(j) >= 2 * pow2(e),
                pow2(e) > 0,
        ;
    }
    let k = m * pow2((e - j) as nat);
    lemma_pow2_adds((e - j) as nat, j);
    assert(k * pow2(j) == n) by (nonlinear_arith)
        requires
            k == m * pow2((e - j) as nat),
            n == m * pow2(e),
            pow2(e) == pow2((e - j) as nat) * pow2(j),
    ;
    lemma_round_half_even_exact(k, pow2(j));
    assert(1 * pow2(j) == pow2(j));
}

/// Zero rounds to zero.
pub proof fn lemma_nearest_zero(d: nat, bits: nat)
    requires
        d > 0,
    ensures
        nearest(0, d, bits) == 0,
{
    lemma2_to64();
    assert(d * pow2(0) == d) by (nonlinear_arith)
        requires
            pow2(0) == 1,
    ;
    lemma_div_basics_1(d as int);
    lemma_small_mod(0, d);
    assert(spacing_exp(0, d, bits) == 0);
    assert(0nat / d == 0 && 0nat % d == 0);
    assert(round_half_even(0, d) == 0);
    assert(0 * pow2(0) == 0);
}

/// Rounding to the nearest representable number never reverses an order.
pub proof fn lemma_nearest_monotone(n1: nat, n2: nat, d: nat, bits: nat)
    requires
        d > 0,
        bits >= 1,
        n1 <= n2,
    ensures
        nearest(n1, d, bits) <= nearest(n2, d, bits),
{
    let j1 = spacing_exp(n1, d, bits);
    let j2 = spacing_exp(n2, d, bits);
    let pa = pow2(j1);
    let pb = pow2(j2);
    let top = pow2(bits);
    let half = pow2((bits - 1) as nat);
    lemma_spacing_bounds(n1, d, bits);
    lemma_spacing_bounds(n2, d, bits);
    lemma_pow2_unfold(bits);
    lemma_pow2_pos((bits - 1) as nat);
    lemma_pow2_pos(j1);
    lemma_pow2_pos(j2);
    assert(d * pa > 0 && d * pb > 0) by (nonlinear_arith)
        requires
            d > 0,
            pa > 0,
            pb > 0,
    ;
    if j1 > j2 {
        lemma_pow2_ordered(j2 + 1, j1);
        lemma_pow2_unfold(j2 + 1);
        assert(false) by (nonlinear_arith)
            requires
                n1 >= d * half * pa,
                n2 < d * top * pb,
                top == 2 * half,
                n1 <= n2,
                pa >= 2 * pb,
                d > 0,
                half > 0,
        ;
    } else if j1 == j2 {
        lemma_round_half_even_monotone(n1, n2, d * pa);
        lemma_mul_inequality(
            round_half_even(n1, d * pa) as int,
            round_half_even(n2, d * pa) as int,
            pa as int,
        );
    } else {
        lemma_pow2_ordered(j1 + 1, j2);
        lemma_pow2_unfold(j1 + 1);
        let r1 = round_half_even(n1, d * pa);
        let r2 = round_half_even(n2, d * pb);
        assert(n1 < (d * pa) * top) by (nonlinear_arith)
            requires
                n1 < d * top * pa,
        ;
        assert(n2 >= (d * pb) * half) by (nonlinear_arith)
            requires
                n2 >= d * half * pb,
        ;
        lemma_round_half_even_bounds(n1, d * pa, top);
        lemma_round_half_even_bounds(n2, d * pb, half);
        assert(r1 * pa <= r2 * pb) by (nonlinear_arith)
            requires
                r1 <= top,
                r2 >= half,
                top == 2 * half,
                pb >= 2 * pa,
                pa > 0,
        ;
    }
}

/// Powers of two with an exponent below 128 fit in 128 bits.
pub proof fn lemma_pow2_below_limit(k: nat)
    requires
        k < 128,
    ensures
        pow2(k) <= 0x8000_0000_0000_0000_0000_0000_0000_0000,
{
    lemma2_to64();
    lemma2_to64_rest();
    lemma_pow2_adds(63, 64);
    if k < 127 {
        lemma_pow2_strictly_increases(k, 127);
    }
}

/// 2^k as a machine integer.
pub(crate) fn pow2_u128(k: u32) -> (p: u128)
    requires
        k < 128,
    ensures
        p == pow2(k as nat),
        p > 0,
{
    let mut p: u128 = 1;
    let mut i: u32 = 0;
    proof {
        lemma2_to64();
    }
    while i < k
        invariant
            i <= k,
            k < 128,
            p == pow2(i as nat),
        decreases k - i,
    {
        proof {
            lemma_pow2_unfold((i + 1) as nat);
            lemma_pow2_below_limit((i + 1) as nat);
        }
        p = p * 2;
        i = i + 1;
    }
    proof {
        lemma_pow2_pos(k as nat);
    }
    p
}

/// The number of binary digits of `n`.
pub(crate) fn bit_length(n: u128) -> (l: u32)
    ensures
        l <= 128,
        n < pow2(l as nat),
        l > 0 ==> n >= pow2((l - 1) as nat),
        l == 0 <==> n == 0,
{
    let mut l: u32 = 0;
    let mut x: u128 = n;
    proof {
        lemma2_to64();
    }
    while x > 0
        invariant
            l <= 128,
            x == n as nat / pow2(l as nat),
            l > 0 ==> n >= pow2((l - 1) as nat),
            l == 0 ==> x == n,
        decreases x,
    {
        proof {
            let p = pow2(l as nat);
            lemma_pow2_pos(l as nat);
            lemma_fundamental_div_mod(n as int, p as int);
            assert(n >= p) by (nonlinear_arith)
                requires
                    n == p * (n as int / p as int) + (n as int % p as int),
                    n as int / p as int >= 1,
                    n as int % p as int >= 0,
                    p > 0,
            ;
            if l >= 128 {
                lemma2_to64();
                lemma_pow2_adds(64, 64);
                if l > 128 {
                    lemma_pow2_strictly_increases(128, l as nat);
                }
            }
            lemma_pow2_unfold((l + 1) as nat);
            lemma_div_denominator(n as int, p as int, 2);
        }
        x = x / 2;
        l = l + 1;
    }
    proof {
        let p = pow2(l as nat);
        lemma_pow2_pos(l as nat);
        lemma_fundamental_div_mod(n as int, p as int);
        lemma_mod_bound(n as int, p as int);
        assert(p * 0 == 0);
        if l > 0 {
            lemma_pow2_pos((l - 1) as nat);
        }
    }
    l
}

/// `n / d` rounded to the nearest whole number, ties to even.
pub(crate) fn divide_half_even(n: u128, d: u128) -> (q: u128)
    requires
        d > 0,
    ensures
        q == round_half_even(n as nat, d as nat),
        n / d <= q <= n / d + 1,
{
    let q = n / d;
    let r = n % d;
    if r == 0 {
        q
    } else {
        proof {
            lemma_fundamental_div_mod(n as int, d as int);
            assert(2 * q <= n) by (nonlinear_arith)
                requires
                    n == d * q + r,
                    r > 0,
                    r < d,
                    q >= 0,
            ;
        }
        let rest = d - r;
        if r < rest {
            q
        } else if r > rest {
            q + 1
        } else if q % 2 == 0 {
            q
        } else {
            q + 1
        }
    }
}

} // verus!
