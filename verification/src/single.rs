//! Single-precision arithmetic on non-negative numbers, stated over whole numbers.
//!
//! The smallest positive single-precision number is 2^-149, and every finite
//! single-precision number is a whole multiple of it. A non-negative number
//! `x` is therefore held here as the natural number `x * 2^149`, its count of
//! *units*. A count is representable when at most 24 leading binary digits of
//! it are significant; every operation returns the representable count nearest
//! to the exact result, a tie going to the neighbour with the even mantissa.
//!
//! The model has no infinity: it describes the arithmetic as long as results
//! stay below 2^128, which the colour formulas built on it do by a wide margin.

use crate::rounding::{
    bit_length, divide_half_even, lemma_nearest_at_spacing, lemma_nearest_exact,
    lemma_nearest_scales, lemma_nearest_zero, lemma_pow2_ordered, lemma_round_half_even_scales,
    nearest, pow2_u128,
};
use vstd::arithmetic::div_mod::*;
use vstd::arithmetic::mul::*;
use vstd::arithmetic::power2::*;
use vstd::prelude::*;

verus! {

/// The number of significant binary digits of a single-precision number.
pub open spec fn precision() -> nat {
    24
}

/// The number of units in 1.
pub open spec fn one() -> nat {
    pow2(149)
}

/// The whole number `k` as a count of units; exact for `k <= 2^24`.
pub open spec fn whole(k: nat) -> nat {
    k * one()
}

/// `n / d` rounded to single precision: what the decimal literal of a
/// fraction, or the quotient of two small whole numbers, evaluates to.
pub open spec fn ratio(n: nat, d: nat) -> nat
    recommends
        d > 0,
{
    nearest(n * one(), d, precision())
}

/// The rounded product of two counts.
pub open spec fn product(a: nat, b: nat) -> nat {
    nearest(a * b, one(), precision())
}

/// The rounded sum of two counts.
pub open spec fn sum(a: nat, b: nat) -> nat {
    nearest(a + b, 1, precision())
}

/// The rounded difference of two counts, for `b <= a`.
pub open spec fn difference(a: nat, b: nat) -> nat
    recommends
        b <= a,
{
    nearest((a - b) as nat, 1, precision())
}

/// The whole part of a count, capped at 255: a conversion to a byte that
/// drops the fraction and saturates.
pub open spec fn to_byte(a: nat) -> u8 {
    let w = a / one();
    if w > 255 {
        255u8
    } else {
        w as u8
    }
}

/// The count that a 32-bit pattern encodes, its sign bit left aside: eight
/// bits of exponent, twenty-three bits of fraction.
pub open spec fn units_of_bits(bits: u32) -> nat {
    let fraction = (bits % 0x80_0000) as nat;
    let field = ((bits / 0x80_0000) % 0x100) as nat;
    if field == 0 {
        fraction
    } else {
        (0x80_0000 + fraction) * pow2((field - 1) as nat)
    }
}

/// Whether a 32-bit pattern encodes a finite number that is not negative.
pub open spec fn is_finite_nonnegative(bits: u32) -> bool {
    bits < 0x7f80_0000
}

/// A whole multiple of a count is rounded once, from the exact product.
pub proof fn lemma_product_of_whole(k: nat, x: nat)
    ensures
        product(whole(k), x) == nearest(k * x, 1, precision()),
        product(x, whole(k)) == nearest(k * x, 1, precision()),
{
    lemma_pow2_pos(149);
    lemma_nearest_scales(k * x, 1, one(), 24);
    assert(whole(k) * x == (k * x) * one()) by (nonlinear_arith)
        requires
            whole(k) == k * one(),
    ;
    assert(x * whole(k) == (k * x) * one()) by (nonlinear_arith)
        requires
            whole(k) == k * one(),
    ;
    assert(1 * one() == one());
}

/// Whole numbers below 2^24 are representable.
pub proof fn lemma_whole_is_exact(k: nat)
    requires
        k < 0x100_0000,
    ensures
        nearest(whole(k), 1, precision()) == whole(k),
{
    lemma2_to64();
    lemma_nearest_exact(k, 149, 24);
}

/// The whole part of a count lies where the count lies among whole numbers.
pub proof fn lemma_to_byte_between(a: nat, lo: nat, hi: nat)
    requires
        whole(lo) <= a <= whole(hi),
    ensures
        lo <= a / one() <= hi,
        hi <= 255 ==> lo <= to_byte(a) <= hi,
{
    lemma_pow2_pos(149);
    lemma_div_is_ordered(whole(lo) as int, a as int, one() as int);
    lemma_div_is_ordered(a as int, whole(hi) as int, one() as int);
    lemma_div_multiples_vanish(lo as int, one() as int);
    lemma_div_multiples_vanish(hi as int, one() as int);
    lemma_mul_is_commutative(lo as int, one() as int);
    lemma_mul_is_commutative(hi as int, one() as int);
}

/// A representable count: `mantissa * 2^exponent` units.
#[derive(Clone, Copy)]
pub(crate) struct Single {
    pub(crate) mantissa: u32,
    pub(crate) exponent: u32,
}

impl View for Single {
    type V = nat;

    closed spec fn view(&self) -> nat {
        self.mantissa as nat * pow2(self.exponent as nat)
    }
}

impl Single {
    /// The mantissa has at most 24 significant digits (2^24 itself included,
    /// which rounding up can produce), and the exponent leaves headroom.
    pub(crate) open spec fn wf(&self) -> bool {
        self.mantissa <= 0x100_0000 && self.exponent <= 1000
    }

    /// `n * 2^e` units, rounded to the nearest representable count.
    fn rounded(n: u128, e: u32) -> (r: Single)
        requires
            e <= 896,
        ensures
            r.wf(),
            r@ == nearest(n as nat * pow2(e as nat), 1, precision()),
            e <= r.exponent <= e + 104,
            n < pow2((24 + r.exponent - e) as nat),
            r.exponent > e ==> n >= pow2((23 + r.exponent - e) as nat),
    {
        let l = bit_length(n);
        if l <= 24 {
            proof {
                lemma2_to64();
                lemma_pow2_ordered(l as nat, 24);
                lemma_nearest_exact(n as nat, e as nat, 24);
            }
            Single { mantissa: n as u32, exponent: e }
        } else {
            let s = l - 24;
            let p = pow2_u128(s);
            proof {
                lemma_pow2_pos(s as nat);
            }
            let q = divide_half_even(n, p);
            proof {
                lemma2_to64();
                let pe = pow2(e as nat);
                let j = (e + s) as nat;
                lemma_pow2_pos(e as nat);
                lemma_pow2_pos(s as nat);
                lemma_pow2_adds(s as nat, e as nat);
                lemma_pow2_adds(24, s as nat);
                lemma_pow2_adds(23, s as nat);
                assert(n as nat * pe < 1 * 0x100_0000 * pow2(j)) by (nonlinear_arith)
                    requires
                        n < 0x100_0000 * p,
                        pow2(j) == p * pe,
                        pe > 0,
                ;
                assert(n as nat * pe >= 1 * 0x80_0000 * pow2(j)) by (nonlinear_arith)
                    requires
                        n >= 0x80_0000 * p,
                        pow2(j) == p * pe,
                        pe > 0,
                ;
                lemma_nearest_at_spacing(n as nat * pe, 1, 24, j);
                lemma_round_half_even_scales(n as nat, p as nat, pe);
                assert(1 * pow2(j) == p as nat * pe);
                lemma_mul_is_commutative(0x100_0000, p as int);
                lemma_multiply_divide_lt(n as int, p as int, 0x100_0000);
            }
            Single { mantissa: q as u32, exponent: e + s }
        }
    }

    /// The whole number `k`.
    pub(crate) fn from_whole(k: u32) -> (r: Single)
        requires
            k <= 0x100_0000,
        ensures
            r.wf(),
            r@ == whole(k as nat),
            r.exponent == 149,
    {
        Single { mantissa: k, exponent: 149 }
    }

    /// `n / d`, rounded.
    pub(crate) fn from_ratio(n: u32, d: u32) -> (r: Single)
        requires
            n < 0x100_0000,
            0 < d <= 255,
        ensures
            r.wf(),
            r@ == ratio(n as nat, d as nat),
            118 <= r.exponent <= 149,
            n >= d ==> r.exponent >= 126,
            n <= d ==> r@ <= one(),
            n == 0 ==> r.mantissa == 0,
            n > 0 ==> r.mantissa >= 0x80_0000,
    {
        if n == 0 {
            proof {
                assert(0nat * one() == 0);
                lemma_nearest_zero(d as nat, 24);
                assert(0nat * pow2(149) == 0);
            }
            return Single { mantissa: 0, exponent: 149 };
        }
        let ln = bit_length(n as u128);
        let ld = bit_length(d as u128);
        proof {
            lemma2_to64();
            if ln > 24 {
                lemma_pow2_ordered(24, (ln - 1) as nat);
            }
            if ld > 8 {
                lemma_pow2_ordered(8, (ld - 1) as nat);
            }
        }
        let z0: u32 = 24 + ld - ln;
        let start = pow2_u128(z0);
        proof {
            lemma_pow2_adds(ln as nat, z0 as nat);
            lemma_pow2_adds((ln - 1) as nat, z0 as nat);
            lemma_pow2_adds(24, ld as nat);
            lemma_pow2_adds(23, ld as nat);
            lemma_pow2_adds(24, (ld - 1) as nat);
            lemma_pow2_unfold(ld as nat);
            lemma_pow2_ordered((24 + ld) as nat, 32);
            assert(n as nat * start < pow2(ln as nat) * start) by (nonlinear_arith)
                requires
                    n < pow2(ln as nat),
                    start > 0,
            ;
            assert(n as nat * start >= pow2((ln - 1) as nat) * start) by (nonlinear_arith)
                requires
                    n >= pow2((ln - 1) as nat),
                    start > 0,
            ;
        }
        let num0: u128 = (n as u128) * start;
        let bound: u128 = (d as u128) * 0x100_0000;
        let z: u32 = if num0 >= bound {
            z0 - 1
        } else {
            z0
        };
        let pz = pow2_u128(z);
        proof {
            if z < z0 {
                lemma_pow2_unfold(z0 as nat);
            }
            assert(n as nat * pz <= n as nat * start) by (nonlinear_arith)
                requires
                    pz <= start,
            ;
        }
        let num: u128 = (n as u128) * pz;
        let q = divide_half_even(num, d as u128);
        proof {
            let j = (149 - z) as nat;
            let pj = pow2(j);
            lemma_pow2_pos(j);
            lemma_pow2_adds(z as nat, j);
            assert(d as nat * 0x80_0000 <= num < d as nat * 0x100_0000) by {
                if z < z0 {
                    assert(n as nat * (2 * pz) == 2 * (n as nat * pz)) by (nonlinear_arith);
                }
            }
            assert(n as nat * one() == num as nat * pj) by (nonlinear_arith)
                requires
                    num == n as nat * pz,
                    one() == pz as nat * pj,
            ;
            assert(num as nat * pj < d as nat * 0x100_0000 * pj) by (nonlinear_arith)
                requires
                    num < d as nat * 0x100_0000,
                    pj > 0,
            ;
            assert(num as nat * pj >= d as nat * 0x80_0000 * pj) by (nonlinear_arith)
                requires
                    num >= d as nat * 0x80_0000,
                    pj > 0,
            ;
            lemma_nearest_at_spacing(n as nat * one(), d as nat, 24, j);
            lemma_round_half_even_scales(num as nat, d as nat, pj);
            lemma_mul_is_commutative(0x100_0000, d as int);
            lemma_multiply_divide_lt(num as int, d as int, 0x100_0000);
            if n >= d && z >= 24 {
                lemma_pow2_ordered(24, z as nat);
                assert(num >= d as nat * 0x100_0000) by (nonlinear_arith)
                    requires
                        num == n as nat * pz,
                        n >= d,
                        pz >= 0x100_0000,
                ;
            }
            if n <= d {
                assert(num <= d as nat * pz) by (nonlinear_arith)
                    requires
                        num == n as nat * pz,
                        n <= d,
                ;
                lemma_fundamental_div_mod(num as int, d as int);
                lemma_mod_bound(num as int, d as int);
                let f = num as int / d as int;
                let r = num as int % d as int;
                assert(q <= pz) by (nonlinear_arith)
                    requires
                        num == d * f + r,
                        0 <= r < d,
                        num <= d * pz,
                        q == f || (q == f + 1 && r > 0),
                        d > 0,
                ;
                assert(q as nat * pj <= pz as nat * pj) by (nonlinear_arith)
                    requires
                        q <= pz,
                ;
            }
        }
        proof {
            lemma_mul_is_commutative(0x80_0000, d as int);
            lemma_div_is_ordered((d * 0x80_0000) as int, num as int, d as int);
            lemma_div_multiples_vanish(0x80_0000, d as int);
        }
        Single { mantissa: q as u32, exponent: 149 - z }
    }

    /// The count that a bit pattern encodes.
    pub(crate) fn from_bits(bits: u32) -> (r: Single)
        requires
            is_finite_nonnegative(bits),
        ensures
            r.wf(),
            r@ == units_of_bits(bits),
            r.exponent <= 253,
    {
        let fraction: u32 = bits % 0x80_0000;
        let field: u32 = (bits / 0x80_0000) % 0x100;
        if field == 0 {
            proof {
                lemma2_to64();
                assert(fraction as nat * pow2(0) == fraction) by (nonlinear_arith)
                    requires
                        pow2(0) == 1,
                ;
            }
            Single { mantissa: fraction, exponent: 0 }
        } else {
            Single { mantissa: 0x80_0000 + fraction, exponent: field - 1 }
        }
    }

    /// The bits that encode this count.
    pub(crate) fn to_bits(self) -> (bits: u32)
        requires
            self.wf(),
            self.mantissa == 0 || self.mantissa >= 0x80_0000,
            self.exponent <= 252,
        ensures
            is_finite_nonnegative(bits),
            units_of_bits(bits) == self@,
    {
        if self.mantissa == 0 {
            assert(0nat * pow2(self.exponent as nat) == 0);
            0
        } else {
            let (mantissa, exponent): (u32, u32) = if self.mantissa == 0x100_0000 {
                proof {
                    lemma_pow2_unfold((self.exponent + 1) as nat);
                    assert(0x100_0000 * pow2(self.exponent as nat) == 0x80_0000 * (2 * pow2(
                        self.exponent as nat,
                    ))) by (nonlinear_arith);
                }
                (0x80_0000, self.exponent + 1)
            } else {
                (self.mantissa, self.exponent)
            };
            let field: u32 = exponent + 1;
            let fraction: u32 = mantissa - 0x80_0000;
            let bits: u32 = field * 0x80_0000 + fraction;
            assert(bits % 0x80_0000 == fraction);
            assert((bits / 0x80_0000) % 0x100 == field);
            bits
        }
    }

    /// The rounded product.
    pub(crate) fn times(self, other: Single) -> (r: Single)
        requires
            self.wf(),
            other.wf(),
            149 <= self.exponent + other.exponent <= 1000,
        ensures
            r.wf(),
            r@ == product(self@, other@),
            self.exponent + other.exponent - 149 <= r.exponent <= self.exponent + other.exponent
                - 124,
    {
        assert(self.mantissa as nat * other.mantissa as nat <= 0x1_0000_0000_0000)
            by (nonlinear_arith)
            requires
                self.mantissa <= 0x100_0000,
                other.mantissa <= 0x100_0000,
        ;
        let n: u128 = (self.mantissa as u128) * (other.mantissa as u128);
        let e: u32 = self.exponent + other.exponent - 149;
        let r = Single::rounded(n, e);
        proof {
            let pa = pow2(self.exponent as nat);
            let pb = pow2(other.exponent as nat);
            let pe = pow2(e as nat);
            lemma_pow2_adds(self.exponent as nat, other.exponent as nat);
            lemma_pow2_adds(e as nat, 149);
            lemma_pow2_pos(149);
            assert(self@ * other@ == (n as nat * pe) * one()) by (nonlinear_arith)
                requires
                    self@ == self.mantissa as nat * pa,
                    other@ == other.mantissa as nat * pb,
                    n == self.mantissa as nat * other.mantissa as nat,
                    pa * pb == pe * one(),
            ;
            lemma_nearest_scales(n as nat * pe, 1, one(), 24);
            assert(1 * one() == one());
            if r.exponent > e + 25 {
                lemma2_to64_rest();
                lemma_pow2_ordered(49, (23 + r.exponent - e) as nat);
            }
        }
        r
    }

    /// The rounded sum.
    pub(crate) fn plus(self, other: Single) -> (r: Single)
        requires
            self.wf(),
            other.wf(),
            self.exponent <= other.exponent + 100,
            other.exponent <= self.exponent + 100,
            self.exponent <= 800,
            other.exponent <= 800,
        ensures
            r.wf(),
            r@ == sum(self@, other@),
            self.exponent <= r.exponent || other.exponent <= r.exponent,
            r.exponent <= self.exponent + 2 || r.exponent <= other.exponent + 2,
    {
        let e: u32 = if self.exponent <= other.exponent {
            self.exponent
        } else {
            other.exponent
        };
        let sa: u32 = self.exponent - e;
        let sb: u32 = other.exponent - e;
        let pa = pow2_u128(sa);
        let pb = pow2_u128(sb);
        proof {
            lemma_aligned_fits(self.mantissa as nat, sa as nat);
            lemma_aligned_fits(other.mantissa as nat, sb as nat);
        }
        let n: u128 = (self.mantissa as u128) * pa + (other.mantissa as u128) * pb;
        let r = Single::rounded(n, e);
        proof {
            let pe = pow2(e as nat);
            lemma_pow2_adds(sa as nat, e as nat);
            lemma_pow2_adds(sb as nat, e as nat);
            assert(self@ + other@ == n as nat * pe) by (nonlinear_arith)
                requires
                    self@ == self.mantissa as nat * (pa as nat * pe),
                    other@ == other.mantissa as nat * (pb as nat * pe),
                    n == self.mantissa as nat * pa as nat + other.mantissa as nat * pb as nat,
            ;
            let top = if sa >= sb {
                sa
            } else {
                sb
            };
            if r.exponent > e + top + 2 {
                lemma_pow2_ordered((26 + top) as nat, (23 + r.exponent - e) as nat);
                lemma_pow2_adds(24, sa as nat);
                lemma_pow2_adds(24, sb as nat);
                lemma_pow2_ordered((24 + sa) as nat, (24 + top) as nat);
                lemma_pow2_ordered((24 + sb) as nat, (24 + top) as nat);
                lemma_pow2_unfold((25 + top) as nat);
                lemma_pow2_unfold((26 + top) as nat);
                lemma2_to64();
                assert(self.mantissa as nat * pa as nat <= pow2(24) * pa as nat) by (nonlinear_arith)
                    requires
                        self.mantissa <= pow2(24),
                ;
                assert(other.mantissa as nat * pb as nat <= pow2(24) * pb as nat)
                    by (nonlinear_arith)
                    requires
                        other.mantissa <= pow2(24),
                ;
            }
        }
        r
    }

    /// The rounded difference of a count and a smaller one.
    pub(crate) fn minus(self, other: Single) -> (r: Single)
        requires
            self.wf(),
            other.wf(),
            other@ <= self@,
            self.exponent <= other.exponent + 100,
            other.exponent <= self.exponent + 100,
            self.exponent <= 800,
            other.exponent <= 800,
        ensures
            r.wf(),
            r@ == difference(self@, other@),
            self.exponent <= r.exponent || other.exponent <= r.exponent,
            r.exponent <= self.exponent + 1 || r.exponent <= other.exponent + 1,
    {
        let e: u32 = if self.exponent <= other.exponent {
            self.exponent
        } else {
            other.exponent
        };
        let sa: u32 = self.exponent - e;
        let sb: u32 = other.exponent - e;
        let pa = pow2_u128(sa);
        let pb = pow2_u128(sb);
        proof {
            lemma_aligned_fits(self.mantissa as nat, sa as nat);
            lemma_aligned_fits(other.mantissa as nat, sb as nat);
            let pe = pow2(e as nat);
            lemma_pow2_pos(e as nat);
            lemma_pow2_adds(sa as nat, e as nat);
            lemma_pow2_adds(sb as nat, e as nat);
            assert(other.mantissa as nat * pb as nat <= self.mantissa as nat * pa as nat)
                by (nonlinear_arith)
                requires
                    other.mantissa as nat * (pb as nat * pe) <= self.mantissa as nat * (pa as nat
                        * pe),
                    pe > 0,
            ;
        }
        let n: u128 = (self.mantissa as u128) * pa - (other.mantissa as u128) * pb;
        let r = Single::rounded(n, e);
        proof {
            let pe = pow2(e as nat);
            assert((self@ - other@) as nat == n as nat * pe) by (nonlinear_arith)
                requires
                    self@ == self.mantissa as nat * (pa as nat * pe),
                    other@ == other.mantissa as nat * (pb as nat * pe),
                    n == self.mantissa as nat * pa as nat - other.mantissa as nat * pb as nat,
                    other@ <= self@,
            ;
            let top = if sa >= sb {
                sa
            } else {
                sb
            };
            if r.exponent > e + top + 1 {
                lemma_pow2_ordered((25 + top) as nat, (23 + r.exponent - e) as nat);
                lemma_pow2_adds(24, sa as nat);
                lemma_pow2_ordered((24 + sa) as nat, (24 + top) as nat);
                lemma_pow2_unfold((25 + top) as nat);
                lemma_pow2_pos((24 + top) as nat);
                lemma2_to64();
                assert(self.mantissa as nat * pa as nat <= pow2(24) * pa as nat) by (nonlinear_arith)
                    requires
                        self.mantissa <= pow2(24),
                ;
            }
        }
        r
    }

    /// The whole part, capped at 255.
    pub(crate) fn to_byte(self) -> (b: u8)
        requires
            self.wf(),
        ensures
            b == to_byte(self@),
    {
        if self.mantissa == 0 {
            proof {
                lemma_pow2_pos(149);
                assert(0nat * pow2(self.exponent as nat) == 0);
                assert(0nat / one() == 0) by (nonlinear_arith)
                    requires
                        one() > 0,
                ;
            }
            0
        } else if self.exponent >= 149 {
            let up: u32 = self.exponent - 149;
            proof {
                let pu = pow2(up as nat);
                lemma_pow2_pos(149);
                lemma_pow2_adds(up as nat, 149);
                assert(self@ == (self.mantissa as nat * pu) * one()) by (nonlinear_arith)
                    requires
                        self@ == self.mantissa as nat * (pu * one()),
                ;
                lemma_div_multiples_vanish((self.mantissa as nat * pu) as int, one() as int);
                lemma_mul_is_commutative((self.mantissa as nat * pu) as int, one() as int);
                lemma2_to64();
                if up >= 8 {
                    lemma_pow2_ordered(8, up as nat);
                    assert(self.mantissa as nat * pu >= 256) by (nonlinear_arith)
                        requires
                            self.mantissa >= 1,
                            pu >= 256,
                    ;
                }
            }
            if up >= 8 {
                255
            } else {
                let pu = pow2_u128(up);
                proof {
                    lemma_pow2_ordered(up as nat, 7);
                    assert(self.mantissa as nat * pu as nat <= 0x100_0000 * 128) by (nonlinear_arith)
                        requires
                            self.mantissa <= 0x100_0000,
                            pu <= 128,
                    ;
                }
                let w: u128 = (self.mantissa as u128) * pu;
                if w > 255 {
                    255
                } else {
                    w as u8
                }
            }
        } else {
            let down: u32 = 149 - self.exponent;
            proof {
                let pe = pow2(self.exponent as nat);
                let pd = pow2(down as nat);
                lemma_pow2_pos(self.exponent as nat);
                lemma_pow2_pos(down as nat);
                lemma_pow2_adds(self.exponent as nat, down as nat);
                lemma_div_multiples_vanish_quotient(pe as int, self.mantissa as int, pd as int);
                lemma_mul_is_commutative(pe as int, self.mantissa as int);
                lemma2_to64();
                if down >= 25 {
                    lemma_pow2_ordered(25, down as nat);
                    lemma_basic_div(self.mantissa as int, pd as int);
                }
            }
            if down >= 25 {
                0
            } else {
                let pd = pow2_u128(down);
                let w: u128 = (self.mantissa as u128) / pd;
                if w > 255 {
                    255
                } else {
                    w as u8
                }
            }
        }
    }
}

/// A mantissa shifted up by at most 100 places fits in 128 bits.
proof fn lemma_aligned_fits(m: nat, s: nat)
    requires
        m <= 0x100_0000,
        s <= 100,
    ensures
        m * pow2(s) <= 0x1000_0000_0000_0000_0000_0000_0000_0000,
{
    lemma2_to64();
    lemma2_to64_rest();
    lemma_pow2_adds(50, 50);
    lemma_pow2_ordered(s, 100);
    assert(m * pow2(s) <= 0x100_0000 * 0x10_0000_0000_0000_0000_0000_0000) by (nonlinear_arith)
        requires
            m <= 0x100_0000,
            pow2(s) <= 0x10_0000_0000_0000_0000_0000_0000,
    ;
}

} // verus!
