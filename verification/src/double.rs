//! Double-precision arithmetic, stated over whole numbers.
//!
//! The smallest positive double-precision number is 2^-1074, and every finite
//! double-precision number is a whole multiple of it. A finite number is held
//! here as its signed count of such *units*; beside the finite numbers stand
//! the two infinities and the one not-a-number. A result is the representable
//! count nearest to the exact one (53 significant binary digits, ties to
//! even), and an infinity once that count reaches 2^1024.
//!
//! The two zeros of the format are one number here: no operation below can
//! tell them apart.

use crate::rounding::{
    bit_length, divide_half_even, lemma_nearest_at_spacing, lemma_nearest_exact,
    lemma_nearest_monotone, lemma_nearest_zero, lemma_pow2_ordered, lemma_round_half_even_exact,
    lemma_round_half_even_scales, nearest, pow2_u128, round_half_even,
};
use vstd::arithmetic::div_mod::*;
use vstd::arithmetic::mul::*;
use vstd::arithmetic::power2::*;
use vstd::prelude::*;

verus! {

/// What a double-precision value stands for.
pub enum Number {
    /// Not a number.
    Nan,
    /// An infinity.
    Infinite { negative: bool },
    /// A finite number, counted in units of 2^-1074.
    Finite { units: int },
}

/// The number of significant binary digits of a double-precision number.
pub open spec fn precision() -> nat {
    53
}

/// The number of units in 1.
pub open spec fn one() -> nat {
    pow2(1074)
}

/// The number of units in 2^1024, the least magnitude that is out of range.
pub open spec fn limit() -> nat {
    pow2(2098)
}

/// The absolute value of a count.
pub open spec fn magnitude(x: int) -> nat {
    if x < 0 {
        (-x) as nat
    } else {
        x as nat
    }
}

/// The count `m`, with a sign.
pub open spec fn signed(negative: bool, m: nat) -> int {
    if negative {
        -(m as int)
    } else {
        m as int
    }
}

/// The double nearest to `n / d` units, negated if `negative`.
pub open spec fn rounded(negative: bool, n: nat, d: nat) -> Number
    recommends
        d > 0,
{
    let m = nearest(n, d, precision());
    if m >= limit() {
        Number::Infinite { negative }
    } else {
        Number::Finite { units: signed(negative, m) }
    }
}

/// The whole number `k`.
pub open spec fn whole(k: nat) -> Number {
    Number::Finite { units: (k * one()) as int }
}

/// A whole number below 2^64 converted to double precision, in units.
pub open spec fn whole_units(k: nat) -> nat {
    nearest(k * one(), 1, precision())
}

/// The quotient of two whole numbers, each converted to double precision
/// first.
pub open spec fn whole_ratio(k: nat, of: nat) -> Number
    recommends
        of > 0,
{
    rounded(false, whole_units(k) * one(), whole_units(of))
}

/// The number with the opposite sign.
pub open spec fn negated(a: Number) -> Number {
    match a {
        Number::Nan => Number::Nan,
        Number::Infinite { negative } => Number::Infinite { negative: !negative },
        Number::Finite { units } => Number::Finite { units: -units },
    }
}

/// The rounded sum.
pub open spec fn sum(a: Number, b: Number) -> Number {
    match (a, b) {
        (Number::Nan, _) => Number::Nan,
        (_, Number::Nan) => Number::Nan,
        (Number::Infinite { negative: s }, Number::Infinite { negative: t }) => if s == t {
            a
        } else {
            Number::Nan
        },
        (Number::Infinite { .. }, Number::Finite { .. }) => a,
        (Number::Finite { .. }, Number::Infinite { .. }) => b,
        (Number::Finite { units: x }, Number::Finite { units: y }) => rounded(
            x + y < 0,
            magnitude(x + y),
            1,
        ),
    }
}

/// The rounded difference.
pub open spec fn difference(a: Number, b: Number) -> Number {
    sum(a, negated(b))
}

/// The rounded product.
pub open spec fn product(a: Number, b: Number) -> Number {
    match (a, b) {
        (Number::Nan, _) => Number::Nan,
        (_, Number::Nan) => Number::Nan,
        (Number::Infinite { negative: s }, Number::Infinite { negative: t }) => Number::Infinite {
            negative: s != t,
        },
        (Number::Infinite { negative: s }, Number::Finite { units: y }) => if y == 0 {
            Number::Nan
        } else {
            Number::Infinite { negative: s != (y < 0) }
        },
        (Number::Finite { units: x }, Number::Infinite { negative: t }) => if x == 0 {
            Number::Nan
        } else {
            Number::Infinite { negative: (x < 0) != t }
        },
        (Number::Finite { units: x }, Number::Finite { units: y }) => rounded(
            (x < 0) != (y < 0),
            magnitude(x) * magnitude(y),
            one(),
        ),
    }
}

/// Whether `a` is less than `b`; never so when either is not a number.
pub open spec fn less(a: Number, b: Number) -> bool {
    match (a, b) {
        (Number::Nan, _) => false,
        (_, Number::Nan) => false,
        (Number::Infinite { negative: s }, Number::Infinite { negative: t }) => s && !t,
        (Number::Infinite { negative: s }, Number::Finite { .. }) => s,
        (Number::Finite { .. }, Number::Infinite { negative: t }) => !t,
        (Number::Finite { units: x }, Number::Finite { units: y }) => x < y,
    }
}

/// The number that a 64-bit pattern encodes: a sign bit, eleven bits of
/// exponent, fifty-two bits of fraction.
pub open spec fn of_bits(bits: u64) -> Number {
    let fraction = (bits % 0x10_0000_0000_0000) as nat;
    let field = ((bits / 0x10_0000_0000_0000) % 0x800) as nat;
    let negative = bits >= 0x8000_0000_0000_0000;
    if field == 0x7ff {
        if fraction == 0 {
            Number::Infinite { negative }
        } else {
            Number::Nan
        }
    } else if field == 0 {
        Number::Finite { units: signed(negative, fraction) }
    } else {
        Number::Finite {
            units: signed(
                negative,
                (0x10_0000_0000_0000 + fraction) * pow2((field - 1) as nat),
            ),
        }
    }
}

/// A double-precision number, held as the 64 bits that encode it.
///
/// Two values are equal when their bits are; the numbers they stand for are
/// compared by `is_less`.
#[derive(Clone, Copy, PartialEq, Eq, Debug, Structural)]
pub struct Double {
    pub bits: u64,
}

impl View for Double {
    type V = Number;

    open spec fn view(&self) -> Number {
        of_bits(self.bits)
    }
}

/// The three kinds of value.
#[derive(Clone, Copy, PartialEq, Eq, Structural)]
pub(crate) enum Class {
    Nan,
    Infinite,
    Finite,
}

/// A value taken apart: for a finite one, `mantissa * 2^exponent` units.
#[derive(Clone, Copy)]
pub(crate) struct Unpacked {
    pub(crate) class: Class,
    pub(crate) negative: bool,
    pub(crate) mantissa: u64,
    pub(crate) exponent: u32,
}

impl View for Unpacked {
    type V = Number;

    closed spec fn view(&self) -> Number {
        match self.class {
            Class::Nan => Number::Nan,
            Class::Infinite => Number::Infinite { negative: self.negative },
            Class::Finite => Number::Finite {
                units: signed(self.negative, self.mantissa as nat * pow2(self.exponent as nat)),
            },
        }
    }
}

/// A mantissa and an exponent in the one form that the format has for their
/// product: the mantissa below 2^53, and at least 2^52 unless the exponent is
/// the lowest.
pub open spec fn canonical(mantissa: nat, exponent: nat) -> bool {
    &&& mantissa < 0x20_0000_0000_0000
    &&& exponent <= 2045
    &&& exponent > 0 ==> mantissa >= 0x10_0000_0000_0000
}

/// A canonical count is representable and in range.
pub proof fn lemma_canonical_is_exact(mantissa: nat, exponent: nat)
    requires
        canonical(mantissa, exponent),
    ensures
        nearest(mantissa * pow2(exponent), 1, precision()) == mantissa * pow2(exponent),
        mantissa * pow2(exponent) < limit(),
{
    lemma2_to64_rest();
    lemma_nearest_exact(mantissa, exponent, 53);
    lemma_pow2_ordered(exponent, 2045);
    lemma_pow2_adds(53, 2045);
    lemma_pow2_pos(exponent);
    assert(mantissa * pow2(exponent) < pow2(53) * pow2(2045)) by (nonlinear_arith)
        requires
            mantissa < pow2(53),
            0 < pow2(exponent) <= pow2(2045),
    ;
}

/// Canonical counts are ordered as their exponents are, and as their
/// mantissas where the exponents agree.
pub proof fn lemma_canonical_order(m1: nat, e1: nat, m2: nat, e2: nat)
    requires
        canonical(m1, e1),
        canonical(m2, e2),
    ensures
        m1 * pow2(e1) < m2 * pow2(e2) <==> e1 < e2 || (e1 == e2 && m1 < m2),
{
    lemma2_to64_rest();
    lemma_pow2_pos(e1);
    lemma_pow2_pos(e2);
    if e1 < e2 {
        lemma_pow2_ordered(e1 + 1, e2);
        lemma_pow2_unfold(e1 + 1);
        assert(m1 * pow2(e1) < m2 * pow2(e2)) by (nonlinear_arith)
            requires
                m1 < 0x20_0000_0000_0000,
                m2 >= 0x10_0000_0000_0000,
                pow2(e2) >= 2 * pow2(e1),
                pow2(e1) > 0,
        ;
    } else if e2 < e1 {
        lemma_pow2_ordered(e2 + 1, e1);
        lemma_pow2_unfold(e2 + 1);
        assert(m2 * pow2(e2) < m1 * pow2(e1)) by (nonlinear_arith)
            requires
                m2 < 0x20_0000_0000_0000,
                m1 >= 0x10_0000_0000_0000,
                pow2(e1) >= 2 * pow2(e2),
                pow2(e2) > 0,
        ;
    } else {
        assert(m1 * pow2(e1) < m2 * pow2(e1) <==> m1 < m2) by (nonlinear_arith)
            requires
                pow2(e1) > 0,
        ;
    }
}

/// A count with a full mantissa absorbs anything up to a quarter of its
/// spacing, added or taken away.
pub proof fn lemma_absorbs(m: nat, e: nat, b: nat)
    requires
        0x10_0000_0000_0000 <= m < 0x20_0000_0000_0000,
        e >= 2,
        b <= pow2((e - 2) as nat),
    ensures
        b < m * pow2(e),
        nearest(m * pow2(e) + b, 1, precision()) == m * pow2(e),
        nearest((m * pow2(e) - b) as nat, 1, precision()) == m * pow2(e),
{
    lemma2_to64();
    lemma2_to64_rest();
    let q = pow2((e - 2) as nat);
    let a = m * pow2(e);
    lemma_pow2_pos((e - 2) as nat);
    lemma_pow2_adds(2, (e - 2) as nat);
    lemma_pow2_adds(1, (e - 2) as nat);
    lemma_pow2_adds(1, (e - 1) as nat);
    assert(a == (4 * m) * q) by (nonlinear_arith)
        requires
            a == m * pow2(e),
            pow2(e) == 4 * q,
    ;
    assert(b < a) by (nonlinear_arith)
        requires
            a == (4 * m) * q,
            b <= q,
            m >= 1,
            q > 0,
    ;
    lemma_nearest_exact(m, e, 53);
    // a quarter above
    let up = (4 * m + 1) * q;
    assert(up == a + q) by (nonlinear_arith)
        requires
            up == (4 * m + 1) * q,
            a == (4 * m) * q,
    ;
    assert(up < 1 * pow2(53) * pow2(e) && up >= 1 * pow2(52) * pow2(e)) by (nonlinear_arith)
        requires
            up == (4 * m + 1) * q,
            pow2(e) == 4 * q,
            pow2(53) == 0x20_0000_0000_0000,
            pow2(52) == 0x10_0000_0000_0000,
            0x10_0000_0000_0000 <= m < 0x20_0000_0000_0000,
            q > 0,
    ;
    lemma_nearest_at_spacing(up, 1, 53, e);
    lemma_round_half_even_scales(4 * m + 1, 4, q);
    assert(1 * pow2(e) == 4 * q);
    assert(round_half_even(4 * m + 1, 4) == m);
    lemma_nearest_monotone(a, a + b, 1, 53);
    lemma_nearest_monotone(a + b, up, 1, 53);
    // a quarter below
    let down = (4 * m - 1) as nat * q;
    assert(down == a - q) by (nonlinear_arith)
        requires
            down == (4 * m - 1) * q,
            a == (4 * m) * q,
    ;
    if m > 0x10_0000_0000_0000 {
        assert(down < 1 * pow2(53) * pow2(e) && down >= 1 * pow2(52) * pow2(e))
            by (nonlinear_arith)
            requires
                down == (4 * m - 1) * q,
                pow2(e) == 4 * q,
                pow2(53) == 0x20_0000_0000_0000,
                pow2(52) == 0x10_0000_0000_0000,
                0x10_0000_0000_0000 < m < 0x20_0000_0000_0000,
                q > 0,
        ;
        lemma_nearest_at_spacing(down, 1, 53, e);
        lemma_round_half_even_scales((4 * m - 1) as nat, 4, q);
        assert(round_half_even((4 * m - 1) as nat, 4) == m);
    } else {
        let f = (e - 1) as nat;
        assert(pow2(f) == 2 * q);
        assert(down < 1 * pow2(53) * pow2(f) && down >= 1 * pow2(52) * pow2(f))
            by (nonlinear_arith)
            requires
                down == (4 * m - 1) * q,
                pow2(f) == 2 * q,
                pow2(53) == 0x20_0000_0000_0000,
                pow2(52) == 0x10_0000_0000_0000,
                m == 0x10_0000_0000_0000,
                q > 0,
        ;
        lemma_nearest_at_spacing(down, 1, 53, f);
        lemma_round_half_even_scales((4 * m - 1) as nat, 2, q);
        assert(1 * pow2(f) == 2 * q);
        assert(round_half_even((4 * m - 1) as nat, 2) == 0x20_0000_0000_0000);
        assert(0x20_0000_0000_0000 * (2 * q) == (4 * m) * q) by (nonlinear_arith)
            requires
                m == 0x10_0000_0000_0000,
        ;
    }
    lemma_nearest_monotone(down, (a - b) as nat, 1, 53);
    lemma_nearest_monotone((a - b) as nat, a, 1, 53);
}

/// Whole numbers below 2^64 convert to counts between 2^0 and 2^64.
pub proof fn lemma_whole_units_bounds(k: nat)
    requires
        0 < k < 0x1_0000_0000_0000_0000,
    ensures
        one() <= whole_units(k) <= pow2(1138),
        whole_units(k) < limit(),
{
    lemma2_to64();
    lemma2_to64_rest();
    lemma_pow2_pos(1074);
    lemma_pow2_adds(64, 1074);
    assert(1 * one() <= k * one() <= pow2(64) * one()) by (nonlinear_arith)
        requires
            1 <= k <= pow2(64),
    ;
    lemma_nearest_monotone(1 * one(), k * one(), 1, 53);
    lemma_nearest_monotone(k * one(), pow2(64) * one(), 1, 53);
    lemma_nearest_exact(1, 1074, 53);
    lemma_nearest_exact(1, 1138, 53);
    assert(1 * pow2(1138) == pow2(1138));
    assert(1 * pow2(1074) == pow2(1074));
    lemma_pow2_strictly_increases(1138, 2098);
}

impl Unpacked {
    pub(crate) open spec fn wf(&self) -> bool {
        self.class == Class::Finite ==> canonical(self.mantissa as nat, self.exponent as nat)
    }

    /// What a finite value that is not negative stands for.
    pub(crate) proof fn lemma_view(self)
        requires
            self.class == Class::Finite,
            !self.negative,
        ensures
            self@ == (Number::Finite {
                units: (self.mantissa as nat * pow2(self.exponent as nat)) as int,
            }),
    {
    }

    pub(crate) fn nan() -> (r: Unpacked)
        ensures
            r.wf(),
            r@ == Number::Nan,
    {
        Unpacked { class: Class::Nan, negative: false, mantissa: 0, exponent: 0 }
    }

    pub(crate) fn infinite(negative: bool) -> (r: Unpacked)
        ensures
            r.wf(),
            r@ == (Number::Infinite { negative }),
    {
        Unpacked { class: Class::Infinite, negative, mantissa: 0, exponent: 0 }
    }

    pub(crate) fn zero() -> (r: Unpacked)
        ensures
            r.wf(),
            r@ == (Number::Finite { units: 0 }),
    {
        assert(0nat * pow2(0) == 0);
        Unpacked { class: Class::Finite, negative: false, mantissa: 0, exponent: 0 }
    }

    /// The value that a bit pattern encodes.
    pub(crate) fn from_bits(bits: u64) -> (r: Unpacked)
        ensures
            r.wf(),
            r@ == of_bits(bits),
    {
        let fraction: u64 = bits % 0x10_0000_0000_0000;
        let field: u64 = (bits / 0x10_0000_0000_0000) % 0x800;
        let negative = bits >= 0x8000_0000_0000_0000;
        if field == 0x7ff {
            if fraction == 0 {
                Unpacked::infinite(negative)
            } else {
                Unpacked::nan()
            }
        } else if field == 0 {
            proof {
                lemma2_to64();
                assert(fraction as nat * pow2(0) == fraction) by (nonlinear_arith)
                    requires
                        pow2(0) == 1,
                ;
            }
            Unpacked { class: Class::Finite, negative, mantissa: fraction, exponent: 0 }
        } else {
            Unpacked {
                class: Class::Finite,
                negative,
                mantissa: 0x10_0000_0000_0000 + fraction,
                exponent: (field - 1) as u32,
            }
        }
    }

    /// Bits that encode this value. Zero keeps the sign it was computed with,
    /// and not-a-number is encoded with the top bit of the fraction alone.
    pub(crate) fn to_bits(self) -> (bits: u64)
        requires
            self.wf(),
        ensures
            of_bits(bits) == self@,
    {
        let sign: u64 = if self.negative {
            0x8000_0000_0000_0000
        } else {
            0
        };
        match self.class {
            Class::Nan => 0x7ff8_0000_0000_0000,
            Class::Infinite => sign + 0x7ff0_0000_0000_0000,
            Class::Finite => {
                if self.mantissa < 0x10_0000_0000_0000 {
                    proof {
                        lemma2_to64();
                        assert(self.mantissa as nat * pow2(0) == self.mantissa) by (nonlinear_arith)
                            requires
                                pow2(0) == 1,
                        ;
                    }
                    sign + self.mantissa
                } else {
                    let field: u64 = self.exponent as u64 + 1;
                    let fraction: u64 = self.mantissa - 0x10_0000_0000_0000;
                    let low: u64 = field * 0x10_0000_0000_0000 + fraction;
                    let bits: u64 = sign + low;
                    assert(bits % 0x10_0000_0000_0000 == fraction);
                    assert((bits / 0x10_0000_0000_0000) % 0x800 == field);
                    bits
                }
            },
        }
    }

    /// `n * 2^up / 2^down` units, rounded, with the sign given.
    pub(crate) fn round(negative: bool, n: u128, up: u32, down: u32) -> (r: Unpacked)
        requires
            n < 0x100_0000_0000_0000_0000_0000_0000_0000,
            up <= 5000,
            down <= 5000,
        ensures
            r.wf(),
            r@ == rounded(negative, n as nat * pow2(up as nat), pow2(down as nat)),
            r.class != Class::Nan,
            r.negative == negative,
    {
        let ghost big = n as nat * pow2(up as nat);
        let ghost div = pow2(down as nat);
        proof {
            lemma_pow2_pos(up as nat);
            lemma_pow2_pos(down as nat);
            lemma2_to64();
            lemma2_to64_rest();
        }
        if n == 0 {
            proof {
                assert(0nat * pow2(up as nat) == 0);
                lemma_nearest_zero(div, 53);
                lemma_pow2_pos(2098);
                assert(0nat * pow2(0) == 0);
            }
            return Unpacked { class: Class::Finite, negative, mantissa: 0, exponent: 0 };
        }
        let l = bit_length(n);
        proof {
            if l > 120 {
                lemma_pow2_adds(60, 60);
                lemma_pow2_ordered(120, (l - 1) as nat);
            }
        }
        let total: u32 = l + up;
        let j: u32 = if total > down + 53 {
            total - down - 53
        } else {
            0
        };
        proof {
            // the spacing around the exact value is 2^j
            lemma_pow2_adds(l as nat, up as nat);
            lemma_pow2_adds((l - 1) as nat, up as nat);
            lemma_pow2_adds(down as nat, 53);
            lemma_pow2_adds(down as nat, 52);
            lemma_pow2_adds((down + 53) as nat, j as nat);
            lemma_pow2_adds((down + 52) as nat, j as nat);
            lemma_pow2_ordered(total as nat, (down + 53 + j) as nat);
            assert(big < pow2(total as nat)) by (nonlinear_arith)
                requires
                    big == n as nat * pow2(up as nat),
                    n < pow2(l as nat),
                    pow2(total as nat) == pow2(l as nat) * pow2(up as nat),
                    pow2(up as nat) > 0,
            ;
            assert(big >= pow2((total - 1) as nat)) by (nonlinear_arith)
                requires
                    big == n as nat * pow2(up as nat),
                    n >= pow2((l - 1) as nat),
                    pow2((total - 1) as nat) == pow2((l - 1) as nat) * pow2(up as nat),
                    pow2(up as nat) > 0,
            ;
            assert(div * pow2(53) * pow2(j as nat) == pow2((down + 53 + j) as nat));
            assert(div * pow2(52) * pow2(j as nat) == pow2((down + 52 + j) as nat));
            lemma_nearest_at_spacing(big, div, 53, j as nat);
        }
        let q: u128 = if up >= down + j {
            let t: u32 = up - down - j;
            proof {
                // nothing is cut off
                lemma_pow2_adds(l as nat, t as nat);
                lemma_pow2_ordered((l + t) as nat, 53);
                lemma_pow2_adds(t as nat, (down + j) as nat);
                lemma_pow2_adds(down as nat, j as nat);
                lemma_pow2_pos(t as nat);
                assert(n as nat * pow2(t as nat) < pow2((l + t) as nat)) by (nonlinear_arith)
                    requires
                        n < pow2(l as nat),
                        pow2((l + t) as nat) == pow2(l as nat) * pow2(t as nat),
                        pow2(t as nat) > 0,
                ;
                assert(big == (n as nat * pow2(t as nat)) * (div * pow2(j as nat)))
                    by (nonlinear_arith)
                    requires
                        big == n as nat * pow2(up as nat),
                        pow2(up as nat) == pow2(t as nat) * pow2((down + j) as nat),
                        pow2((down + j) as nat) == div * pow2(j as nat),
                ;
                lemma_pow2_pos(j as nat);
                assert(div * pow2(j as nat) > 0) by (nonlinear_arith)
                    requires
                        div > 0,
                        pow2(j as nat) > 0,
                ;
                lemma_round_half_even_exact(n as nat * pow2(t as nat), div * pow2(j as nat));
                lemma_pow2_ordered(t as nat, 53);
            }
            n * pow2_u128(t)
        } else {
            let s: u32 = down + j - up;
            proof {
                lemma_pow2_adds(down as nat, j as nat);
                lemma_pow2_adds(s as nat, up as nat);
                lemma_pow2_pos(s as nat);
                lemma_round_half_even_scales(n as nat, pow2(s as nat), pow2(up as nat));
            }
            if s >= 122 {
                proof {
                    lemma_pow2_adds(60, 60);
                    lemma_pow2_adds(120, 2);
                    lemma_pow2_ordered(122, s as nat);
                    lemma_basic_div(n as int, pow2(s as nat) as int);
                    lemma_small_mod(n as nat, pow2(s as nat));
                }
                0
            } else {
                proof {
                    // the quotient has at most 53 digits before it is rounded
                    let cut = pow2(s as nat);
                    if l >= s {
                        lemma_pow2_adds((l - s) as nat, s as nat);
                        lemma_pow2_ordered((l - s) as nat, 53);
                        lemma_mul_is_commutative(pow2((l - s) as nat) as int, cut as int);
                        lemma_multiply_divide_lt(n as int, cut as int, pow2((l - s) as nat) as int);
                    } else {
                        lemma_pow2_ordered(l as nat, s as nat);
                        lemma_basic_div(n as int, cut as int);
                    }
                }
                divide_half_even(n, pow2_u128(s))
            }
        };
        assert(q <= 0x20_0000_0000_0000);
        assert(nearest(big, div, 53) == q * pow2(j as nat));
        let (mantissa, exponent): (u64, u32) = if q == 0x20_0000_0000_0000 {
            proof {
                lemma_pow2_unfold((j + 1) as nat);
                assert(0x20_0000_0000_0000 * pow2(j as nat) == 0x10_0000_0000_0000 * (2 * pow2(
                    j as nat,
                ))) by (nonlinear_arith);
            }
            (0x10_0000_0000_0000, j + 1)
        } else {
            (q as u64, j)
        };
        assert(mantissa as nat * pow2(exponent as nat) == nearest(big, div, 53));
        proof {
            // a positive spacing means a full mantissa
            if j > 0 && q < 0x10_0000_0000_0000 {
                lemma_pow2_pos(j as nat);
                assert(div * pow2(j as nat) > 0) by (nonlinear_arith)
                    requires
                        div > 0,
                        pow2(j as nat) > 0,
                ;
                crate::rounding::lemma_round_half_even_bounds(
                    big,
                    div * pow2(j as nat),
                    0x10_0000_0000_0000,
                );
                assert(div * pow2(j as nat) * 0x10_0000_0000_0000 == div * pow2(52) * pow2(
                    j as nat,
                )) by (nonlinear_arith)
                    requires
                        pow2(52) == 0x10_0000_0000_0000,
                ;
                assert(false);
            }
        }
        if exponent > 2045 {
            proof {
                lemma_pow2_ordered(2046, exponent as nat);
                lemma_pow2_adds(52, 2046);
                assert(mantissa as nat * pow2(exponent as nat) >= pow2(52) * pow2(2046))
                    by (nonlinear_arith)
                    requires
                        mantissa >= pow2(52),
                        pow2(exponent as nat) >= pow2(2046),
                ;
            }
            Unpacked::infinite(negative)
        } else {
            proof {
                lemma_canonical_is_exact(mantissa as nat, exponent as nat);
            }
            Unpacked { class: Class::Finite, negative, mantissa, exponent }
        }
    }

    /// The whole number `k`, rounded.
    pub(crate) fn from_whole(k: u64) -> (r: Unpacked)
        ensures
            r.wf(),
            r.class == Class::Finite,
            !r.negative,
            r.mantissa as nat * pow2(r.exponent as nat) == whole_units(k as nat),
            k > 0 ==> r.mantissa >= 0x10_0000_0000_0000 && 1022 <= r.exponent <= 1086,
            k == 0 ==> r.mantissa == 0,
    {
        let r = Unpacked::round(false, k as u128, 1074, 0);
        proof {
            lemma2_to64();
            lemma2_to64_rest();
            assert(pow2(0) == 1);
            let v = r.mantissa as nat * pow2(r.exponent as nat);
            if k > 0 {
                lemma_whole_units_bounds(k as nat);
                lemma_pow2_pos(r.exponent as nat);
                if r.exponent < 1022 {
                    lemma_pow2_ordered(r.exponent as nat, 1021);
                    lemma_pow2_adds(53, 1021);
                    assert(v < pow2(53) * pow2(1021)) by (nonlinear_arith)
                        requires
                            v == r.mantissa as nat * pow2(r.exponent as nat),
                            r.mantissa < pow2(53),
                            0 < pow2(r.exponent as nat) <= pow2(1021),
                    ;
                }
                if r.exponent > 1086 {
                    lemma_pow2_ordered(1087, r.exponent as nat);
                    lemma_pow2_adds(52, 1087);
                    lemma_pow2_strictly_increases(1138, 1139);
                    assert(v >= pow2(52) * pow2(1087)) by (nonlinear_arith)
                        requires
                            v == r.mantissa as nat * pow2(r.exponent as nat),
                            r.mantissa >= pow2(52),
                            pow2(r.exponent as nat) >= pow2(1087),
                    ;
                }
            } else {
                assert(0nat * one() == 0);
                lemma_nearest_zero(1, 53);
                lemma_pow2_pos(2098);
                lemma_pow2_pos(r.exponent as nat);
                assert(r.mantissa == 0) by (nonlinear_arith)
                    requires
                        r.mantissa as nat * pow2(r.exponent as nat) == 0,
                        pow2(r.exponent as nat) > 0,
                ;
            }
        }
        r
    }

    /// The quotient of two whole numbers, each rounded first.
    pub(crate) fn ratio_of_wholes(k: u64, of: u64) -> (r: Unpacked)
        requires
            of > 0,
        ensures
            r.wf(),
            r@ == whole_ratio(k as nat, of as nat),
    {
        let top = Unpacked::from_whole(k);
        let bottom = Unpacked::from_whole(of);
        let ghost x = whole_units(k as nat);
        let ghost w = whole_units(of as nat);
        proof {
            lemma2_to64();
            lemma2_to64_rest();
            lemma_whole_units_bounds(of as nat);
            lemma_pow2_pos(1074);
        }
        if k == 0 {
            proof {
                assert(0nat * one() == 0);
                lemma_nearest_zero(w, 53);
                lemma_pow2_pos(2098);
            }
            return Unpacked::zero();
        }
        let z: u32 = if top.mantissa < bottom.mantissa {
            53
        } else {
            52
        };
        let scale = pow2_u128(z);
        assert(top.mantissa as nat * scale as nat <= 0x20_0000_0000_0000 * 0x20_0000_0000_0000)
            by (nonlinear_arith)
            requires
                top.mantissa <= 0x20_0000_0000_0000,
                scale <= 0x20_0000_0000_0000,
        ;
        let num: u128 = (top.mantissa as u128) * scale;
        let q = divide_half_even(num, bottom.mantissa as u128);
        let e: u32 = top.exponent + 1074 - bottom.exponent - z;
        proof {
            let mx = top.mantissa as nat;
            let mw = bottom.mantissa as nat;
            let common = pow2((bottom.exponent + e) as nat);
            lemma_pow2_pos((bottom.exponent + e) as nat);
            lemma_pow2_adds(top.exponent as nat, 1074);
            lemma_pow2_adds(z as nat, (bottom.exponent + e) as nat);
            lemma_pow2_adds(bottom.exponent as nat, e as nat);
            assert(mw * 0x10_0000_0000_0000 <= num < mw * 0x20_0000_0000_0000)
                by (nonlinear_arith)
                requires
                    num == mx * scale,
                    0x10_0000_0000_0000 <= mx < 0x20_0000_0000_0000,
                    0x10_0000_0000_0000 <= mw < 0x20_0000_0000_0000,
                    (scale == 0x20_0000_0000_0000 && mx < mw) || (scale == 0x10_0000_0000_0000
                        && mx >= mw),
            ;
            assert(x * one() == num as nat * common) by (nonlinear_arith)
                requires
                    x == mx * pow2(top.exponent as nat),
                    num == mx * scale,
                    pow2(top.exponent as nat) * one() == scale as nat * common,
            ;
            assert(w * pow2(e as nat) == mw * common) by (nonlinear_arith)
                requires
                    w == mw * pow2(bottom.exponent as nat),
                    common == pow2(bottom.exponent as nat) * pow2(e as nat),
            ;
            assert(num as nat * common < w * pow2(53) * pow2(e as nat)) by (nonlinear_arith)
                requires
                    num < mw * 0x20_0000_0000_0000,
                    w * pow2(e as nat) == mw * common,
                    pow2(53) == 0x20_0000_0000_0000,
                    common > 0,
            ;
            assert(num as nat * common >= w * pow2(52) * pow2(e as nat)) by (nonlinear_arith)
                requires
                    num >= mw * 0x10_0000_0000_0000,
                    w * pow2(e as nat) == mw * common,
                    pow2(52) == 0x10_0000_0000_0000,
                    common > 0,
            ;
            lemma_nearest_at_spacing(x * one(), w, 53, e as nat);
            lemma_round_half_even_scales(num as nat, mw, common);
            lemma_mul_is_commutative(0x20_0000_0000_0000, mw as int);
            lemma_multiply_divide_lt(num as int, mw as int, 0x20_0000_0000_0000);
            lemma_mul_is_commutative(0x10_0000_0000_0000, mw as int);
            lemma_div_is_ordered((mw * 0x10_0000_0000_0000) as int, num as int, mw as int);
            lemma_div_multiples_vanish(0x10_0000_0000_0000, mw as int);
            assert(nearest(x * one(), w, 53) == q * pow2(e as nat));
        }
        let (mantissa, exponent): (u64, u32) = if q == 0x20_0000_0000_0000 {
            proof {
                lemma_pow2_unfold((e + 1) as nat);
                assert(0x20_0000_0000_0000 * pow2(e as nat) == 0x10_0000_0000_0000 * (2 * pow2(
                    e as nat,
                ))) by (nonlinear_arith);
            }
            (0x10_0000_0000_0000, e + 1)
        } else {
            (q as u64, e)
        };
        proof {
            lemma_canonical_is_exact(mantissa as nat, exponent as nat);
        }
        Unpacked { class: Class::Finite, negative: false, mantissa, exponent }
    }

    /// The same number with the opposite sign.
    pub(crate) fn negate(self) -> (r: Unpacked)
        requires
            self.wf(),
        ensures
            r.wf(),
            r@ == negated(self@),
    {
        Unpacked {
            class: self.class,
            negative: !self.negative,
            mantissa: self.mantissa,
            exponent: self.exponent,
        }
    }

    /// The rounded product.
    pub(crate) fn times(self, other: Unpacked) -> (r: Unpacked)
        requires
            self.wf(),
            other.wf(),
        ensures
            r.wf(),
            r@ == product(self@, other@),
    {
        proof {
            lemma_pow2_pos(self.exponent as nat);
            lemma_pow2_pos(other.exponent as nat);
            lemma_mantissa_sign(self.mantissa as nat, pow2(self.exponent as nat));
            lemma_mantissa_sign(other.mantissa as nat, pow2(other.exponent as nat));
        }
        if self.class == Class::Nan || other.class == Class::Nan {
            Unpacked::nan()
        } else if self.class == Class::Infinite {
            if other.class == Class::Infinite {
                Unpacked::infinite(self.negative != other.negative)
            } else if other.mantissa == 0 {
                Unpacked::nan()
            } else {
                Unpacked::infinite(self.negative != other.negative)
            }
        } else if other.class == Class::Infinite {
            if self.mantissa == 0 {
                Unpacked::nan()
            } else {
                Unpacked::infinite(self.negative != other.negative)
            }
        } else {
            assert(self.mantissa as nat * other.mantissa as nat <= 0x20_0000_0000_0000
                * 0x20_0000_0000_0000) by (nonlinear_arith)
                requires
                    self.mantissa <= 0x20_0000_0000_0000,
                    other.mantissa <= 0x20_0000_0000_0000,
            ;
            let n: u128 = (self.mantissa as u128) * (other.mantissa as u128);
            let negative = self.negative != other.negative;
            let r = Unpacked::round(negative, n, self.exponent + other.exponent, 1074);
            proof {
                let pa = pow2(self.exponent as nat);
                let pb = pow2(other.exponent as nat);
                lemma_pow2_adds(self.exponent as nat, other.exponent as nat);
                let xa = self.mantissa as nat * pa;
                let xb = other.mantissa as nat * pb;
                assert(xa * xb == n as nat * pow2((self.exponent + other.exponent) as nat))
                    by (nonlinear_arith)
                    requires
                        xa == self.mantissa as nat * pa,
                        xb == other.mantissa as nat * pb,
                        n == self.mantissa as nat * other.mantissa as nat,
                        pow2((self.exponent + other.exponent) as nat) == pa * pb,
                ;
                if self.mantissa == 0 || other.mantissa == 0 {
                    assert(xa * xb == 0) by (nonlinear_arith)
                        requires
                            xa == 0 || xb == 0,
                    ;
                    lemma_pow2_pos(1074);
                    lemma_nearest_zero(one(), 53);
                    lemma_pow2_pos(2098);
                }
            }
            r
        }
    }

    /// The rounded sum.
    pub(crate) fn plus(self, other: Unpacked) -> (r: Unpacked)
        requires
            self.wf(),
            other.wf(),
        ensures
            r.wf(),
            r@ == sum(self@, other@),
    {
        if self.class == Class::Nan || other.class == Class::Nan {
            Unpacked::nan()
        } else if self.class == Class::Infinite {
            if other.class == Class::Infinite && self.negative != other.negative {
                Unpacked::nan()
            } else {
                self
            }
        } else if other.class == Class::Infinite {
            other
        } else if self.exponent >= other.exponent {
            Unpacked::add_ordered(self, other)
        } else {
            Unpacked::add_ordered(other, self)
        }
    }

    /// The rounded sum of two finite values, the one with the greater exponent
    /// first.
    fn add_ordered(hi: Unpacked, lo: Unpacked) -> (r: Unpacked)
        requires
            hi.wf(),
            lo.wf(),
            hi.class == Class::Finite,
            lo.class == Class::Finite,
            hi.exponent >= lo.exponent,
        ensures
            r.wf(),
            r@ == sum(hi@, lo@),
            r@ == sum(lo@, hi@),
    {
        let ghost p = pow2(lo.exponent as nat);
        let ghost xa = hi.mantissa as nat * pow2(hi.exponent as nat);
        let ghost xb = lo.mantissa as nat * p;
        let ghost x = signed(hi.negative, xa);
        let ghost y = signed(lo.negative, xb);
        proof {
            lemma2_to64();
            lemma2_to64_rest();
            lemma_pow2_pos(lo.exponent as nat);
            lemma_pow2_pos(hi.exponent as nat);
            lemma_mantissa_sign(hi.mantissa as nat, pow2(hi.exponent as nat));
            lemma_mantissa_sign(lo.mantissa as nat, p);
            lemma_canonical_is_exact(hi.mantissa as nat, hi.exponent as nat);
            lemma_canonical_is_exact(lo.mantissa as nat, lo.exponent as nat);
        }
        if lo.mantissa == 0 {
            return hi;
        }
        if hi.mantissa == 0 {
            return lo;
        }
        let gap: u32 = hi.exponent - lo.exponent;
        if gap > 64 {
            proof {
                lemma_pow2_adds(53, lo.exponent as nat);
                lemma_pow2_ordered((53 + lo.exponent) as nat, (hi.exponent - 2) as nat);
                assert(xb < pow2(53) * p) by (nonlinear_arith)
                    requires
                        xb == lo.mantissa as nat * p,
                        lo.mantissa < pow2(53),
                        p > 0,
                ;
                lemma_absorbs(hi.mantissa as nat, hi.exponent as nat, xb);
            }
            return hi;
        }
        let shift = pow2_u128(gap);
        proof {
            lemma_pow2_ordered(gap as nat, 64);
            assert(hi.mantissa as nat * shift as nat <= 0x20_0000_0000_0000
                * 0x1_0000_0000_0000_0000) by (nonlinear_arith)
                requires
                    hi.mantissa <= 0x20_0000_0000_0000,
                    shift <= 0x1_0000_0000_0000_0000,
            ;
            lemma_pow2_adds(gap as nat, lo.exponent as nat);
            assert(xa == (hi.mantissa as nat * shift as nat) * p) by (nonlinear_arith)
                requires
                    xa == hi.mantissa as nat * pow2(hi.exponent as nat),
                    pow2(hi.exponent as nat) == shift as nat * p,
            ;
        }
        let a: u128 = (hi.mantissa as u128) * shift;
        let b: u128 = lo.mantissa as u128;
        proof {
            assert((a >= b <==> xa >= xb) && (a == b <==> xa == xb)) by (nonlinear_arith)
                requires
                    xa == a * p,
                    xb == b * p,
                    p > 0,
            ;
        }
        let (negative, n): (bool, u128) = if hi.negative == lo.negative {
            (hi.negative, a + b)
        } else if a >= b {
            (hi.negative, a - b)
        } else {
            (lo.negative, b - a)
        };
        let r = Unpacked::round(negative, n, lo.exponent, 0);
        proof {
            assert(pow2(0) == 1);
            if hi.negative == lo.negative {
                assert(magnitude(x + y) == xa + xb);
                assert(xa + xb == n as nat * p) by (nonlinear_arith)
                    requires
                        xa == a * p,
                        xb == b * p,
                        n == a + b,
                ;
            } else if a >= b {
                assert(magnitude(x + y) == xa - xb);
                assert(xa - xb == n as nat * p) by (nonlinear_arith)
                    requires
                        xa == a * p,
                        xb == b * p,
                        n == a - b,
                ;
            } else {
                assert(magnitude(x + y) == xb - xa);
                assert(xb - xa == n as nat * p) by (nonlinear_arith)
                    requires
                        xa == a * p,
                        xb == b * p,
                        n == b - a,
                ;
            }
            if n == 0 {
                assert(0nat * p == 0);
                lemma_nearest_zero(1, 53);
                lemma_pow2_pos(2098);
            }
        }
        r
    }

    /// The rounded difference.
    pub(crate) fn minus(self, other: Unpacked) -> (r: Unpacked)
        requires
            self.wf(),
            other.wf(),
        ensures
            r.wf(),
            r@ == difference(self@, other@),
    {
        self.plus(other.negate())
    }

    /// Whether this value is less than the other.
    pub(crate) fn is_less(self, other: Unpacked) -> (b: bool)
        requires
            self.wf(),
            other.wf(),
        ensures
            b == less(self@, other@),
    {
        if self.class == Class::Nan || other.class == Class::Nan {
            false
        } else if self.class == Class::Infinite {
            if other.class == Class::Infinite {
                self.negative && !other.negative
            } else {
                self.negative
            }
        } else if other.class == Class::Infinite {
            !other.negative
        } else {
            proof {
                lemma_pow2_pos(self.exponent as nat);
                lemma_pow2_pos(other.exponent as nat);
                lemma_mantissa_sign(self.mantissa as nat, pow2(self.exponent as nat));
                lemma_mantissa_sign(other.mantissa as nat, pow2(other.exponent as nat));
                lemma_canonical_order(
                    self.mantissa as nat,
                    self.exponent as nat,
                    other.mantissa as nat,
                    other.exponent as nat,
                );
                lemma_canonical_order(
                    other.mantissa as nat,
                    other.exponent as nat,
                    self.mantissa as nat,
                    self.exponent as nat,
                );
            }
            let below_zero = self.negative && self.mantissa > 0;
            let other_below_zero = other.negative && other.mantissa > 0;
            if below_zero {
                if other_below_zero {
                    other.exponent < self.exponent || (other.exponent == self.exponent
                        && other.mantissa < self.mantissa)
                } else {
                    true
                }
            } else if other_below_zero {
                false
            } else {
                self.exponent < other.exponent || (self.exponent == other.exponent && self.mantissa
                    < other.mantissa)
            }
        }
    }
}

/// A whole number below 2^53 converts to itself.
pub proof fn lemma_whole_is_exact(k: nat)
    requires
        k < 0x20_0000_0000_0000,
    ensures
        whole_units(k) == k * one(),
{
    lemma2_to64_rest();
    lemma_nearest_exact(k, 1074, 53);
}

/// What rounds once stays: a rounded count is representable.
pub proof fn lemma_nearest_is_representable(n: nat, d: nat)
    requires
        d > 0,
    ensures
        nearest(nearest(n, d, precision()), 1, precision()) == nearest(n, d, precision()),
{
    lemma2_to64_rest();
    let j = crate::rounding::spacing_exp(n, d, 53);
    let p = pow2(j);
    let q = round_half_even(n, d * p);
    lemma_pow2_pos(j);
    assert(d * p > 0) by (nonlinear_arith)
        requires
            d > 0,
            p > 0,
    ;
    crate::rounding::lemma_spacing_bounds(n, d, 53);
    assert(n < (d * p) * pow2(53)) by (nonlinear_arith)
        requires
            n < d * pow2(53) * p,
    ;
    crate::rounding::lemma_round_half_even_bounds(n, d * p, pow2(53));
    if q < pow2(53) {
        lemma_nearest_exact(q, j, 53);
    } else {
        lemma_pow2_unfold(j + 1);
        assert(q * p == pow2(52) * pow2(j + 1)) by (nonlinear_arith)
            requires
                q == 2 * pow2(52),
                pow2(j + 1) == 2 * p,
        ;
        lemma_nearest_exact(pow2(52), j + 1, 53);
    }
}

/// A rounded result added to zero is that result.
pub proof fn lemma_sum_with_zero(negative: bool, n: nat, d: nat)
    requires
        d > 0,
    ensures
        sum(rounded(negative, n, d), whole(0)) == rounded(negative, n, d),
        sum(whole(0), rounded(negative, n, d)) == rounded(negative, n, d),
{
    lemma_nearest_is_representable(n, d);
    assert(0nat * one() == 0);
}

/// Zero divided by a whole number is zero.
pub proof fn lemma_nearest_zero_ratio(of: nat)
    requires
        0 < of < 0x1_0000_0000_0000_0000,
    ensures
        whole_ratio(0, of) == whole(0),
{
    lemma_whole_units_bounds(of);
    lemma_pow2_pos(1074);
    lemma_pow2_pos(2098);
    assert(0nat * one() == 0);
    lemma_nearest_zero(1, 53);
    lemma_nearest_zero(whole_units(of), 53);
}

/// Adding zero to a sum or to a product changes nothing: both are rounded
/// already.
pub proof fn lemma_results_absorb_zero(a: Number, b: Number)
    ensures
        sum(sum(a, b), whole(0)) == sum(a, b),
        sum(product(a, b), whole(0)) == product(a, b),
{
    lemma_pow2_pos(1074);
    if let (Number::Finite { units: x }, Number::Finite { units: y }) = (a, b) {
        lemma_sum_with_zero(x + y < 0, magnitude(x + y), 1);
        lemma_sum_with_zero((x < 0) != (y < 0), magnitude(x) * magnitude(y), one());
    }
}

/// Every bit pattern that encodes a finite number encodes a canonical count.
pub proof fn lemma_of_bits_is_canonical(bits: u64)
    ensures
        of_bits(bits) matches Number::Finite { units } ==> exists|m: nat, e: nat|
            canonical(m, e) && magnitude(units) == #[trigger] (m * pow2(e)),
{
    let fraction = (bits % 0x10_0000_0000_0000) as nat;
    let field = ((bits / 0x10_0000_0000_0000) % 0x800) as nat;
    if field == 0x7ff {
    } else if field == 0 {
        lemma2_to64();
        assert(fraction * pow2(0) == fraction) by (nonlinear_arith)
            requires
                pow2(0) == 1,
        ;
        assert(canonical(fraction, 0));
    } else {
        assert(canonical(0x10_0000_0000_0000 + fraction, (field - 1) as nat));
    }
}

/// A finite number that a bit pattern encodes, added to zero, is itself.
pub proof fn lemma_encoded_sum_with_zero(bits: u64)
    ensures
        sum(of_bits(bits), whole(0)) == of_bits(bits),
        sum(whole(0), of_bits(bits)) == of_bits(bits),
{
    if let Number::Finite { units } = of_bits(bits) {
        lemma_of_bits_is_canonical(bits);
        let (m, e) = choose|m: nat, e: nat|
            canonical(m, e) && magnitude(units) == #[trigger] (m * pow2(e));
        lemma_canonical_is_exact(m, e);
        assert(0nat * one() == 0);
    }
}

/// A product with a positive factor is zero exactly when the other factor is.
pub proof fn lemma_mantissa_sign(m: nat, p: nat)
    requires
        p > 0,
    ensures
        m * p == 0 <==> m == 0,
        m > 0 ==> m * p > 0,
{
    assert(m * p == 0 <==> m == 0) by (nonlinear_arith)
        requires
            p > 0,
    ;
}

impl Double {
    /// The number that `bits` encode.
    pub fn from_bits(bits: u64) -> (d: Double)
        ensures
            d.bits == bits,
    {
        Double { bits }
    }

    /// The bits that encode this number.
    pub fn to_bits(self) -> (bits: u64)
        ensures
            bits == self.bits,
    {
        self.bits
    }

    /// The rounded sum.
    pub fn plus(self, other: Double) -> (r: Double)
        ensures
            r@ == sum(self@, other@),
    {
        let r = Unpacked::from_bits(self.bits).plus(Unpacked::from_bits(other.bits));
        Double { bits: r.to_bits() }
    }

    /// The rounded difference.
    pub fn minus(self, other: Double) -> (r: Double)
        ensures
            r@ == difference(self@, other@),
    {
        let r = Unpacked::from_bits(self.bits).minus(Unpacked::from_bits(other.bits));
        Double { bits: r.to_bits() }
    }

    /// The rounded product.
    pub fn times(self, other: Double) -> (r: Double)
        ensures
            r@ == product(self@, other@),
    {
        let r = Unpacked::from_bits(self.bits).times(Unpacked::from_bits(other.bits));
        Double { bits: r.to_bits() }
    }

    /// Whether this number is less than the other.
    pub fn is_less(self, other: Double) -> (b: bool)
        ensures
            b == less(self@, other@),
    {
        Unpacked::from_bits(self.bits).is_less(Unpacked::from_bits(other.bits))
    }

    /// The quotient of two whole numbers, each rounded to double precision
    /// first; `None` when the divisor is zero.
    pub fn ratio_of_wholes(k: u64, of: u64) -> (r: Option<Double>)
        ensures
            of == 0 ==> r.is_none(),
            of > 0 ==> r.is_some() && r.unwrap()@ == whole_ratio(k as nat, of as nat),
    {
        if of == 0 {
            None
        } else {
            Some(Double { bits: Unpacked::ratio_of_wholes(k, of).to_bits() })
        }
    }
}

} // verus!
