//! Colours for iteration counts.
//!
//! A count of 255 marks a point that never escaped and is always black. Below
//! that, each palette is a fixed formula in the count `i`, most of them in
//! `t = i / 255`. The formulas are evaluated in single precision, operation by
//! operation, and each channel is the whole part of its result: the colours
//! are those of that arithmetic, rounding included (`Neon` at `i = 65` has a
//! red of 189, where 255 * (1 - 65/255) is 190 exactly).

use crate::rounding::{
    lemma_nearest_at_spacing, lemma_nearest_exact, lemma_nearest_monotone, lemma_nearest_zero,
    lemma_round_half_even_scales, round_half_even,
};
use crate::single::{
    difference, is_finite_nonnegative, lemma_product_of_whole, lemma_to_byte_between,
    lemma_whole_is_exact, one, product, ratio, sum, to_byte, units_of_bits, whole, Single,
};
use crate::types::Palette;
use vstd::arithmetic::power2::{lemma2_to64, lemma_pow2_adds, lemma_pow2_pos, pow2};
use vstd::prelude::*;

verus! {

/// The count that marks a point inside the set; counts stop here.
pub const MAX_ITERATIONS: u32 = 255;

/// `t = i / 255`, rounded.
pub open spec fn fraction(i: nat) -> nat {
    ratio(i, 255)
}

/// `1 - t`, rounded.
pub open spec fn remainder(i: nat) -> nat {
    difference(whole(1), fraction(i))
}

/// `i * (n / d)`, truncated: a count scaled by a decimal constant.
pub open spec fn scaled(i: nat, n: nat, d: nat) -> u8 {
    to_byte(product(whole(i), ratio(n, d)))
}

/// `k * t`, truncated.
pub open spec fn rising(k: nat, i: nat) -> u8 {
    to_byte(product(whole(k), fraction(i)))
}

/// `k * (1 - t)`, truncated.
pub open spec fn falling(k: nat, i: nat) -> u8 {
    to_byte(product(whole(k), remainder(i)))
}

/// `a * (1 - t) + b * t`, truncated: the linear blend from `a` to `b`.
pub open spec fn blend(a: nat, b: nat, i: nat) -> u8 {
    to_byte(sum(product(whole(a), remainder(i)), product(whole(b), fraction(i))))
}

/// `9 * (1 - t) * t * t * t * 255`, truncated.
pub open spec fn rainbow_red(i: nat) -> u8 {
    let t = fraction(i);
    let u = remainder(i);
    to_byte(product(product(product(product(product(whole(9), u), t), t), t), whole(255)))
}

/// `15 * (1 - t) * (1 - t) * t * t * 255`, truncated.
pub open spec fn rainbow_green(i: nat) -> u8 {
    let t = fraction(i);
    let u = remainder(i);
    to_byte(product(product(product(product(product(whole(15), u), u), t), t), whole(255)))
}

/// `8.5 * (1 - t) * (1 - t) * (1 - t) * t * 255`, truncated.
pub open spec fn rainbow_blue(i: nat) -> u8 {
    let t = fraction(i);
    let u = remainder(i);
    to_byte(product(product(product(product(product(ratio(17, 2), u), u), u), t), whole(255)))
}

/// `255 * (1 - t) * t`, truncated.
pub open spec fn neon_blue(i: nat) -> u8 {
    to_byte(product(product(whole(255), remainder(i)), fraction(i)))
}

/// The colour of count `i` under `palette`, as red, green, blue. `first` and
/// `second` are the ends of the user's gradient and matter to `UserDefined`
/// only.
pub open spec fn palette_rgb(i: nat, palette: Palette, first: (u8, u8, u8), second: (u8, u8, u8))
    -> Seq<u8> {
    if i >= 255 {
        seq![0u8, 0u8, 0u8]
    } else {
        match palette {
            Palette::Classic => seq![i as u8, 0u8, (255 - i) as u8],
            Palette::Fire => seq![255u8, scaled(i, 7, 10), scaled(i, 1, 10)],
            Palette::Ocean => seq![0u8, scaled(i, 5, 10), scaled(i, 9, 10)],
            Palette::Forest => seq![scaled(i, 2, 10), scaled(i, 8, 10), scaled(i, 3, 10)],
            Palette::Rainbow => seq![rainbow_red(i), rainbow_green(i), rainbow_blue(i)],
            Palette::Pastel => seq![
                200u8,
                if i <= 200 {
                    (200 - i) as u8
                } else {
                    0u8
                },
                (255 - i / 2) as u8,
            ],
            Palette::Sunset => seq![rising(255, i), blend(100, 50, i), falling(50, i)],
            Palette::Ice => seq![blend(180, 200, i), rising(220, i), rising(255, i)],
            Palette::Neon => seq![falling(255, i), rising(255, i), neon_blue(i)],
            Palette::Grayscale => seq![i as u8, i as u8, i as u8],
            Palette::UserDefined => seq![
                blend(first.0 as nat, second.0 as nat, i),
                blend(first.1 as nat, second.1 as nat, i),
                blend(first.2 as nat, second.2 as nat, i),
            ],
        }
    }
}

/// The channel that a number between 0 and 1 stands for on a scale up to
/// 255: `x * 255`, truncated. `bits` encode `x` in single precision. Negative
/// numbers and not-a-number give 0, and anything from 1 up gives 255 or is
/// capped there.
pub open spec fn channel_of_unit(bits: u32) -> u8 {
    let fraction = bits % 0x80_0000;
    let field = (bits / 0x80_0000) % 0x100;
    if bits >= 0x8000_0000 || (field == 0xff && fraction != 0) {
        0u8
    } else if field == 0xff {
        255u8
    } else {
        to_byte(product(units_of_bits(bits), whole(255)))
    }
}

/// The channel that a number between 0 and 1 stands for: `x * 255`,
/// truncated, for the `x` that `bits` encode in single precision.
pub fn channel_from_unit(bits: u32) -> (channel: u8)
    ensures
        channel == channel_of_unit(bits),
{
    let fraction: u32 = bits % 0x80_0000;
    let field: u32 = (bits / 0x80_0000) % 0x100;
    if bits >= 0x8000_0000 || (field == 0xff && fraction != 0) {
        0
    } else if field == 0xff {
        255
    } else {
        Single::from_bits(bits).times(Single::from_whole(255)).to_byte()
    }
}

/// A channel as a number between 0 and 1: `channel / 255`, as the bits that
/// encode it in single precision.
pub fn unit_from_channel(channel: u8) -> (bits: u32)
    ensures
        is_finite_nonnegative(bits),
        units_of_bits(bits) == ratio(channel as nat, 255),
{
    Single::from_ratio(channel as u32, 255).to_bits()
}

/// `t` and `1 - t` for a count below 255.
fn fractions(i: u32) -> (tu: (Single, Single))
    requires
        i < 255,
    ensures
        tu.0.wf(),
        tu.1.wf(),
        tu.0@ == fraction(i as nat),
        tu.1@ == remainder(i as nat),
        118 <= tu.0.exponent <= 149,
        118 <= tu.1.exponent <= 150,
{
    let t = Single::from_ratio(i, 255);
    let u = Single::from_whole(1).minus(t);
    (t, u)
}

fn scale(i: u32, n: u32, d: u32) -> (b: u8)
    requires
        i < 255,
        n < 255,
        0 < d <= 255,
    ensures
        b == scaled(i as nat, n as nat, d as nat),
{
    Single::from_whole(i).times(Single::from_ratio(n, d)).to_byte()
}

fn grade(k: u32, x: Single) -> (b: u8)
    requires
        k <= 255,
        x.wf(),
        118 <= x.exponent <= 150,
    ensures
        b == to_byte(product(whole(k as nat), x@)),
{
    Single::from_whole(k).times(x).to_byte()
}

fn mix(a: u8, b: u8, t: Single, u: Single) -> (c: u8)
    requires
        t.wf(),
        u.wf(),
        118 <= t.exponent <= 149,
        118 <= u.exponent <= 150,
    ensures
        c == to_byte(sum(product(whole(a as nat), u@), product(whole(b as nat), t@))),
{
    let low = Single::from_whole(a as u32).times(u);
    let high = Single::from_whole(b as u32).times(t);
    low.plus(high).to_byte()
}

/// The colour of iteration count `i` under `palette`.
///
/// Counts of 255 and above are black under every palette. `user_palette`
/// holds the two ends of the gradient of `Palette::UserDefined`; the other
/// palettes ignore it.
pub fn palette_color(i: u32, palette: Palette, user_palette: &[(u8, u8, u8); 2]) -> (rgb: [u8; 3])
    ensures
        rgb@ == palette_rgb(i as nat, palette, user_palette@[0], user_palette@[1]),
{
    if i >= MAX_ITERATIONS {
        let rgb = [0u8, 0u8, 0u8];
        assert(rgb@ =~= seq![0u8, 0u8, 0u8]);
        return rgb;
    }
    let rgb: [u8; 3] = match palette {
        Palette::Classic => [i as u8, 0, 255 - i as u8],
        Palette::Fire => [255, scale(i, 7, 10), scale(i, 1, 10)],
        Palette::Ocean => [0, scale(i, 5, 10), scale(i, 9, 10)],
        Palette::Forest => [scale(i, 2, 10), scale(i, 8, 10), scale(i, 3, 10)],
        Palette::Rainbow => {
            let (t, u) = fractions(i);
            let top = Single::from_whole(255);
            let r = Single::from_whole(9).times(u).times(t).times(t).times(t).times(top);
            let g = Single::from_whole(15).times(u).times(u).times(t).times(t).times(top);
            let b = Single::from_ratio(17, 2).times(u).times(u).times(u).times(t).times(top);
            [r.to_byte(), g.to_byte(), b.to_byte()]
        },
        Palette::Pastel => [200, 200u8.saturating_sub(i as u8), 255 - (i / 2) as u8],
        Palette::Sunset => {
            let (t, u) = fractions(i);
            [grade(255, t), mix(100, 50, t, u), grade(50, u)]
        },
        Palette::Ice => {
            let (t, u) = fractions(i);
            [mix(180, 200, t, u), grade(220, t), grade(255, t)]
        },
        Palette::Neon => {
            let (t, u) = fractions(i);
            let b = Single::from_whole(255).times(u).times(t);
            [grade(255, u), grade(255, t), b.to_byte()]
        },
        Palette::Grayscale => [i as u8, i as u8, i as u8],
        Palette::UserDefined => {
            let (t, u) = fractions(i);
            let first = user_palette[0];
            let second = user_palette[1];
            [mix(first.0, second.0, t, u), mix(first.1, second.1, t, u), mix(first.2, second.2, t, u)]
        },
    };
    assert(rgb@ =~= palette_rgb(i as nat, palette, user_palette@[0], user_palette@[1]));
    rgb
}

/// A point that never escaped is black whatever the palette and gradient.
pub proof fn lemma_interior_is_black(
    i: nat,
    palette: Palette,
    first: (u8, u8, u8),
    second: (u8, u8, u8),
)
    requires
        i >= 255,
    ensures
        palette_rgb(i, palette, first, second) == seq![0u8, 0u8, 0u8],
{
}

/// Under `Grayscale` each channel is the count itself, so a larger count
/// below 255 never gives a darker shade.
pub proof fn lemma_grayscale_never_darkens(
    i: nat,
    j: nat,
    first: (u8, u8, u8),
    second: (u8, u8, u8),
)
    requires
        i <= j < 255,
    ensures
        forall|c: int|
            0 <= c < 3 ==> {
                &&& #[trigger] palette_rgb(i, Palette::Grayscale, first, second)[c] == i
                &&& palette_rgb(i, Palette::Grayscale, first, second)[c] <= palette_rgb(
                    j,
                    Palette::Grayscale,
                    first,
                    second,
                )[c]
            },
{
}

/// At count 0 a blend is its first end, exactly.
pub proof fn lemma_blend_starts_at_first(a: nat, b: nat)
    requires
        a <= 255,
        b <= 255,
    ensures
        blend(a, b, 0) == a,
{
    lemma_pow2_pos(149);
    lemma2_to64();
    assert(0nat * one() == 0);
    lemma_nearest_zero(255, 24);
    assert(fraction(0) == 0);
    assert(whole(1) == one());
    lemma_nearest_exact(1, 149, 24);
    assert(remainder(0) == one());
    lemma_product_of_whole(a, one());
    lemma_whole_is_exact(a);
    lemma_product_of_whole(b, 0);
    assert(b * 0 == 0);
    lemma_nearest_zero(1, 24);
    assert(sum(whole(a), 0) == whole(a));
    lemma_to_byte_between(whole(a), a, a);
}

/// `t` at count 254, and what is left of 1.
proof fn lemma_fractions_at_last()
    ensures
        fraction(254) == 16711423 * pow2(125),
        remainder(254) == 65793 * pow2(125),
        one() == 0x100_0000 * pow2(125),
{
    let p = pow2(125);
    lemma2_to64();
    lemma_pow2_pos(125);
    lemma_pow2_adds(24, 125);
    assert(254 * one() == (254 * 0x100_0000) * p) by (nonlinear_arith)
        requires
            one() == 0x100_0000 * p,
    ;
    assert((254 * 0x100_0000) * p < 255 * 0x100_0000 * p) by (nonlinear_arith)
        requires
            p > 0,
    ;
    assert((254 * 0x100_0000) * p >= 255 * 0x80_0000 * p) by (nonlinear_arith)
        requires
            p > 0,
    ;
    lemma_nearest_at_spacing(254 * one(), 255, 24, 125);
    lemma_round_half_even_scales(254 * 0x100_0000, 255, p);
    assert(round_half_even(254 * 0x100_0000, 255) == 16711423);
    assert(whole(1) == one());
    assert((whole(1) - fraction(254)) as nat == 65793 * p) by (nonlinear_arith)
        requires
            whole(1) == 0x100_0000 * p,
            fraction(254) == 16711423 * p,
    ;
    lemma_nearest_exact(65793, 125, 24);
}

/// At count 254 a blend is within one of its second end.
pub proof fn lemma_blend_ends_near_second(a: nat, b: nat)
    requires
        a <= 255,
        b <= 255,
    ensures
        b - 1 <= blend(a, b, 254) <= b + 1,
{
    let p = pow2(125);
    let t = fraction(254);
    let u = remainder(254);
    lemma_fractions_at_last();
    lemma_pow2_pos(125);
    lemma_product_of_whole(a, u);
    lemma_product_of_whole(b, t);
    let low = product(whole(a), u);
    let high = product(whole(b), t);
    // a * (1 - t) is at most 1
    assert(a * u <= whole(1)) by (nonlinear_arith)
        requires
            a <= 255,
            u == 65793 * p,
            whole(1) == 1 * (0x100_0000 * p),
            p > 0,
    ;
    lemma_nearest_monotone(a * u, whole(1), 1, 24);
    lemma_whole_is_exact(1);
    // b * t lies between b - 1 and b
    assert(b * t <= whole(b)) by (nonlinear_arith)
        requires
            t == 16711423 * p,
            whole(b) == b * (0x100_0000 * p),
            p > 0,
    ;
    lemma_nearest_monotone(b * t, whole(b), 1, 24);
    lemma_whole_is_exact(b);
    let under = if b >= 1 {
        (b - 1) as nat
    } else {
        0nat
    };
    assert(whole(under) <= b * t) by (nonlinear_arith)
        requires
            b <= 255,
            under + 1 == b || (under == 0 && b == 0),
            t == 16711423 * p,
            whole(under) == under * (0x100_0000 * p),
            p > 0,
    ;
    lemma_nearest_monotone(whole(under), b * t, 1, 24);
    lemma_whole_is_exact(under);
    // so does their sum, up to one more
    lemma_nearest_monotone(high, low + high, 1, 24);
    lemma_nearest_monotone(whole(under), high, 1, 24);
    assert(low + high <= whole(b + 1)) by (nonlinear_arith)
        requires
            low <= whole(1),
            high <= whole(b),
            whole(1) == 1 * one(),
            whole(b) == b * one(),
            whole(b + 1) == (b + 1) * one(),
    ;
    lemma_nearest_monotone(low + high, whole(b + 1), 1, 24);
    lemma_whole_is_exact(b + 1);
    lemma_nearest_monotone(whole(under), low + high, 1, 24);
    lemma_to_byte_between(sum(low, high), under, b + 1);
}

/// The user's gradient starts at its first colour exactly and, at the last
/// count before the interior, is within one unit of its second colour in
/// every channel.
pub proof fn lemma_gradient_ends(first: (u8, u8, u8), second: (u8, u8, u8))
    ensures
        palette_rgb(0, Palette::UserDefined, first, second) == seq![first.0, first.1, first.2],
        second.0 - 1 <= palette_rgb(254, Palette::UserDefined, first, second)[0] <= second.0 + 1,
        second.1 - 1 <= palette_rgb(254, Palette::UserDefined, first, second)[1] <= second.1 + 1,
        second.2 - 1 <= palette_rgb(254, Palette::UserDefined, first, second)[2] <= second.2 + 1,
{
    lemma_blend_starts_at_first(first.0 as nat, second.0 as nat);
    lemma_blend_starts_at_first(first.1 as nat, second.1 as nat);
    lemma_blend_starts_at_first(first.2 as nat, second.2 as nat);
    lemma_blend_ends_near_second(first.0 as nat, second.0 as nat);
    lemma_blend_ends_near_second(first.1 as nat, second.1 as nat);
    lemma_blend_ends_near_second(first.2 as nat, second.2 as nat);
}

} // verus!
