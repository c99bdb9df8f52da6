//! What a render is parameterised by: the palette, the kind of fractal and the
//! rectangle of the plane that is viewed.

use crate::double::{difference, negated, one, product, sum, whole, Double, Number};
use vstd::arithmetic::power2::{lemma2_to64, lemma2_to64_rest, lemma_pow2_adds, pow2};
use vstd::prelude::*;

verus! {

/// A mapping from iteration counts to colours.
///
/// Ten palettes are fixed; `UserDefined` blends between two colours that the
/// caller supplies alongside it.
#[derive(Clone, Copy, PartialEq, Eq, Debug, Structural)]
pub enum Palette {
    Classic,
    Fire,
    Ocean,
    Forest,
    Rainbow,
    Pastel,
    Sunset,
    Ice,
    Neon,
    Grayscale,
    UserDefined,
}

/// Which recurrence an image shows.
#[derive(Clone, Copy, PartialEq, Eq, Debug, Structural)]
pub enum FractalType {
    Mandelbrot,
    Julia,
}

/// A rectangle of the complex plane: real parts from `min_x` towards `max_x`,
/// imaginary parts from `min_y` towards `max_y`.
#[derive(Clone, Copy, PartialEq, Eq, Debug, Structural)]
pub struct ViewRect {
    pub min_x: Double,
    pub max_x: Double,
    pub min_y: Double,
    pub max_y: Double,
}

/// A view with the settings it is rendered by, as it is kept among the
/// favourites.
#[derive(Clone, Copy, Debug)]
pub struct FavoriteSetting {
    pub view: ViewRect,
    pub palette: Palette,
    pub fractal_type: FractalType,
    /// The constant of the Julia set; unused for the Mandelbrot set.
    pub julia_param: (Double, Double),
}

/// One half.
pub open spec fn half() -> Number {
    Number::Finite { units: pow2(1073) as int }
}

/// The middle of an axis: `(lo + hi) / 2`.
pub open spec fn centre(lo: Number, hi: Number) -> Number {
    product(sum(lo, hi), half())
}

/// Half of twice the extent of an axis: `(hi - lo) * 2 / 2`.
pub open spec fn reach(lo: Number, hi: Number) -> Number {
    product(product(difference(hi, lo), whole(2)), half())
}

/// The low bound of an axis after zooming out: the centre less the reach.
pub open spec fn zoomed_low(lo: Number, hi: Number) -> Number {
    difference(centre(lo, hi), reach(lo, hi))
}

/// The high bound of an axis after zooming out: the centre plus the reach.
pub open spec fn zoomed_high(lo: Number, hi: Number) -> Number {
    sum(centre(lo, hi), reach(lo, hi))
}

/// The point a fraction `t` of the way along an axis: `lo + t * (hi - lo)`.
pub open spec fn along(lo: Number, hi: Number, t: Number) -> Number {
    sum(lo, product(t, difference(hi, lo)))
}

impl ViewRect {
    /// The view that shows the whole Mandelbrot set: real parts from -2.5 to
    /// 1, imaginary parts from -1 to 1.
    pub fn home() -> (v: ViewRect)
        ensures
            v.min_x@ == (Number::Finite { units: -5 * pow2(1073) }),
            v.max_x@ == whole(1),
            v.min_y@ == negated(whole(1)),
            v.max_y@ == whole(1),
    {
        proof {
            lemma2_to64();
            lemma2_to64_rest();
            lemma_pow2_adds(50, 1023);
            lemma_pow2_adds(52, 1022);
            assert((0x10_0000_0000_0000 + 0x4_0000_0000_0000) * pow2(1023) == 5 * pow2(1073))
                by (nonlinear_arith)
                requires
                    pow2(1073) == 0x4_0000_0000_0000 * pow2(1023),
            ;
            assert(0x10_0000_0000_0000 * pow2(1022) == 1 * one());
        }
        ViewRect {
            min_x: Double { bits: 0xc004_0000_0000_0000 },
            max_x: Double { bits: 0x3ff0_0000_0000_0000 },
            min_y: Double { bits: 0xbff0_0000_0000_0000 },
            max_y: Double { bits: 0x3ff0_0000_0000_0000 },
        }
    }

    /// The view with the same centre and twice the extent along both axes.
    pub fn zoomed_out(self) -> (v: ViewRect)
        ensures
            v.min_x@ == zoomed_low(self.min_x@, self.max_x@),
            v.max_x@ == zoomed_high(self.min_x@, self.max_x@),
            v.min_y@ == zoomed_low(self.min_y@, self.max_y@),
            v.max_y@ == zoomed_high(self.min_y@, self.max_y@),
    {
        let halve = Double { bits: 0x3fe0_0000_0000_0000 };
        let two = Double { bits: 0x4000_0000_0000_0000 };
        proof {
            lemma2_to64();
            lemma2_to64_rest();
            lemma_pow2_adds(52, 1021);
            lemma_pow2_adds(52, 1023);
            lemma_pow2_adds(1, 1074);
            assert(0x10_0000_0000_0000 * pow2(1021) == pow2(1073));
            assert(0x10_0000_0000_0000 * pow2(1023) == 2 * one());
            assert(halve@ == half());
            assert(two@ == whole(2));
        }
        let cx = self.min_x.plus(self.max_x).times(halve);
        let cy = self.min_y.plus(self.max_y).times(halve);
        let rx = self.max_x.minus(self.min_x).times(two).times(halve);
        let ry = self.max_y.minus(self.min_y).times(two).times(halve);
        ViewRect { min_x: cx.minus(rx), max_x: cx.plus(rx), min_y: cy.minus(ry), max_y: cy.plus(ry) }
    }

    /// The part of this view between two corners, each given as fractions of
    /// the view's width and height: what a rectangle dragged over the image
    /// selects.
    pub fn zoomed_to(self, low: (Double, Double), high: (Double, Double)) -> (v: ViewRect)
        ensures
            v.min_x@ == along(self.min_x@, self.max_x@, low.0@),
            v.max_x@ == along(self.min_x@, self.max_x@, high.0@),
            v.min_y@ == along(self.min_y@, self.max_y@, low.1@),
            v.max_y@ == along(self.min_y@, self.max_y@, high.1@),
    {
        let span_x = self.max_x.minus(self.min_x);
        let span_y = self.max_y.minus(self.min_y);
        ViewRect {
            min_x: self.min_x.plus(low.0.times(span_x)),
            max_x: self.min_x.plus(high.0.times(span_x)),
            min_y: self.min_y.plus(low.1.times(span_y)),
            max_y: self.min_y.plus(high.1.times(span_y)),
        }
    }
}

/// The name a palette is shown under.
pub open spec fn label_text(palette: Palette) -> Seq<char> {
    match palette {
        Palette::Classic => "Classic"@,
        Palette::Fire => "Fire"@,
        Palette::Ocean => "Ocean"@,
        Palette::Forest => "Forest"@,
        Palette::Rainbow => "Rainbow"@,
        Palette::Pastel => "Pastel"@,
        Palette::Sunset => "Sunset"@,
        Palette::Ice => "Ice"@,
        Palette::Neon => "Neon"@,
        Palette::Grayscale => "Grayscale"@,
        Palette::UserDefined => "User Defined"@,
    }
}

/// Every palette, in the order they are offered.
pub open spec fn palette_list() -> Seq<Palette> {
    seq![
        Palette::Classic,
        Palette::Fire,
        Palette::Ocean,
        Palette::Forest,
        Palette::Rainbow,
        Palette::Pastel,
        Palette::Sunset,
        Palette::Ice,
        Palette::Neon,
        Palette::Grayscale,
        Palette::UserDefined,
    ]
}

/// The name a palette is shown under.
pub fn palette_label(palette: Palette) -> (label: &'static str)
    ensures
        label@ == label_text(palette),
{
    match palette {
        Palette::Classic => "Classic",
        Palette::Fire => "Fire",
        Palette::Ocean => "Ocean",
        Palette::Forest => "Forest",
        Palette::Rainbow => "Rainbow",
        Palette::Pastel => "Pastel",
        Palette::Sunset => "Sunset",
        Palette::Ice => "Ice",
        Palette::Neon => "Neon",
        Palette::Grayscale => "Grayscale",
        Palette::UserDefined => "User Defined",
    }
}

/// Every palette with the name it is shown under, in the order they are
/// offered.
pub fn palette_names() -> (names: Vec<(&'static str, Palette)>)
    ensures
        names@.len() == palette_list().len(),
        forall|i: int|
            0 <= i < names@.len() ==> {
                &&& (#[trigger] names@[i]).1 == palette_list()[i]
                &&& names@[i].0@ == label_text(palette_list()[i])
            },
{
    let all = [
        Palette::Classic,
        Palette::Fire,
        Palette::Ocean,
        Palette::Forest,
        Palette::Rainbow,
        Palette::Pastel,
        Palette::Sunset,
        Palette::Ice,
        Palette::Neon,
        Palette::Grayscale,
        Palette::UserDefined,
    ];
    assert(all@ =~= palette_list());
    let mut names: Vec<(&'static str, Palette)> = Vec::with_capacity(11);
    let mut i: usize = 0;
    while i < 11
        invariant
            i <= 11,
            all@ == palette_list(),
            names@.len() == i,
            forall|j: int|
                0 <= j < i ==> {
                    &&& (#[trigger] names@[j]).1 == palette_list()[j]
                    &&& names@[j].0@ == label_text(palette_list()[j])
                },
        decreases 11 - i,
    {
        names.push((palette_label(all[i]), all[i]));
        i = i + 1;
    }
    names
}

} // verus!
