//! Whole images against the same formulas evaluated in hardware double precision.

use fractal_core::fractal::{iteration_count, render_julia, render_mandelbrot};
use fractal_core::palette::palette_color;
use fractal_core::double::Double;
use fractal_core::types::{FractalType, Palette, ViewRect};

const GRADIENT: [(u8, u8, u8); 2] = [(0, 255, 255), (255, 0, 255)];

fn d(x: f64) -> Double {
    Double::from_bits(x.to_bits())
}

fn rect(min_x: f64, max_x: f64, min_y: f64, max_y: f64) -> ViewRect {
    ViewRect { min_x: d(min_x), max_x: d(max_x), min_y: d(min_y), max_y: d(max_y) }
}

fn orbit(mut zx: f64, mut zy: f64, cx: f64, cy: f64) -> u32 {
    let mut i = 0;
    while zx * zx + zy * zy < 4.0 && i < 255 {
        let tmp = zx * zx - zy * zy + cx;
        zy = 2.0 * zx * zy + cy;
        zx = tmp;
        i += 1;
    }
    i
}

fn reference(
    width: usize,
    height: usize,
    v: (f64, f64, f64, f64),
    julia: Option<(f64, f64)>,
    palette: Palette,
) -> Vec<u8> {
    let mut pixels = vec![0u8; width * height * 3];
    for y in 0..height {
        for x in 0..width {
            let re = v.0 + x as f64 / width as f64 * (v.1 - v.0);
            let im = v.2 + y as f64 / height as f64 * (v.3 - v.2);
            let i = match julia {
                None => orbit(0.0, 0.0, re, im),
                Some((cx, cy)) => orbit(re, im, cx, cy),
            };
            let idx = (y * width + x) * 3;
            pixels[idx..idx + 3].copy_from_slice(&palette_color(i, palette, &GRADIENT));
        }
    }
    pixels
}

fn same_mandelbrot(width: usize, height: usize, v: (f64, f64, f64, f64)) {
    let ours = render_mandelbrot(width, height, rect(v.0, v.1, v.2, v.3), Palette::Classic, &GRADIENT)
        .unwrap();
    assert_eq!(ours, reference(width, height, v, None, Palette::Classic), "view {:?}", v);
}

fn same_julia(width: usize, height: usize, v: (f64, f64, f64, f64), c: (f64, f64)) {
    let ours = render_julia(
        width,
        height,
        rect(v.0, v.1, v.2, v.3),
        Palette::Classic,
        &GRADIENT,
        (d(c.0), d(c.1)),
    )
    .unwrap();
    assert_eq!(ours, reference(width, height, v, Some(c), Palette::Classic), "view {:?}", v);
}

#[test]
fn mandelbrot_default_view_matches_double_precision() {
    same_mandelbrot(48, 36, (-2.5, 1.0, -1.0, 1.0));
}

#[test]
fn mandelbrot_zoomed_views_match_double_precision() {
    same_mandelbrot(24, 18, (-0.75, -0.74, 0.1, 0.11));
    same_mandelbrot(24, 18, (-1.7500001, -1.75, -1e-7, 1e-7));
    same_mandelbrot(17, 13, (0.25, 0.5, -0.5, 0.0));
}

#[test]
fn julia_default_constant_matches_double_precision() {
    same_julia(48, 36, (-2.5, 1.0, -1.0, 1.0), (-0.8, 0.156));
}

#[test]
fn julia_other_constants_match_double_precision() {
    same_julia(24, 18, (-1.5, 1.5, -1.5, 1.5), (0.285, 0.01));
    same_julia(24, 18, (-1.5, 1.5, -1.5, 1.5), (-0.4, 0.6));
    same_julia(24, 18, (-1.5, 1.5, -1.5, 1.5), (0.0, 0.0));
}

#[test]
fn single_points_match_double_precision() {
    let points = [
        (0.0, 0.0),
        (-2.5, -1.0),
        (0.3, 0.5),
        (-0.75, 0.1),
        (0.25, 0.0),
        (-2.0, 0.0),
        (2.0, 0.0),
        (1e-200, -1e-200),
        (-1.25, 1e-320),
        (0.1, 0.65),
    ];
    for &(re, im) in points.iter() {
        assert_eq!(
            iteration_count(FractalType::Mandelbrot, (d(re), d(im)), (d(0.0), d(0.0))),
            orbit(0.0, 0.0, re, im),
            "point {} {}",
            re,
            im
        );
        assert_eq!(
            iteration_count(FractalType::Julia, (d(re), d(im)), (d(-0.8), d(0.156))),
            orbit(re, im, -0.8, 0.156),
            "point {} {}",
            re,
            im
        );
    }
}

/// A small deterministic generator, so that the cases are the same on every run.
struct Lcg(u64);

impl Lcg {
    fn next(&mut self) -> u64 {
        self.0 = self.0.wrapping_mul(6364136223846793005).wrapping_add(1442695040888963407);
        self.0 ^ (self.0 >> 29)
    }

    /// A number of moderate size, of either sign.
    fn moderate(&mut self) -> f64 {
        let r = self.next();
        ((r >> 11) as f64 / (1u64 << 53) as f64 - 0.5) * 5.0
    }

    /// Any bit pattern: huge, tiny, subnormal, infinite and not-a-number among them.
    fn any(&mut self) -> f64 {
        f64::from_bits(self.next())
    }
}

#[test]
fn random_points_match_double_precision() {
    let mut g = Lcg(1);
    for _ in 0..3000 {
        let (re, im, cx, cy) = (g.moderate(), g.moderate(), g.moderate(), g.moderate());
        assert_eq!(
            iteration_count(FractalType::Julia, (d(re), d(im)), (d(cx), d(cy))),
            orbit(re, im, cx, cy),
            "point {:e} {:e} constant {:e} {:e}",
            re,
            im,
            cx,
            cy
        );
    }
}

#[test]
fn random_bit_patterns_match_double_precision() {
    let mut g = Lcg(2);
    for _ in 0..20000 {
        let (re, im, cx, cy) = (g.any(), g.any(), g.any(), g.any());
        assert_eq!(
            iteration_count(FractalType::Julia, (d(re), d(im)), (d(cx), d(cy))),
            orbit(re, im, cx, cy),
            "point {:e} {:e} constant {:e} {:e}",
            re,
            im,
            cx,
            cy
        );
        assert_eq!(
            iteration_count(FractalType::Mandelbrot, (d(re), d(im)), (d(cx), d(cy))),
            orbit(0.0, 0.0, re, im),
            "point {:e} {:e}",
            re,
            im
        );
    }
}

#[test]
fn small_points_with_random_constants_match_double_precision() {
    let mut g = Lcg(3);
    for _ in 0..4000 {
        let scale = f64::from_bits(((g.next() % 2046) + 1) << 52);
        let (re, im) = (g.moderate() * scale, g.moderate() * scale);
        let (cx, cy) = (g.moderate() * 0.4, g.moderate() * 0.4);
        assert_eq!(
            iteration_count(FractalType::Julia, (d(re), d(im)), (d(cx), d(cy))),
            orbit(re, im, cx, cy),
            "point {:e} {:e} constant {:e} {:e}",
            re,
            im,
            cx,
            cy
        );
    }
}

#[test]
fn extreme_views_match_double_precision() {
    let max = f64::MAX;
    let tiny = f64::from_bits(1);
    same_mandelbrot(5, 4, (-max, max, -max, max));
    same_mandelbrot(5, 4, (max, -max, 1.0, -1.0));
    same_mandelbrot(5, 4, (-tiny, tiny, -tiny, tiny));
    same_mandelbrot(7, 3, (0.0, 0.0, 0.0, 0.0));
    same_mandelbrot(3, 3, (1.0, -2.5, 1.0, -1.0));
    same_mandelbrot(3, 3, (f64::INFINITY, 1.0, -1.0, f64::NEG_INFINITY));
    same_mandelbrot(3, 3, (f64::NAN, 1.0, -1.0, 1.0));
    same_mandelbrot(3, 3, (-2.5, f64::INFINITY, f64::NEG_INFINITY, f64::INFINITY));
    same_julia(5, 4, (-max, max, -1e-310, 1e-310), (max, -max));
    same_julia(5, 4, (-1.0, 1.0, -1.0, 1.0), (f64::NAN, 0.0));
    same_julia(5, 4, (-1.0, 1.0, -1.0, 1.0), (f64::INFINITY, f64::NEG_INFINITY));
}

#[test]
fn random_views_match_double_precision() {
    let mut g = Lcg(4);
    for _ in 0..40 {
        let v = (g.moderate(), g.moderate(), g.moderate(), g.moderate());
        let width = (g.next() % 9 + 1) as usize;
        let height = (g.next() % 9 + 1) as usize;
        same_mandelbrot(width, height, v);
        same_julia(width, height, v, (g.moderate() * 0.3, g.moderate() * 0.3));
    }
    for _ in 0..200 {
        let v = (g.any(), g.any(), g.any(), g.any());
        let width = (g.next() % 4 + 1) as usize;
        let height = (g.next() % 4 + 1) as usize;
        same_mandelbrot(width, height, v);
    }
}
