//! Images, counts and errors on chosen inputs.

use fractal_core::fractal::{
    append_colors, append_counts, buffer_len, evaluate, iteration_count, paint, render_julia,
    render_mandelbrot, RenderError,
};
use fractal_core::palette::palette_color;
use fractal_core::double::Double;
use fractal_core::types::{FractalType, Palette, ViewRect};

const GRADIENT: [(u8, u8, u8); 2] = [(0, 255, 255), (255, 0, 255)];

fn d(x: f64) -> Double {
    Double::from_bits(x.to_bits())
}

fn rect(min_x: f64, max_x: f64, min_y: f64, max_y: f64) -> ViewRect {
    ViewRect { min_x: d(min_x), max_x: d(max_x), min_y: d(min_y), max_y: d(max_y) }
}

fn home() -> ViewRect {
    rect(-2.5, 1.0, -1.0, 1.0)
}

fn mandelbrot_count(re: f64, im: f64) -> u32 {
    iteration_count(FractalType::Mandelbrot, (d(re), d(im)), (d(0.0), d(0.0)))
}

fn julia_count(re: f64, im: f64, c: (f64, f64)) -> u32 {
    iteration_count(FractalType::Julia, (d(re), d(im)), (d(c.0), d(c.1)))
}

#[test]
fn buffer_has_three_bytes_per_point() {
    for (w, h) in [(1usize, 1usize), (2, 3), (7, 5), (16, 1), (1, 16)] {
        let pixels = render_mandelbrot(w, h, home(), Palette::Fire, &GRADIENT).unwrap();
        assert_eq!(pixels.len(), w * h * 3);
        let pixels =
            render_julia(w, h, home(), Palette::Ice, &GRADIENT, (d(-0.8), d(0.156))).unwrap();
        assert_eq!(pixels.len(), w * h * 3);
    }
}

#[test]
fn rendering_twice_gives_the_same_bytes() {
    let first = render_mandelbrot(20, 15, home(), Palette::Rainbow, &GRADIENT).unwrap();
    let second = render_mandelbrot(20, 15, home(), Palette::Rainbow, &GRADIENT).unwrap();
    assert_eq!(first, second);
    let c = (d(-0.8), d(0.156));
    let first = render_julia(20, 15, home(), Palette::UserDefined, &GRADIENT, c).unwrap();
    let second = render_julia(20, 15, home(), Palette::UserDefined, &GRADIENT, c).unwrap();
    assert_eq!(first, second);
}

#[test]
fn single_point_of_the_home_view() {
    // The one sample is the corner -2.5 - i. The Mandelbrot orbit starts at the
    // origin, which is inside the disc, so it takes one step, onto the corner,
    // and stops there.
    let pixels = render_mandelbrot(1, 1, home(), Palette::Classic, &GRADIENT).unwrap();
    assert_eq!(pixels, vec![1, 0, 254]);
    assert_eq!(mandelbrot_count(-2.5, -1.0), 1);
}

#[test]
fn an_orbit_that_starts_outside_takes_no_step() {
    // A Julia orbit starts at the sample itself: the corner escapes at once.
    let c = (d(-0.8), d(0.156));
    let pixels = render_julia(1, 1, home(), Palette::Classic, &GRADIENT, c).unwrap();
    assert_eq!(pixels, vec![0, 0, 255]);
    assert_eq!(julia_count(-2.5, -1.0, (-0.8, 0.156)), 0);
}

#[test]
fn first_point_is_the_minimum_corner() {
    let view = rect(0.5, 9.0, 0.0, 7.0);
    let pixels = render_mandelbrot(3, 2, view, Palette::Grayscale, &GRADIENT).unwrap();
    let corner = mandelbrot_count(0.5, 0.0);
    assert_eq!(corner, 5);
    assert_eq!(&pixels[0..3], &[corner as u8; 3]);
}

#[test]
fn mandelbrot_counts_of_known_points() {
    assert_eq!(mandelbrot_count(0.0, 0.0), 255);
    assert_eq!(mandelbrot_count(-1.0, 0.0), 255);
    assert_eq!(mandelbrot_count(1.0, 0.0), 2);
    assert_eq!(mandelbrot_count(-2.0, 0.0), 1);
    assert_eq!(mandelbrot_count(0.5, 0.0), 5);
    assert_eq!(mandelbrot_count(2.0, 2.0), 1);
    assert_eq!(mandelbrot_count(3.0, 0.0), 1);
}

#[test]
fn julia_without_constant_squares() {
    // with c = 0 the orbit of z is z, z^2, z^4, ...
    let zero = (0.0, 0.0);
    assert_eq!(julia_count(0.5, 0.0, zero), 255);
    assert_eq!(julia_count(2.0, 0.0, zero), 0);
    assert_eq!(julia_count(1.5, 0.0, zero), 1);
    assert_eq!(julia_count(0.0, 1.5, zero), 1);
    assert_eq!(julia_count(1.1, 0.0, zero), 3);
    assert_eq!(julia_count(-1.1, 0.0, zero), 3);
}

#[test]
fn julia_image_without_constant() {
    // one sample at 1.1: three steps, so Classic gives (3, 0, 252)
    let view = rect(1.1, 2.0, 0.0, 1.0);
    let pixels =
        render_julia(1, 1, view, Palette::Classic, &GRADIENT, (d(0.0), d(0.0))).unwrap();
    assert_eq!(pixels, vec![3, 0, 252]);
}

#[test]
fn mandelbrot_orbit_is_the_julia_orbit_one_step_on() {
    // from the origin the first step of the Mandelbrot orbit lands on c
    for &(re, im) in [(0.3, 0.5), (-0.75, 0.1), (0.25, 0.0), (-1.5, 0.2)].iter() {
        let m = mandelbrot_count(re, im);
        let j = julia_count(re, im, (re, im));
        assert_eq!(m, (j + 1).min(255), "point {} {}", re, im);
    }
}

#[test]
fn counts_never_pass_the_cap() {
    for &(re, im) in [(0.0, 0.0), (-0.1, 0.1), (0.2, -0.3), (-1.75, 0.0)].iter() {
        assert!(mandelbrot_count(re, im) <= 255);
    }
    assert_eq!(mandelbrot_count(0.0, 0.0), 255);
}

#[test]
fn interior_points_are_black_whatever_the_palette() {
    // a view small enough to lie inside the main cardioid
    let view = rect(-0.1, 0.1, -0.1, 0.1);
    for palette in [Palette::Classic, Palette::Fire, Palette::Pastel, Palette::UserDefined] {
        let pixels = render_mandelbrot(4, 4, view, palette, &GRADIENT).unwrap();
        assert_eq!(pixels, vec![0u8; 48]);
    }
}

#[test]
fn not_a_number_never_iterates() {
    assert_eq!(mandelbrot_count(f64::NAN, 0.0), 1);
    assert_eq!(julia_count(f64::NAN, 0.0, (0.0, 0.0)), 0);
    assert_eq!(julia_count(f64::INFINITY, 0.0, (0.0, 0.0)), 0);
}

#[test]
fn degenerate_and_inverted_views_render() {
    let flat = render_mandelbrot(3, 2, rect(0.0, 0.0, 0.0, 0.0), Palette::Classic, &GRADIENT);
    assert_eq!(flat.unwrap(), vec![0u8; 18]);
    let inverted = render_mandelbrot(4, 3, rect(1.0, -2.5, 1.0, -1.0), Palette::Classic, &GRADIENT);
    assert_eq!(inverted.unwrap().len(), 36);
}

#[test]
fn image_is_laid_out_row_by_row() {
    let (w, h) = (5usize, 4usize);
    let view = rect(-2.0, 0.5, -1.0, 1.0);
    let pixels = render_mandelbrot(w, h, view, Palette::Forest, &GRADIENT).unwrap();
    for y in 0..h {
        for x in 0..w {
            let re = -2.0 + x as f64 / w as f64 * 2.5;
            let im = -1.0 + y as f64 / h as f64 * 2.0;
            let color = palette_color(mandelbrot_count(re, im), Palette::Forest, &GRADIENT);
            let at = (y * w + x) * 3;
            assert_eq!(&pixels[at..at + 3], &color, "point {} {}", x, y);
        }
    }
}

#[test]
fn evaluate_dispatches_on_the_kind() {
    let c = (d(-0.8), d(0.156));
    assert_eq!(
        evaluate(6, 5, home(), FractalType::Mandelbrot, c, Palette::Ocean, &GRADIENT),
        render_mandelbrot(6, 5, home(), Palette::Ocean, &GRADIENT)
    );
    assert_eq!(
        evaluate(6, 5, home(), FractalType::Julia, c, Palette::Ocean, &GRADIENT),
        render_julia(6, 5, home(), Palette::Ocean, &GRADIENT, c)
    );
}

#[test]
fn paint_colors_each_count() {
    let counts = [0u32, 1, 254, 255, 300, 128];
    let pixels = paint(3, 2, &counts, Palette::Classic, &GRADIENT).unwrap();
    assert_eq!(
        pixels,
        vec![0, 0, 255, 1, 0, 254, 254, 0, 1, 0, 0, 0, 0, 0, 0, 128, 0, 127]
    );
}

#[test]
fn paint_agrees_with_the_palette() {
    let counts: Vec<u32> = (0..256).collect();
    for palette in [Palette::Rainbow, Palette::Sunset, Palette::UserDefined] {
        let pixels = paint(16, 16, &counts, palette, &GRADIENT).unwrap();
        for (i, rgb) in pixels.chunks(3).enumerate() {
            assert_eq!(rgb, &palette_color(i as u32, palette, &GRADIENT));
        }
    }
}

#[test]
fn colors_are_appended_after_what_is_there() {
    let mut pixels = vec![9u8, 8];
    append_colors(&mut pixels, &[0, 255, 10], Palette::Classic, &GRADIENT);
    assert_eq!(pixels, vec![9, 8, 0, 0, 255, 0, 0, 0, 10, 0, 245]);
    append_colors(&mut pixels, &[], Palette::Classic, &GRADIENT);
    assert_eq!(pixels.len(), 11);
}

#[test]
fn counts_are_appended_row_by_row() {
    let view = rect(-2.0, 2.0, 0.0, 2.0);
    let mut counts = vec![77u32];
    append_counts(&mut counts, 2, 2, view, FractalType::Mandelbrot, (d(0.0), d(0.0)));
    // the samples are -2, 0 on the first row and -2 + i, i on the second
    assert_eq!(counts, vec![77, 1, 255, 1, 255]);
    let c = (d(0.0), d(0.0));
    let mut julia = Vec::new();
    append_counts(&mut julia, 2, 2, view, FractalType::Julia, c);
    assert_eq!(julia, vec![0, 255, 0, 255]);
    append_counts(&mut julia, 0, 5, view, FractalType::Julia, c);
    append_counts(&mut julia, 5, 0, view, FractalType::Julia, c);
    assert_eq!(julia.len(), 4);
}

#[test]
fn an_image_is_its_counts_painted() {
    let view = rect(-2.0, 0.6, -1.1, 1.1);
    let c = (d(-0.4), d(0.6));
    for kind in [FractalType::Mandelbrot, FractalType::Julia] {
        let mut counts = Vec::new();
        append_counts(&mut counts, 9, 7, view, kind, c);
        assert_eq!(counts.len(), 63);
        assert_eq!(
            evaluate(9, 7, view, kind, c, Palette::Neon, &GRADIENT),
            paint(9, 7, &counts, Palette::Neon, &GRADIENT)
        );
    }
}

#[test]
fn zero_dimensions_are_refused() {
    assert_eq!(buffer_len(0, 5), Err(RenderError::EmptyImage));
    assert_eq!(buffer_len(5, 0), Err(RenderError::EmptyImage));
    assert_eq!(
        render_mandelbrot(0, 10, home(), Palette::Classic, &GRADIENT),
        Err(RenderError::EmptyImage)
    );
    assert_eq!(
        render_julia(10, 0, home(), Palette::Classic, &GRADIENT, (d(0.0), d(0.0))),
        Err(RenderError::EmptyImage)
    );
    assert_eq!(paint(0, 0, &[], Palette::Classic, &GRADIENT), Err(RenderError::EmptyImage));
}

#[test]
fn dimensions_beyond_the_address_space_are_refused() {
    assert_eq!(buffer_len(usize::MAX, 2), Err(RenderError::TooLarge));
    assert_eq!(buffer_len(usize::MAX / 3 + 1, 1), Err(RenderError::TooLarge));
    assert_eq!(buffer_len(usize::MAX / 3, 1), Ok(usize::MAX / 3 * 3));
    assert_eq!(
        render_mandelbrot(usize::MAX, usize::MAX, home(), Palette::Classic, &GRADIENT),
        Err(RenderError::TooLarge)
    );
}

#[test]
fn dimensions_beyond_memory_are_refused() {
    // the length fits in a usize, the buffers do not fit in memory
    let width = usize::MAX / 8;
    assert_eq!(buffer_len(width, 2), Ok(width * 6));
    assert_eq!(
        render_mandelbrot(width, 2, home(), Palette::Classic, &GRADIENT),
        Err(RenderError::OutOfMemory)
    );
    assert_eq!(
        render_julia(2, width, home(), Palette::Classic, &GRADIENT, (d(0.0), d(0.0))),
        Err(RenderError::OutOfMemory)
    );
}

#[test]
fn buffer_len_is_three_per_point() {
    assert_eq!(buffer_len(800, 600), Ok(1_440_000));
    assert_eq!(buffer_len(3200, 2400), Ok(23_040_000));
    assert_eq!(buffer_len(1, 1), Ok(3));
}

#[test]
fn a_wrong_number_of_counts_is_refused() {
    assert_eq!(
        paint(2, 2, &[1, 2, 3], Palette::Classic, &GRADIENT),
        Err(RenderError::CountMismatch)
    );
    assert_eq!(
        paint(1, 1, &[1, 2], Palette::Classic, &GRADIENT),
        Err(RenderError::CountMismatch)
    );
}

#[test]
fn bits_pass_through_unchanged() {
    for x in [0.0f64, -0.0, 1.5, -2.5, f64::MAX, f64::MIN_POSITIVE, f64::INFINITY] {
        assert_eq!(f64::from_bits(d(x).to_bits()).to_bits(), x.to_bits());
    }
}

#[test]
fn home_view_is_the_whole_set() {
    let home = ViewRect::home();
    assert_eq!(home.min_x.to_bits(), (-2.5f64).to_bits());
    assert_eq!(home.max_x.to_bits(), 1.0f64.to_bits());
    assert_eq!(home.min_y.to_bits(), (-1.0f64).to_bits());
    assert_eq!(home.max_y.to_bits(), 1.0f64.to_bits());
}

fn value(x: Double) -> f64 {
    f64::from_bits(x.to_bits())
}

fn zoomed(v: [f64; 4]) -> [f64; 4] {
    let cx = (v[0] + v[1]) / 2.0;
    let cy = (v[2] + v[3]) / 2.0;
    let scale_x = (v[1] - v[0]) * 2.0;
    let scale_y = (v[3] - v[2]) * 2.0;
    [cx - scale_x / 2.0, cx + scale_x / 2.0, cy - scale_y / 2.0, cy + scale_y / 2.0]
}

fn same_zoom(v: [f64; 4]) {
    let ours = rect(v[0], v[1], v[2], v[3]).zoomed_out();
    let ours = [value(ours.min_x), value(ours.max_x), value(ours.min_y), value(ours.max_y)];
    let theirs = zoomed(v);
    for i in 0..4 {
        assert!(
            (ours[i].is_nan() && theirs[i].is_nan()) || ours[i] == theirs[i],
            "view {:?} bound {}: {:e} and {:e}",
            v,
            i,
            ours[i],
            theirs[i]
        );
    }
}

#[test]
fn zooming_out_doubles_the_extent() {
    let out = ViewRect::home().zoomed_out();
    assert_eq!(value(out.min_x), -4.25);
    assert_eq!(value(out.max_x), 2.75);
    assert_eq!(value(out.min_y), -2.0);
    assert_eq!(value(out.max_y), 2.0);
}

#[test]
fn zooming_out_matches_double_precision() {
    same_zoom([-2.5, 1.0, -1.0, 1.0]);
    same_zoom([0.1, 0.3, -0.7, 0.2]);
    same_zoom([1.0, -2.5, 1.0, -1.0]);
    same_zoom([f64::MAX, -f64::MAX, f64::MAX / 2.0, f64::MAX]);
    same_zoom([f64::from_bits(1), f64::from_bits(3), -f64::from_bits(7), 0.0]);
    same_zoom([f64::NAN, 1.0, f64::INFINITY, f64::NEG_INFINITY]);
    let mut state = 99u64;
    let mut next = || {
        state = state.wrapping_mul(6364136223846793005).wrapping_add(1442695040888963407);
        state ^ (state >> 29)
    };
    for _ in 0..20_000 {
        same_zoom([
            f64::from_bits(next()),
            f64::from_bits(next()),
            f64::from_bits(next()),
            f64::from_bits(next()),
        ]);
        let a = (next() >> 11) as f64 / (1u64 << 53) as f64 * 4.0 - 2.0;
        let b = (next() >> 11) as f64 / (1u64 << 53) as f64 * 1e-9;
        same_zoom([a, a + b, -a, -a + b]);
    }
}

#[test]
fn zooming_to_a_selection() {
    let out = ViewRect::home().zoomed_to((d(0.25), d(0.5)), (d(0.75), d(1.0)));
    assert_eq!(value(out.min_x), -1.625);
    assert_eq!(value(out.max_x), 0.125);
    assert_eq!(value(out.min_y), 0.0);
    assert_eq!(value(out.max_y), 1.0);
    let whole = ViewRect::home().zoomed_to((d(0.0), d(0.0)), (d(1.0), d(1.0)));
    assert_eq!(whole, ViewRect::home());
}

#[test]
fn zooming_to_a_selection_matches_double_precision() {
    let mut state = 5u64;
    let mut next = || {
        state = state.wrapping_mul(6364136223846793005).wrapping_add(1442695040888963407);
        (state >> 11) as f64 / (1u64 << 53) as f64
    };
    for _ in 0..20_000 {
        let v = [next() * 4.0 - 2.0, next() * 4.0 - 2.0, next() - 0.5, next() * 1e-6];
        let (a, b) = ((next() as f32) as f64, (next() as f32) as f64);
        let (p, q) = ((next() as f32) as f64, (next() as f32) as f64);
        let ours = rect(v[0], v[1], v[2], v[3]).zoomed_to((d(a), d(p)), (d(b), d(q)));
        assert_eq!(value(ours.min_x), v[0] + a * (v[1] - v[0]));
        assert_eq!(value(ours.max_x), v[0] + b * (v[1] - v[0]));
        assert_eq!(value(ours.min_y), v[2] + p * (v[3] - v[2]));
        assert_eq!(value(ours.max_y), v[2] + q * (v[3] - v[2]));
    }
}
