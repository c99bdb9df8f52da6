//! Every gradient at every count against hardware single precision.

use fractal_core::palette::palette_color;
use fractal_core::types::Palette;

fn lerp(a: u8, b: u8, i: u32) -> u8 {
    let t = i as f32 / 255.0;
    (a as f32 * (1.0 - t) + b as f32 * t) as u8
}

/// All gradients whose first end lies in `from..to`, with every second end,
/// at every count. The three channels are computed alike, so each call
/// checks three second ends at once.
fn every_gradient(from: u16, to: u16) {
    for a in from..to {
        let a = a as u8;
        for b in (0..=255u16).step_by(3) {
            let (b0, b1, b2) = (b as u8, (b + 1).min(255) as u8, (b + 2).min(255) as u8);
            let user = [(a, a, a), (b0, b1, b2)];
            for i in 0..255u32 {
                let got = palette_color(i, Palette::UserDefined, &user);
                let want = [lerp(a, b0, i), lerp(a, b1, i), lerp(a, b2, i)];
                assert_eq!(got, want, "ends {} {} count {}", a, b, i);
            }
        }
    }
}

#[test]
fn gradients_from_dark_ends() {
    every_gradient(0, 64);
}

#[test]
fn gradients_from_dim_ends() {
    every_gradient(64, 128);
}

#[test]
fn gradients_from_light_ends() {
    every_gradient(128, 192);
}

#[test]
fn gradients_from_bright_ends() {
    every_gradient(192, 256);
}
