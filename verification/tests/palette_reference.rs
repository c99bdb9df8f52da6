//! Every palette against the same formulas evaluated in hardware single precision.

use fractal_core::palette::palette_color;
use fractal_core::types::Palette;

const GRADIENT: [(u8, u8, u8); 2] = [(0, 255, 255), (255, 0, 255)];

fn lerp(a: u8, b: u8, t: f32) -> u8 {
    (a as f32 * (1.0 - t) + b as f32 * t) as u8
}

fn reference(i: u32, palette: Palette, user: &[(u8, u8, u8); 2]) -> [u8; 3] {
    if i >= 255 {
        return [0, 0, 0];
    }
    let x = i as f32;
    let t = x / 255.0;
    match palette {
        Palette::Classic => [i as u8, 0, 255 - i as u8],
        Palette::Fire => [255, (x * 0.7) as u8, (x * 0.1) as u8],
        Palette::Ocean => [0, (x * 0.5) as u8, (x * 0.9) as u8],
        Palette::Forest => [(x * 0.2) as u8, (x * 0.8) as u8, (x * 0.3) as u8],
        Palette::Rainbow => [
            (9.0 * (1.0 - t) * t * t * t * 255.0) as u8,
            (15.0 * (1.0 - t) * (1.0 - t) * t * t * 255.0) as u8,
            (8.5 * (1.0 - t) * (1.0 - t) * (1.0 - t) * t * 255.0) as u8,
        ],
        Palette::Pastel => [200, 200u8.saturating_sub(i as u8), 255 - (i as u8) / 2],
        Palette::Sunset => [
            (255.0 * t) as u8,
            (100.0 * (1.0 - t) + 50.0 * t) as u8,
            (50.0 * (1.0 - t)) as u8,
        ],
        Palette::Ice => [
            (180.0 * (1.0 - t) + 200.0 * t) as u8,
            (220.0 * t) as u8,
            (255.0 * t) as u8,
        ],
        Palette::Neon => [
            (255.0 * (1.0 - t)) as u8,
            (255.0 * t) as u8,
            (255.0 * (1.0 - t) * t) as u8,
        ],
        Palette::Grayscale => [i as u8, i as u8, i as u8],
        Palette::UserDefined => [
            lerp(user[0].0, user[1].0, t),
            lerp(user[0].1, user[1].1, t),
            lerp(user[0].2, user[1].2, t),
        ],
    }
}

fn agrees_everywhere(palette: Palette) {
    for i in 0..=300u32 {
        assert_eq!(
            palette_color(i, palette, &GRADIENT),
            reference(i, palette, &GRADIENT),
            "count {}",
            i
        );
    }
}

#[test]
fn classic_matches_single_precision() {
    agrees_everywhere(Palette::Classic);
}

#[test]
fn fire_matches_single_precision() {
    agrees_everywhere(Palette::Fire);
}

#[test]
fn ocean_matches_single_precision() {
    agrees_everywhere(Palette::Ocean);
}

#[test]
fn forest_matches_single_precision() {
    agrees_everywhere(Palette::Forest);
}

#[test]
fn rainbow_matches_single_precision() {
    agrees_everywhere(Palette::Rainbow);
}

#[test]
fn pastel_matches_single_precision() {
    agrees_everywhere(Palette::Pastel);
}

#[test]
fn sunset_matches_single_precision() {
    agrees_everywhere(Palette::Sunset);
}

#[test]
fn ice_matches_single_precision() {
    agrees_everywhere(Palette::Ice);
}

#[test]
fn neon_matches_single_precision() {
    agrees_everywhere(Palette::Neon);
}

#[test]
fn grayscale_matches_single_precision() {
    agrees_everywhere(Palette::Grayscale);
}

#[test]
fn default_gradient_matches_single_precision() {
    agrees_everywhere(Palette::UserDefined);
}

#[test]
fn gradients_match_single_precision_at_every_count() {
    let ends: [u8; 12] = [0, 1, 2, 3, 7, 64, 100, 127, 128, 200, 254, 255];
    for &a in ends.iter() {
        for &b in ends.iter() {
            let user = [(a, b, a), (b, a, a)];
            for i in 0..255u32 {
                assert_eq!(
                    palette_color(i, Palette::UserDefined, &user),
                    reference(i, Palette::UserDefined, &user),
                    "ends {} {} count {}",
                    a,
                    b,
                    i
                );
            }
        }
    }
}

#[test]
fn gradients_match_single_precision_for_every_pair_of_ends() {
    for i in [1u32, 65, 128, 254] {
        for a in 0..=255u8 {
            for b in (0..=255u8).step_by(3) {
                let user = [(a, 0, 0), (b, 0, 0)];
                assert_eq!(
                    palette_color(i, Palette::UserDefined, &user)[0],
                    reference(i, Palette::UserDefined, &user)[0],
                    "ends {} {} count {}",
                    a,
                    b,
                    i
                );
            }
        }
    }
}
