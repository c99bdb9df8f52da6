//! File names and palette names.

use fractal_core::naming::{
    decimal, favorite_file_name, favorite_file_name_now, image_file_name, image_file_name_now,
    palette_slug, OUTPUT_DIR, TIMESTAMP_PATTERN,
};
use fractal_core::types::{palette_label, palette_names, Palette};

#[test]
fn image_names_spell_out_their_parts() {
    assert_eq!(
        image_file_name(Palette::Classic, "20240131_235959", 800, 600, false),
        "0_fractals/mandelbrot_classic_20240131_235959_800x600_std.png"
    );
    assert_eq!(
        image_file_name(Palette::UserDefined, "20240131_235959", 3200, 2400, true),
        "0_fractals/mandelbrot_userdefined_20240131_235959_3200x2400_highres.png"
    );
    assert_eq!(
        image_file_name(Palette::Ice, "", 0, 7, false),
        "0_fractals/mandelbrot_ice__0x7_std.png"
    );
}

#[test]
fn favorite_names_spell_out_their_parts() {
    assert_eq!(favorite_file_name("20240131_235959"), "0_fractals/favorite_20240131_235959.json");
    assert_eq!(favorite_file_name(""), "0_fractals/favorite_.json");
}

#[test]
fn numbers_are_written_in_decimal() {
    assert_eq!(decimal(0), "0");
    assert_eq!(decimal(7), "7");
    assert_eq!(decimal(10), "10");
    assert_eq!(decimal(909), "909");
    assert_eq!(decimal(1234567890), "1234567890");
    assert_eq!(decimal(usize::MAX), usize::MAX.to_string());
}

#[test]
fn every_palette_has_its_slug() {
    let expected = [
        (Palette::Classic, "classic"),
        (Palette::Fire, "fire"),
        (Palette::Ocean, "ocean"),
        (Palette::Forest, "forest"),
        (Palette::Rainbow, "rainbow"),
        (Palette::Pastel, "pastel"),
        (Palette::Sunset, "sunset"),
        (Palette::Ice, "ice"),
        (Palette::Neon, "neon"),
        (Palette::Grayscale, "grayscale"),
        (Palette::UserDefined, "userdefined"),
    ];
    for &(palette, slug) in expected.iter() {
        assert_eq!(palette_slug(palette), slug);
    }
}

#[test]
fn every_palette_has_its_label() {
    let expected = [
        ("Classic", Palette::Classic),
        ("Fire", Palette::Fire),
        ("Ocean", Palette::Ocean),
        ("Forest", Palette::Forest),
        ("Rainbow", Palette::Rainbow),
        ("Pastel", Palette::Pastel),
        ("Sunset", Palette::Sunset),
        ("Ice", Palette::Ice),
        ("Neon", Palette::Neon),
        ("Grayscale", Palette::Grayscale),
        ("User Defined", Palette::UserDefined),
    ];
    assert_eq!(palette_names(), expected.to_vec());
    for &(label, palette) in expected.iter() {
        assert_eq!(palette_label(palette), label);
    }
}

#[test]
fn constants_of_the_naming_scheme() {
    assert_eq!(OUTPUT_DIR, "0_fractals");
    assert_eq!(TIMESTAMP_PATTERN, "%Y%m%d_%H%M%S");
}

fn is_timestamp(text: &str) -> bool {
    let bytes = text.as_bytes();
    bytes.len() == 15
        && bytes[8] == b'_'
        && bytes.iter().enumerate().all(|(i, b)| i == 8 || b.is_ascii_digit())
}

#[test]
fn image_name_of_now_carries_the_time() {
    let name = image_file_name_now(Palette::Fire, 800, 600, true);
    let stamp = name
        .strip_prefix("0_fractals/mandelbrot_fire_")
        .and_then(|rest| rest.strip_suffix("_800x600_highres.png"))
        .expect("prefix and suffix");
    assert!(is_timestamp(stamp), "timestamp {:?}", stamp);
    assert!(!name.contains('%'));
    assert_eq!(name, image_file_name(Palette::Fire, stamp, 800, 600, true));
}

#[test]
fn favorite_name_of_now_carries_the_time() {
    let name = favorite_file_name_now();
    let stamp = name
        .strip_prefix("0_fractals/favorite_")
        .and_then(|rest| rest.strip_suffix(".json"))
        .expect("prefix and suffix");
    assert!(is_timestamp(stamp), "timestamp {:?}", stamp);
    assert!(!name.contains('%'));
}
