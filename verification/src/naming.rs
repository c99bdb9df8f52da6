//! Names for saved images and saved favourites.
//!
//! Saved files go to one directory and carry the moment they were written in
//! their name, so that a later save never replaces an earlier one.

use crate::types::Palette;
use vstd::prelude::*;

verus! {

/// The directory that saved files go to.
pub const OUTPUT_DIR: &'static str = "0_fractals";

/// The `strftime` pattern of the moment in a file name: date, underscore,
/// time of day, digits only.
pub const TIMESTAMP_PATTERN: &'static str = "%Y%m%d_%H%M%S";

/// The lower-case word for a palette in a file name.
pub open spec fn slug_text(palette: Palette) -> Seq<char> {
    match palette {
        Palette::Classic => "classic"@,
        Palette::Fire => "fire"@,
        Palette::Ocean => "ocean"@,
        Palette::Forest => "forest"@,
        Palette::Rainbow => "rainbow"@,
        Palette::Pastel => "pastel"@,
        Palette::Sunset => "sunset"@,
        Palette::Ice => "ice"@,
        Palette::Neon => "neon"@,
        Palette::Grayscale => "grayscale"@,
        Palette::UserDefined => "userdefined"@,
    }
}

/// The word for the resolution in a file name.
pub open spec fn resolution_text(high_res: bool) -> Seq<char> {
    if high_res {
        "highres"@
    } else {
        "std"@
    }
}

/// The character of a decimal digit.
pub open spec fn digit(d: nat) -> char
    recommends
        d < 10,
{
    if d == 0 {
        '0'
    } else if d == 1 {
        '1'
    } else if d == 2 {
        '2'
    } else if d == 3 {
        '3'
    } else if d == 4 {
        '4'
    } else if d == 5 {
        '5'
    } else if d == 6 {
        '6'
    } else if d == 7 {
        '7'
    } else if d == 8 {
        '8'
    } else {
        '9'
    }
}

/// A number in decimal, without sign, padding or leading zeros.
pub open spec fn decimal_text(n: nat) -> Seq<char>
    decreases n,
{
    if n < 10 {
        seq![digit(n)]
    } else {
        decimal_text(n / 10).push(digit(n % 10))
    }
}

/// The name of an image file:
/// `0_fractals/mandelbrot_<palette>_<timestamp>_<width>x<height>_<resolution>.png`.
pub open spec fn image_file_text(
    palette: Palette,
    timestamp: Seq<char>,
    width: nat,
    height: nat,
    high_res: bool,
) -> Seq<char> {
    OUTPUT_DIR@ + "/mandelbrot_"@ + slug_text(palette) + "_"@ + timestamp + "_"@ + decimal_text(
        width,
    ) + "x"@ + decimal_text(height) + "_"@ + resolution_text(high_res) + ".png"@
}

/// The name of a favourite file: `0_fractals/favorite_<timestamp>.json`.
pub open spec fn favorite_file_text(timestamp: Seq<char>) -> Seq<char> {
    OUTPUT_DIR@ + "/favorite_"@ + timestamp + ".json"@
}

/// The lower-case word for a palette in a file name.
pub fn palette_slug(palette: Palette) -> (slug: &'static str)
    ensures
        slug@ == slug_text(palette),
{
    match palette {
        Palette::Classic => "classic",
        Palette::Fire => "fire",
        Palette::Ocean => "ocean",
        Palette::Forest => "forest",
        Palette::Rainbow => "rainbow",
        Palette::Pastel => "pastel",
        Palette::Sunset => "sunset",
        Palette::Ice => "ice",
        Palette::Neon => "neon",
        Palette::Grayscale => "grayscale",
        Palette::UserDefined => "userdefined",
    }
}

fn digit_str(d: usize) -> (s: &'static str)
    requires
        d < 10,
    ensures
        s@ == seq![digit(d as nat)],
{
    proof {
        reveal_strlit("0");
        reveal_strlit("1");
        reveal_strlit("2");
        reveal_strlit("3");
        reveal_strlit("4");
        reveal_strlit("5");
        reveal_strlit("6");
        reveal_strlit("7");
        reveal_strlit("8");
        reveal_strlit("9");
    }
    let s = if d == 0 {
        "0"
    } else if d == 1 {
        "1"
    } else if d == 2 {
        "2"
    } else if d == 3 {
        "3"
    } else if d == 4 {
        "4"
    } else if d == 5 {
        "5"
    } else if d == 6 {
        "6"
    } else if d == 7 {
        "7"
    } else if d == 8 {
        "8"
    } else {
        "9"
    };
    assert(s@ =~= seq![digit(d as nat)]);
    s
}

/// A number in decimal.
pub fn decimal(n: usize) -> (text: String)
    ensures
        text@ == decimal_text(n as nat),
    decreases n,
{
    if n < 10 {
        String::from_str(digit_str(n))
    } else {
        let mut text = decimal(n / 10);
        text.append(digit_str(n % 10));
        assert(text@ =~= decimal_text(n as nat));
        text
    }
}

/// The name under which an image rendered at `timestamp` is saved.
pub fn image_file_name(
    palette: Palette,
    timestamp: &str,
    width: usize,
    height: usize,
    high_res: bool,
) -> (name: String)
    ensures
        name@ == image_file_text(palette, timestamp@, width as nat, height as nat, high_res),
{
    let mut name = String::from_str(OUTPUT_DIR);
    name.append("/mandelbrot_");
    name.append(palette_slug(palette));
    name.append("_");
    name.append(timestamp);
    name.append("_");
    name.append(decimal(width).as_str());
    name.append("x");
    name.append(decimal(height).as_str());
    name.append("_");
    name.append(
        if high_res {
            "highres"
        } else {
            "std"
        },
    );
    name.append(".png");
    name
}

/// The name under which a favourite exported at `timestamp` is saved.
pub fn favorite_file_name(timestamp: &str) -> (name: String)
    ensures
        name@ == favorite_file_text(timestamp@),
{
    let mut name = String::from_str(OUTPUT_DIR);
    name.append("/favorite_");
    name.append(timestamp);
    name.append(".json");
    name
}

/// The current local time as text, from chrono: `Local::now()`, formatted by
/// `DateTime::format` with `pattern` and written out by
/// `DelayedFormat::write_to`.
///
/// Nothing is claimed of the text: it depends on the clock and the time zone,
/// and a pattern that chrono cannot read cuts it short. chrono itself stops
/// the program if the clock is set before 1970.
#[verifier::external_body]
fn local_time_text(pattern: &str) -> (text: String) {
    let mut text = String::new();
    let _ = chrono::Local::now().format(pattern).write_to(&mut text);
    text
}

/// The name for an image saved now.
pub fn image_file_name_now(palette: Palette, width: usize, height: usize, high_res: bool) -> (name:
    String)
    ensures
        exists|timestamp: Seq<char>|
            name@ == #[trigger] image_file_text(
                palette,
                timestamp,
                width as nat,
                height as nat,
                high_res,
            ),
{
    let timestamp = local_time_text(TIMESTAMP_PATTERN);
    image_file_name(palette, timestamp.as_str(), width, height, high_res)
}

/// The name for a favourite saved now.
pub fn favorite_file_name_now() -> (name: String)
    ensures
        exists|timestamp: Seq<char>| name@ == #[trigger] favorite_file_text(timestamp),
{
    let timestamp = local_time_text(TIMESTAMP_PATTERN);
    favorite_file_name(timestamp.as_str())
}

} // verus!
