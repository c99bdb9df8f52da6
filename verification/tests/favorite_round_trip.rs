//! A favourite written as JSON and read back renders the same image.

use fractal_core::fractal::{render_favorite, render_julia};
use fractal_core::double::Double;
use fractal_core::types::{FavoriteSetting, FractalType, Palette, ViewRect};
use serde_json::{Number, Value};

const GRADIENT: [(u8, u8, u8); 2] = [(0, 255, 255), (255, 0, 255)];

fn number(x: f64) -> Value {
    Value::Number(Number::from_f64(x).expect("a finite number"))
}

/// The text of a favourite file.
fn favorite_json(view: [f64; 4], palette: &str, kind: &str, param: (f64, f64)) -> String {
    let mut rect = serde_json::Map::new();
    rect.insert("min_x".to_string(), number(view[0]));
    rect.insert("max_x".to_string(), number(view[1]));
    rect.insert("min_y".to_string(), number(view[2]));
    rect.insert("max_y".to_string(), number(view[3]));
    let mut root = serde_json::Map::new();
    root.insert("view".to_string(), Value::Object(rect));
    root.insert("palette".to_string(), Value::String(palette.to_string()));
    root.insert("fractal_type".to_string(), Value::String(kind.to_string()));
    root.insert("julia_param".to_string(), Value::Array(vec![number(param.0), number(param.1)]));
    serde_json::to_string_pretty(&Value::Object(root)).expect("JSON text")
}

fn field(value: &Value, name: &str) -> f64 {
    value[name].as_f64().expect("a number")
}

fn d(x: f64) -> Double {
    Double::from_bits(x.to_bits())
}

fn rect(v: [f64; 4]) -> ViewRect {
    ViewRect { min_x: d(v[0]), max_x: d(v[1]), min_y: d(v[2]), max_y: d(v[3]) }
}

fn round_trip(view: [f64; 4], param: (f64, f64)) {
    let text = favorite_json(view, "Sunset", "Julia", param);
    let back: Value = serde_json::from_str(&text).expect("JSON value");
    let view_back = [
        field(&back["view"], "min_x"),
        field(&back["view"], "max_x"),
        field(&back["view"], "min_y"),
        field(&back["view"], "max_y"),
    ];
    let param_back =
        (back["julia_param"][0].as_f64().unwrap(), back["julia_param"][1].as_f64().unwrap());
    assert_eq!(back["palette"], "Sunset");
    assert_eq!(back["fractal_type"], "Julia");
    for i in 0..4 {
        assert_eq!(view_back[i].to_bits(), view[i].to_bits(), "bound {}", i);
    }
    assert_eq!(param_back.0.to_bits(), param.0.to_bits());
    assert_eq!(param_back.1.to_bits(), param.1.to_bits());
    let direct =
        render_julia(12, 9, rect(view), Palette::Sunset, &GRADIENT, (d(param.0), d(param.1)));
    let imported = FavoriteSetting {
        view: rect(view_back),
        palette: Palette::Sunset,
        fractal_type: FractalType::Julia,
        julia_param: (d(param_back.0), d(param_back.1)),
    };
    let restored = render_favorite(12, 9, &imported, &GRADIENT);
    assert_eq!(direct, restored);
}

#[test]
fn home_view_survives_the_file() {
    round_trip([-2.5, 1.0, -1.0, 1.0], (-0.8, 0.156));
}

#[test]
fn zoomed_views_survive_the_file() {
    round_trip([-0.7436438870371587, -0.7436438870357221, 0.1318259042053119, 0.1318259042064265],
        (0.285, 0.01));
    round_trip([-1.25, 1.0e-3, -1.0e-17, 3.0e8], (-0.4, 0.6));
    round_trip([0.1, 0.2, 0.3, 0.7], (1.0 / 3.0, 2.0 / 3.0));
}

#[test]
fn many_views_survive_the_file() {
    let mut state = 12345u64;
    let mut next = || {
        state = state.wrapping_mul(6364136223846793005).wrapping_add(1442695040888963407);
        ((state >> 11) as f64 / (1u64 << 53) as f64 - 0.5) * 4.0
    };
    for _ in 0..300 {
        let view = [next(), next(), next(), next()];
        let param = (next(), next());
        let text = favorite_json(view, "Classic", "Mandelbrot", param);
        let back: Value = serde_json::from_str(&text).expect("JSON value");
        assert_eq!(field(&back["view"], "min_x").to_bits(), view[0].to_bits());
        assert_eq!(field(&back["view"], "max_x").to_bits(), view[1].to_bits());
        assert_eq!(field(&back["view"], "min_y").to_bits(), view[2].to_bits());
        assert_eq!(field(&back["view"], "max_y").to_bits(), view[3].to_bits());
        assert_eq!(back["julia_param"][0].as_f64().unwrap().to_bits(), param.0.to_bits());
    }
}
