//! Escape-time images of the Mandelbrot set and of Julia sets, proved down to
//! the last bit.
//!
//! - [`fractal`] renders an image: it samples a rectangle of the complex
//!   plane, counts the steps of each orbit and colours the counts.
//! - [`palette`] maps an iteration count to a colour under one of eleven
//!   palettes.
//! - [`naming`] names the files that images and favourites are saved to.
//! - [`types`] holds the choices a render is parameterised by.
//!
//! The arithmetic is that of binary floating point, carried out on whole
//! numbers: [`rounding`] states how a result is rounded to a number of
//! significant digits, [`single`] and [`double`] build single and double
//! precision on it. Every function is verified against a spec function that
//! writes its result out operation by operation.

pub mod double;
pub mod fractal;
pub mod naming;
pub mod palette;
pub mod rounding;
pub mod single;
pub mod types;
