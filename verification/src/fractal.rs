//! Escape-time images of the Mandelbrot set and of Julia sets.
//!
//! An image is a grid of `width * height` sample points laid over a rectangle
//! of the complex plane, walked row by row. Each point has an iteration count:
//! how many steps of `z <- z * z + c` its orbit took before it left the disc
//! of radius 2, or 255 if it never did within 255 steps. The buffer holds
//! three bytes per point, red, green and blue, in the same row-major order, so
//! the point `(x, y)` owns bytes `(y * width + x) * 3` onwards.
//!
//! Sampling and iteration run in double precision, one rounded operation at a
//! time as the spec functions below write them out, so an image is a function
//! of its inputs down to the last bit.

use crate::double::{
    difference, lemma_encoded_sum_with_zero, lemma_nearest_zero_ratio, lemma_results_absorb_zero,
    lemma_whole_is_exact, less, negated, product, sum, whole, whole_ratio, Double, Number,
    Unpacked,
};
use crate::palette::{palette_color, palette_rgb, MAX_ITERATIONS};
use crate::types::{FavoriteSetting, FractalType, Palette, ViewRect};
use vstd::prelude::*;

verus! {

/// Why no image could be made.
#[derive(Clone, Copy, PartialEq, Eq, Debug, Structural)]
pub enum RenderError {
    /// The width or the height is zero.
    EmptyImage,
    /// `width * height * 3` does not fit in a `usize`.
    TooLarge,
    /// The number of counts handed in is not `width * height`.
    CountMismatch,
    /// The memory for the image could not be had.
    OutOfMemory,
}

/// What is wrong with the dimensions, if anything.
pub open spec fn dimension_error(width: usize, height: usize) -> Option<RenderError> {
    if width == 0 || height == 0 {
        Some(RenderError::EmptyImage)
    } else if width * height * 3 > usize::MAX {
        Some(RenderError::TooLarge)
    } else {
        None
    }
}

/// What is wrong with the dimensions or the number of counts, if anything.
pub open spec fn paint_error(width: usize, height: usize, counts: nat) -> Option<RenderError> {
    if dimension_error(width, height).is_some() {
        dimension_error(width, height)
    } else if counts != width * height {
        Some(RenderError::CountMismatch)
    } else {
        None
    }
}

/// The buffer for a row-major grid of counts: byte `k` is channel `k % 3` of
/// the colour of count `k / 3`.
pub open spec fn image_bytes(
    counts: Seq<u32>,
    palette: Palette,
    first: (u8, u8, u8),
    second: (u8, u8, u8),
) -> Seq<u8> {
    Seq::new(
        3 * counts.len(),
        |k: int| palette_rgb(counts[k / 3] as nat, palette, first, second)[k % 3],
    )
}

/// What `paint` returns for a grid of counts: the colours of the counts, or
/// the reason there are none. Memory can run out on any grid; the other
/// errors come exactly when `paint_error` names them.
pub open spec fn painted(
    width: usize,
    height: usize,
    counts: Seq<u32>,
    palette: Palette,
    first: (u8, u8, u8),
    second: (u8, u8, u8),
    r: Result<Vec<u8>, RenderError>,
) -> bool {
    match r {
        Ok(pixels) => {
            &&& paint_error(width, height, counts.len()).is_none()
            &&& pixels@ == image_bytes(counts, palette, first, second)
        },
        Err(RenderError::OutOfMemory) => paint_error(width, height, counts.len()).is_none(),
        Err(e) => paint_error(width, height, counts.len()) == Some(e),
    }
}

/// std's `Vec::try_reserve_exact`: asks for room for `additional` more items
/// and tells whether it was given. The items already there stay as they are
/// either way.
#[verifier::external_body]
fn reserve<T>(v: &mut Vec<T>, additional: usize) -> (granted: bool)
    ensures
        final(v)@ == old(v)@,
{
    v.try_reserve_exact(additional).is_ok()
}

/// The number of bytes of a `width` by `height` image.
pub fn buffer_len(width: usize, height: usize) -> (r: Result<usize, RenderError>)
    ensures
        match r {
            Ok(n) => dimension_error(width, height).is_none() && n == width * height * 3,
            Err(e) => dimension_error(width, height) == Some(e),
        },
{
    if width == 0 || height == 0 {
        return Err(RenderError::EmptyImage);
    }
    match width.checked_mul(height) {
        None => Err(RenderError::TooLarge),
        Some(points) => match points.checked_mul(3) {
            None => Err(RenderError::TooLarge),
            Some(n) => Ok(n),
        },
    }
}

/// The colours of the counts 0 to 255, in order.
fn color_table(palette: Palette, user_palette: &[(u8, u8, u8); 2]) -> (table: [[u8; 3]; 256])
    ensures
        forall|i: int|
            0 <= i < 256 ==> (#[trigger] table@[i])@ == palette_rgb(
                i as nat,
                palette,
                user_palette@[0],
                user_palette@[1],
            ),
{
    let mut table: [[u8; 3]; 256] = [[0u8; 3]; 256];
    let mut i: usize = 0;
    while i < 256
        invariant
            i <= 256,
            forall|j: int|
                0 <= j < i ==> (#[trigger] table@[j])@ == palette_rgb(
                    j as nat,
                    palette,
                    user_palette@[0],
                    user_palette@[1],
                ),
        decreases 256 - i,
    {
        table[i] = palette_color(i as u32, palette, user_palette);
        i = i + 1;
    }
    table
}

/// One more count adds its three channels to the end of the buffer.
pub proof fn lemma_image_bytes_push(
    counts: Seq<u32>,
    count: u32,
    palette: Palette,
    first: (u8, u8, u8),
    second: (u8, u8, u8),
)
    ensures
        image_bytes(counts.push(count), palette, first, second) == image_bytes(
            counts,
            palette,
            first,
            second,
        ) + palette_rgb(count as nat, palette, first, second),
        palette_rgb(count as nat, palette, first, second).len() == 3,
{
    let longer = image_bytes(counts.push(count), palette, first, second);
    let rgb = palette_rgb(count as nat, palette, first, second);
    let joined = image_bytes(counts, palette, first, second) + rgb;
    assert(rgb.len() == 3);
    assert forall|k: int| 0 <= k < longer.len() implies longer[k] == joined[k] by {
        if k < 3 * counts.len() {
            assert(counts.push(count)[k / 3] == counts[k / 3]);
        } else {
            assert(k / 3 == counts.len());
            assert(counts.push(count)[k / 3] == count);
        }
    }
    assert(longer =~= joined);
}

/// Appends the colours of `counts` to `pixels`, three bytes for each count.
pub fn append_colors(
    pixels: &mut Vec<u8>,
    counts: &[u32],
    palette: Palette,
    user_palette: &[(u8, u8, u8); 2],
)
    requires
        old(pixels)@.len() + 3 * counts@.len() <= usize::MAX,
    ensures
        final(pixels)@ == old(pixels)@ + image_bytes(
            counts@,
            palette,
            user_palette@[0],
            user_palette@[1],
        ),
{
    let ghost before = pixels@;
    let ghost first = user_palette@[0];
    let ghost second = user_palette@[1];
    let table = color_table(palette, user_palette);
    let mut k: usize = 0;
    assert(counts@.take(0) =~= Seq::<u32>::empty());
    assert(pixels@ =~= before + image_bytes(counts@.take(0), palette, first, second));
    while k < counts.len()
        invariant
            k <= counts.len(),
            before.len() + 3 * counts@.len() <= usize::MAX,
            first == user_palette@[0],
            second == user_palette@[1],
            pixels@ == before + image_bytes(counts@.take(k as int), palette, first, second),
            forall|i: int|
                0 <= i < 256 ==> (#[trigger] table@[i])@ == palette_rgb(
                    i as nat,
                    palette,
                    first,
                    second,
                ),
        decreases counts.len() - k,
    {
        let count = counts[k];
        let slot: usize = if count >= MAX_ITERATIONS {
            255
        } else {
            count as usize
        };
        let rgb = table[slot];
        let ghost so_far = pixels@;
        proof {
            assert(rgb@ == palette_rgb(count as nat, palette, first, second));
            lemma_image_bytes_push(counts@.take(k as int), count, palette, first, second);
            assert(counts@.take(k as int).push(count) =~= counts@.take(k + 1));
        }
        pixels.push(rgb[0]);
        pixels.push(rgb[1]);
        pixels.push(rgb[2]);
        assert(pixels@ =~= so_far + rgb@);
        k = k + 1;
    }
    assert(counts@.take(k as int) =~= counts@);
}

/// Colours a grid of iteration counts.
///
/// `counts` holds one count per point, row by row. The result holds the
/// colour of each, three bytes per point in the same order.
pub fn paint(
    width: usize,
    height: usize,
    counts: &[u32],
    palette: Palette,
    user_palette: &[(u8, u8, u8); 2],
) -> (r: Result<Vec<u8>, RenderError>)
    ensures
        painted(width, height, counts@, palette, user_palette@[0], user_palette@[1], r),
        r matches Ok(pixels) ==> pixels@.len() == width * height * 3,
{
    let len = match buffer_len(width, height) {
        Ok(len) => len,
        Err(e) => {
            return Err(e);
        },
    };
    if counts.len() != len / 3 {
        return Err(RenderError::CountMismatch);
    }
    let mut pixels: Vec<u8> = Vec::new();
    if !reserve(&mut pixels, len) {
        return Err(RenderError::OutOfMemory);
    }
    append_colors(&mut pixels, counts, palette, user_palette);
    assert(pixels@ =~= image_bytes(counts@, palette, user_palette@[0], user_palette@[1]));
    Ok(pixels)
}

/// A painted image has exactly three bytes for each of its `width * height`
/// points.
pub proof fn lemma_painted_len(
    width: usize,
    height: usize,
    counts: Seq<u32>,
    palette: Palette,
    first: (u8, u8, u8),
    second: (u8, u8, u8),
    r: Result<Vec<u8>, RenderError>,
)
    requires
        painted(width, height, counts, palette, first, second, r),
    ensures
        r matches Ok(pixels) ==> pixels@.len() == width * height * 3,
{
}

/// Painting is a function of its inputs: unless memory ran out for one of
/// them, two results for the same counts, palette and gradient are the same
/// error or the same bytes.
pub proof fn lemma_paint_is_deterministic(
    width: usize,
    height: usize,
    counts: Seq<u32>,
    palette: Palette,
    first: (u8, u8, u8),
    second: (u8, u8, u8),
    a: Result<Vec<u8>, RenderError>,
    b: Result<Vec<u8>, RenderError>,
)
    requires
        painted(width, height, counts, palette, first, second, a),
        painted(width, height, counts, palette, first, second, b),
        a != Err::<Vec<u8>, RenderError>(RenderError::OutOfMemory),
        b != Err::<Vec<u8>, RenderError>(RenderError::OutOfMemory),
    ensures
        match (a, b) {
            (Ok(x), Ok(y)) => x@ == y@,
            (Err(e), Err(f)) => e == f,
            _ => false,
        },
{
}

/// Row-major layout: the point `(x, y)` has its count at `y * width + x` and
/// its three channels in the three bytes from `(y * width + x) * 3`.
pub proof fn lemma_pixel_layout(
    width: usize,
    height: usize,
    counts: Seq<u32>,
    palette: Palette,
    first: (u8, u8, u8),
    second: (u8, u8, u8),
    x: usize,
    y: usize,
    channel: int,
)
    requires
        counts.len() == width * height,
        x < width,
        y < height,
        0 <= channel < 3,
    ensures
        0 <= y * width + x < counts.len(),
        image_bytes(counts, palette, first, second)[(y * width + x) * 3 + channel] == palette_rgb(
            counts[y * width + x] as nat,
            palette,
            first,
            second,
        )[channel],
{
    assert(y * width + x < width * height) by (nonlinear_arith)
        requires
            x < width,
            y < height,
    ;
}

/// A point whose count reached 255 is black in the image, whatever the
/// palette and gradient.
pub proof fn lemma_interior_pixels_are_black(
    counts: Seq<u32>,
    palette: Palette,
    first: (u8, u8, u8),
    second: (u8, u8, u8),
    p: int,
)
    requires
        0 <= p < counts.len(),
        counts[p] >= MAX_ITERATIONS,
    ensures
        image_bytes(counts, palette, first, second)[3 * p] == 0,
        image_bytes(counts, palette, first, second)[3 * p + 1] == 0,
        image_bytes(counts, palette, first, second)[3 * p + 2] == 0,
{
}

/// The point of the plane sampled at `index` of `count` steps from `lo`
/// towards `hi`: `lo + index / count * (hi - lo)`. Index 0 is `lo` itself and
/// `hi` is never reached.
pub open spec fn sample(lo: Number, hi: Number, index: nat, count: nat) -> Number {
    sum(lo, product(whole_ratio(index, count), difference(hi, lo)))
}

/// The squared distance of `z` from the origin.
pub open spec fn squared_size(zx: Number, zy: Number) -> Number {
    sum(product(zx, zx), product(zy, zy))
}

/// The real part of `z * z + c`.
pub open spec fn next_re(zx: Number, zy: Number, cx: Number) -> Number {
    sum(difference(product(zx, zx), product(zy, zy)), cx)
}

/// The imaginary part of `z * z + c`.
pub open spec fn next_im(zx: Number, zy: Number, cy: Number) -> Number {
    sum(product(product(whole(2), zx), zy), cy)
}

/// The iteration count of an orbit that has taken `done` steps and stands at
/// `z`: it stops at the first `z` whose squared distance from the origin is
/// not below 4, or after 255 steps.
pub open spec fn escape_steps(zx: Number, zy: Number, cx: Number, cy: Number, done: nat) -> nat
    decreases 255 - done,
{
    if done >= 255 || !less(squared_size(zx, zy), whole(4)) {
        done
    } else {
        escape_steps(next_re(zx, zy, cx), next_im(zx, zy, cy), cx, cy, done + 1)
    }
}

/// The iteration count of a sample point. For the Mandelbrot set the orbit
/// starts at the origin and adds the sample point at each step; for a Julia
/// set it starts at the sample point and adds `param`.
pub open spec fn point_count(kind: FractalType, re: Number, im: Number, param: (Number, Number))
    -> nat {
    match kind {
        FractalType::Mandelbrot => escape_steps(whole(0), whole(0), re, im, 0),
        FractalType::Julia => escape_steps(re, im, param.0, param.1, 0),
    }
}

/// The iteration count of the point `(x, y)` of a `width` by `height` grid
/// over `view`.
pub open spec fn pixel_count(
    width: nat,
    height: nat,
    view: ViewRect,
    kind: FractalType,
    param: (Double, Double),
    x: nat,
    y: nat,
) -> nat {
    point_count(
        kind,
        sample(view.min_x@, view.max_x@, x, width),
        sample(view.min_y@, view.max_y@, y, height),
        (param.0@, param.1@),
    )
}

/// The iteration counts of a whole grid, row by row.
pub open spec fn count_grid(
    width: nat,
    height: nat,
    view: ViewRect,
    kind: FractalType,
    param: (Double, Double),
) -> Seq<u32> {
    Seq::new(
        width * height,
        |p: int|
            pixel_count(
                width,
                height,
                view,
                kind,
                param,
                (p % width as int) as nat,
                (p / width as int) as nat,
            ) as u32,
    )
}

/// What `evaluate` returns: the colours of the grid's counts, or the reason
/// there are none. Memory can run out on any grid; the other errors come
/// exactly when `dimension_error` names them.
pub open spec fn evaluated(
    width: usize,
    height: usize,
    view: ViewRect,
    kind: FractalType,
    param: (Double, Double),
    palette: Palette,
    first: (u8, u8, u8),
    second: (u8, u8, u8),
    r: Result<Vec<u8>, RenderError>,
) -> bool {
    match r {
        Ok(pixels) => {
            &&& dimension_error(width, height).is_none()
            &&& pixels@ == image_bytes(
                count_grid(width as nat, height as nat, view, kind, param),
                palette,
                first,
                second,
            )
        },
        Err(RenderError::OutOfMemory) => dimension_error(width, height).is_none(),
        Err(e) => dimension_error(width, height) == Some(e),
    }
}

/// An iteration count never exceeds 255 and never falls below the steps
/// already taken.
pub proof fn lemma_escape_steps_bounded(zx: Number, zy: Number, cx: Number, cy: Number, done: nat)
    requires
        done <= 255,
    ensures
        done <= escape_steps(zx, zy, cx, cy, done) <= 255,
    decreases 255 - done,
{
    if done >= 255 || !less(squared_size(zx, zy), whole(4)) {
    } else {
        lemma_escape_steps_bounded(next_re(zx, zy, cx), next_im(zx, zy, cy), cx, cy, done + 1);
    }
}

/// Runs an orbit from `z` and counts its steps.
fn escape(zx: Unpacked, zy: Unpacked, cx: Unpacked, cy: Unpacked) -> (count: u32)
    requires
        zx.wf(),
        zy.wf(),
        cx.wf(),
        cy.wf(),
    ensures
        count == escape_steps(zx@, zy@, cx@, cy@, 0),
        count <= MAX_ITERATIONS,
{
    let four = Unpacked::from_whole(4);
    let two = Unpacked::from_whole(2);
    proof {
        lemma_whole_is_exact(4);
        lemma_whole_is_exact(2);
        four.lemma_view();
        two.lemma_view();
    }
    let mut x = zx;
    let mut y = zy;
    let mut count: u32 = 0;
    while count < MAX_ITERATIONS
        invariant
            count <= MAX_ITERATIONS,
            x.wf(),
            y.wf(),
            cx.wf(),
            cy.wf(),
            four.wf(),
            two.wf(),
            four@ == whole(4),
            two@ == whole(2),
            escape_steps(zx@, zy@, cx@, cy@, 0) == escape_steps(x@, y@, cx@, cy@, count as nat),
        ensures
            count <= MAX_ITERATIONS,
            count == escape_steps(zx@, zy@, cx@, cy@, 0),
        decreases MAX_ITERATIONS - count,
    {
        let xx = x.times(x);
        let yy = y.times(y);
        if !xx.plus(yy).is_less(four) {
            break ;
        }
        let re = xx.minus(yy).plus(cx);
        y = two.times(x).times(y).plus(cy);
        x = re;
        count = count + 1;
    }
    count
}

/// The iteration count of one point of the plane.
pub fn iteration_count(kind: FractalType, point: (Double, Double), param: (Double, Double)) -> (count:
    u32)
    ensures
        count == point_count(kind, point.0@, point.1@, (param.0@, param.1@)),
        count <= MAX_ITERATIONS,
{
    let re = Unpacked::from_bits(point.0.bits);
    let im = Unpacked::from_bits(point.1.bits);
    match kind {
        FractalType::Mandelbrot => {
            let zero = Unpacked::zero();
            proof {
                assert(0nat * crate::double::one() == 0);
            }
            escape(zero, zero, re, im)
        },
        FractalType::Julia => escape(
            re,
            im,
            Unpacked::from_bits(param.0.bits),
            Unpacked::from_bits(param.1.bits),
        ),
    }
}

/// The sample point at `index` of `count` steps from `lo` towards `hi`.
fn sample_at(lo: Unpacked, span: Unpacked, index: usize, count: usize) -> (point: Unpacked)
    requires
        lo.wf(),
        span.wf(),
        count > 0,
    ensures
        point.wf(),
        point@ == sum(lo@, product(whole_ratio(index as nat, count as nat), span@)),
{
    lo.plus(Unpacked::ratio_of_wholes(index as u64, count as u64).times(span))
}

/// Appends the iteration counts of a `width` by `height` grid over `view` to
/// `counts`, row by row.
pub fn append_counts(
    counts: &mut Vec<u32>,
    width: usize,
    height: usize,
    view: ViewRect,
    kind: FractalType,
    param: (Double, Double),
)
    requires
        old(counts)@.len() + width * height <= usize::MAX,
    ensures
        final(counts)@ == old(counts)@ + count_grid(
            width as nat,
            height as nat,
            view,
            kind,
            param,
        ),
{
    let ghost before = counts@;
    let ghost grid = count_grid(width as nat, height as nat, view, kind, param);
    let min_x = Unpacked::from_bits(view.min_x.bits);
    let min_y = Unpacked::from_bits(view.min_y.bits);
    let span_x = Unpacked::from_bits(view.max_x.bits).minus(min_x);
    let span_y = Unpacked::from_bits(view.max_y.bits).minus(min_y);
    let cx = Unpacked::from_bits(param.0.bits);
    let cy = Unpacked::from_bits(param.1.bits);
    let zero = Unpacked::zero();
    proof {
        assert(0nat * crate::double::one() == 0);
    }
    let mut y: usize = 0;
    assert(grid.take(0) =~= Seq::<u32>::empty());
    assert(counts@ =~= before + grid.take(0));
    while y < height
        invariant
            y <= height,
            before.len() + width * height <= usize::MAX,
            grid == count_grid(width as nat, height as nat, view, kind, param),
            grid.len() == width * height,
            y * width <= width * height,
            counts@ == before + grid.take(y * width),
            min_x.wf(),
            min_y.wf(),
            span_x.wf(),
            span_y.wf(),
            cx.wf(),
            cy.wf(),
            zero.wf(),
            min_x@ == view.min_x@,
            min_y@ == view.min_y@,
            span_x@ == difference(view.max_x@, view.min_x@),
            span_y@ == difference(view.max_y@, view.min_y@),
            cx@ == param.0@,
            cy@ == param.1@,
            zero@ == whole(0),
        decreases height - y,
    {
        let im = sample_at(min_y, span_y, y, height);
        let mut x: usize = 0;
        while x < width
            invariant
                x <= width,
                y < height,
                before.len() + width * height <= usize::MAX,
                grid == count_grid(width as nat, height as nat, view, kind, param),
                grid.len() == width * height,
                y * width + x <= width * height,
                counts@ == before + grid.take(y * width + x),
                min_x.wf(),
                span_x.wf(),
                im.wf(),
                cx.wf(),
                cy.wf(),
                zero.wf(),
                min_x@ == view.min_x@,
                span_x@ == difference(view.max_x@, view.min_x@),
                im@ == sample(view.min_y@, view.max_y@, y as nat, height as nat),
                cx@ == param.0@,
                cy@ == param.1@,
                zero@ == whole(0),
            decreases width - x,
        {
            let re = sample_at(min_x, span_x, x, width);
            let count = match kind {
                FractalType::Mandelbrot => escape(zero, zero, re, im),
                FractalType::Julia => escape(re, im, cx, cy),
            };
            proof {
                let p = y * width + x;
                vstd::arithmetic::div_mod::lemma_fundamental_div_mod_converse(
                    p as int,
                    width as int,
                    y as int,
                    x as int,
                );
                vstd::arithmetic::mul::lemma_mul_is_commutative(y as int, width as int);
                assert(y * width + x < width * height) by (nonlinear_arith)
                    requires
                        x < width,
                        y < height,
                ;
                assert(p % width as int == x && p / width as int == y);
                assert(grid[p as int] == pixel_count(
                    width as nat,
                    height as nat,
                    view,
                    kind,
                    param,
                    x as nat,
                    y as nat,
                ) as u32);
                assert(grid[p as int] == count);
                assert(grid.take(p as int).push(count) =~= grid.take(p + 1));
            }
            let ghost so_far = counts@;
            counts.push(count);
            assert(counts@ =~= so_far.push(count));
            x = x + 1;
        }
        proof {
            assert((y + 1) * width == y * width + width) by (nonlinear_arith);
        }
        y = y + 1;
    }
    proof {
        vstd::arithmetic::mul::lemma_mul_is_commutative(height as int, width as int);
        assert(grid.take(y * width) =~= grid);
    }
}

/// Renders the image of `kind` over `view`.
///
/// `param` is the constant of a Julia set; the Mandelbrot set does not use
/// it. `user_palette` holds the two ends of the gradient of
/// `Palette::UserDefined`. The image fails only by its dimensions: when one
/// is zero, when the buffer's length would not fit in a `usize`, or when
/// there is no memory for it.
pub fn evaluate(
    width: usize,
    height: usize,
    view: ViewRect,
    kind: FractalType,
    param: (Double, Double),
    palette: Palette,
    user_palette: &[(u8, u8, u8); 2],
) -> (r: Result<Vec<u8>, RenderError>)
    ensures
        evaluated(
            width,
            height,
            view,
            kind,
            param,
            palette,
            user_palette@[0],
            user_palette@[1],
            r,
        ),
        r matches Ok(pixels) ==> pixels@.len() == width * height * 3,
{
    let len = match buffer_len(width, height) {
        Ok(len) => len,
        Err(e) => {
            return Err(e);
        },
    };
    let mut counts: Vec<u32> = Vec::new();
    if !reserve(&mut counts, len / 3) {
        return Err(RenderError::OutOfMemory);
    }
    append_counts(&mut counts, width, height, view, kind, param);
    assert(counts@ =~= count_grid(width as nat, height as nat, view, kind, param));
    paint(width, height, counts.as_slice(), palette, user_palette)
}

/// Renders the Mandelbrot set over `view`.
pub fn render_mandelbrot(
    width: usize,
    height: usize,
    view: ViewRect,
    palette: Palette,
    user_palette: &[(u8, u8, u8); 2],
) -> (r: Result<Vec<u8>, RenderError>)
    ensures
        evaluated(
            width,
            height,
            view,
            FractalType::Mandelbrot,
            (Double { bits: 0 }, Double { bits: 0 }),
            palette,
            user_palette@[0],
            user_palette@[1],
            r,
        ),
        r matches Ok(pixels) ==> pixels@.len() == width * height * 3,
{
    let origin = Double { bits: 0 };
    evaluate(width, height, view, FractalType::Mandelbrot, (origin, origin), palette, user_palette)
}

/// Renders the Julia set of the constant `c` over `view`.
pub fn render_julia(
    width: usize,
    height: usize,
    view: ViewRect,
    palette: Palette,
    user_palette: &[(u8, u8, u8); 2],
    c: (Double, Double),
) -> (r: Result<Vec<u8>, RenderError>)
    ensures
        evaluated(
            width,
            height,
            view,
            FractalType::Julia,
            c,
            palette,
            user_palette@[0],
            user_palette@[1],
            r,
        ),
        r matches Ok(pixels) ==> pixels@.len() == width * height * 3,
{
    evaluate(width, height, view, FractalType::Julia, c, palette, user_palette)
}

/// Renders a favourite: its view, in its palette, for its kind of fractal.
pub fn render_favorite(
    width: usize,
    height: usize,
    favorite: &FavoriteSetting,
    user_palette: &[(u8, u8, u8); 2],
) -> (r: Result<Vec<u8>, RenderError>)
    ensures
        evaluated(
            width,
            height,
            favorite.view,
            favorite.fractal_type,
            favorite.julia_param,
            favorite.palette,
            user_palette@[0],
            user_palette@[1],
            r,
        ),
        r matches Ok(pixels) ==> pixels@.len() == width * height * 3,
{
    evaluate(
        width,
        height,
        favorite.view,
        favorite.fractal_type,
        favorite.julia_param,
        favorite.palette,
        user_palette,
    )
}

/// An image has exactly three bytes for each of its `width * height` points.
pub proof fn lemma_evaluated_len(
    width: usize,
    height: usize,
    view: ViewRect,
    kind: FractalType,
    param: (Double, Double),
    palette: Palette,
    first: (u8, u8, u8),
    second: (u8, u8, u8),
    r: Result<Vec<u8>, RenderError>,
)
    requires
        evaluated(width, height, view, kind, param, palette, first, second, r),
    ensures
        r matches Ok(pixels) ==> pixels@.len() == width * height * 3,
{
}

/// Rendering is a function of its inputs: unless memory ran out for one of
/// them, two results for the same inputs are the same error or the same bytes.
pub proof fn lemma_evaluate_is_deterministic(
    width: usize,
    height: usize,
    view: ViewRect,
    kind: FractalType,
    param: (Double, Double),
    palette: Palette,
    first: (u8, u8, u8),
    second: (u8, u8, u8),
    a: Result<Vec<u8>, RenderError>,
    b: Result<Vec<u8>, RenderError>,
)
    requires
        evaluated(width, height, view, kind, param, palette, first, second, a),
        evaluated(width, height, view, kind, param, palette, first, second, b),
        a != Err::<Vec<u8>, RenderError>(RenderError::OutOfMemory),
        b != Err::<Vec<u8>, RenderError>(RenderError::OutOfMemory),
    ensures
        match (a, b) {
            (Ok(x), Ok(y)) => x@ == y@,
            (Err(e), Err(f)) => e == f,
            _ => false,
        },
{
}

/// The Mandelbrot set does not depend on the Julia constant.
pub proof fn lemma_mandelbrot_ignores_param(
    width: nat,
    height: nat,
    view: ViewRect,
    param: (Double, Double),
    other: (Double, Double),
)
    ensures
        count_grid(width, height, view, FractalType::Mandelbrot, param) == count_grid(
            width,
            height,
            view,
            FractalType::Mandelbrot,
            other,
        ),
{
    assert(count_grid(width, height, view, FractalType::Mandelbrot, param) =~= count_grid(
        width,
        height,
        view,
        FractalType::Mandelbrot,
        other,
    ));
}

/// In a rendered image, a point whose orbit stayed inside for all 255 steps
/// is black, whatever the palette and gradient.
pub proof fn lemma_interior_points_are_black(
    width: usize,
    height: usize,
    view: ViewRect,
    kind: FractalType,
    param: (Double, Double),
    palette: Palette,
    first: (u8, u8, u8),
    second: (u8, u8, u8),
    pixels: Vec<u8>,
    x: usize,
    y: usize,
)
    requires
        evaluated(width, height, view, kind, param, palette, first, second, Ok(pixels)),
        x < width,
        y < height,
        pixel_count(width as nat, height as nat, view, kind, param, x as nat, y as nat) == 255,
    ensures
        (y * width + x) * 3 + 2 < pixels@.len(),
        pixels@[(y * width + x) * 3] == 0,
        pixels@[(y * width + x) * 3 + 1] == 0,
        pixels@[(y * width + x) * 3 + 2] == 0,
{
    let grid = count_grid(width as nat, height as nat, view, kind, param);
    let p = y * width + x;
    assert(p < width * height) by (nonlinear_arith)
        requires
            p == y * width + x,
            x < width,
            y < height,
    ;
    vstd::arithmetic::div_mod::lemma_fundamental_div_mod_converse(
        p as int,
        width as int,
        y as int,
        x as int,
    );
    vstd::arithmetic::mul::lemma_mul_is_commutative(y as int, width as int);
    assert(grid[p as int] == 255);
    lemma_interior_pixels_are_black(grid, palette, first, second, p as int);
    assert((y * width + x) * 3 == 3 * p) by (nonlinear_arith)
        requires
            p == y * width + x,
    ;
}

/// The first sample along an axis is the low bound itself, provided the
/// extent of the axis is finite: the point `(0, 0)` of an image is the
/// minimum corner of its view.
pub proof fn lemma_first_sample_is_low_bound(lo: Double, hi: Double, count: nat)
    requires
        0 < count < 0x1_0000_0000_0000_0000,
        lo@ is Finite,
        difference(hi@, lo@) is Finite,
    ensures
        sample(lo@, hi@, 0, count) == lo@,
{
    lemma_nearest_zero_ratio(count);
    let span = difference(hi@, lo@);
    assert(product(whole(0), span) == whole(0)) by {
        vstd::arithmetic::power2::lemma_pow2_pos(1074);
        vstd::arithmetic::power2::lemma_pow2_pos(2098);
        assert(0nat * crate::double::one() == 0);
        crate::rounding::lemma_nearest_zero(crate::double::one(), 53);
        assert(0nat * crate::double::magnitude(span->units) == 0);
    }
    lemma_encoded_sum_with_zero(lo.bits);
}

/// The Mandelbrot orbit of a sample starts at the origin, which is inside the
/// disc: its first step always happens and lands on the sample itself. So a
/// Mandelbrot count is at least 1, and it is the count of the orbit that
/// starts at the sample with one step taken.
pub proof fn lemma_mandelbrot_takes_first_step(re: Double, im: Double, param: (Number, Number))
    ensures
        point_count(FractalType::Mandelbrot, re@, im@, param) == escape_steps(
            re@,
            im@,
            re@,
            im@,
            1,
        ),
        point_count(FractalType::Mandelbrot, re@, im@, param) >= 1,
{
    let zero = whole(0);
    vstd::arithmetic::power2::lemma_pow2_pos(1074);
    vstd::arithmetic::power2::lemma_pow2_pos(2098);
    assert(0nat * crate::double::one() == 0);
    assert(0nat * 0nat == 0);
    crate::rounding::lemma_nearest_zero(crate::double::one(), 53);
    crate::rounding::lemma_nearest_zero(1, 53);
    assert(product(zero, zero) == zero);
    assert(product(whole(2), zero) == zero) by {
        assert((2 * crate::double::one()) * 0nat == 0);
    }
    assert(sum(zero, zero) == zero);
    assert(difference(zero, zero) == zero);
    assert(less(zero, whole(4))) by {
        assert(4 * crate::double::one() > 0);
    }
    lemma_encoded_sum_with_zero(re.bits);
    lemma_encoded_sum_with_zero(im.bits);
    assert(next_re(zero, zero, re@) == re@);
    assert(next_im(zero, zero, im@) == im@);
    lemma_escape_steps_bounded(re@, im@, re@, im@, 1);
}

/// With the constant zero the recurrence adds nothing: each step squares.
pub proof fn lemma_zero_constant_squares(zx: Number, zy: Number)
    ensures
        next_re(zx, zy, whole(0)) == difference(product(zx, zx), product(zy, zy)),
        next_im(zx, zy, whole(0)) == product(product(whole(2), zx), zy),
{
    lemma_results_absorb_zero(product(zx, zx), negated(product(zy, zy)));
    lemma_results_absorb_zero(product(whole(2), zx), zy);
}

} // verus!
