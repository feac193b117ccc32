use crate::raster::Image;
use vstd::prelude::*;

verus! {

/// The quotient of `lhs` by `rhs`, rounded towards positive infinity.
pub open spec fn ceil_div(lhs: int, rhs: int) -> int {
    if lhs % rhs > 0 {
        lhs / rhs + 1
    } else {
        lhs / rhs
    }
}

/// The rounded-up quotient is the least number of steps of length `rhs`
/// that reach `lhs`.
pub proof fn lemma_ceil_div(lhs: int, rhs: int)
    requires
        0 <= lhs,
        0 < rhs,
    ensures
        ceil_div(lhs, rhs) * rhs >= lhs,
        (ceil_div(lhs, rhs) - 1) * rhs < lhs || lhs == 0,
        0 <= ceil_div(lhs, rhs) <= lhs,
{
    vstd::arithmetic::div_mod::lemma_fundamental_div_mod(lhs, rhs);
    vstd::arithmetic::div_mod::lemma_mod_bound(lhs, rhs);
    vstd::arithmetic::div_mod::lemma_div_pos_is_pos(lhs, rhs);
    let q = lhs / rhs;
    assert(rhs * q == q * rhs) by (nonlinear_arith);
    assert((q + 1) * rhs == q * rhs + rhs) by (nonlinear_arith);
    assert((q - 1) * rhs == q * rhs - rhs) by (nonlinear_arith);
    assert(q <= q * rhs) by (nonlinear_arith)
        requires
            0 <= q,
            1 <= rhs,
    ;
}

/// Calculates the quotient of `lhs` and `rhs`, rounding the result towards
/// positive infinity.
pub fn div_ceil(lhs: u32, rhs: u32) -> (res: u32)
    requires
        rhs > 0,
    ensures
        res == ceil_div(lhs as int, rhs as int),
{
    proof {
        lemma_ceil_div(lhs as int, rhs as int);
    }
    let d = lhs / rhs;
    let r = lhs % rhs;
    if r > 0 {
        d + 1
    } else {
        d
    }
}

/// Whether `side` is the whole part of the square root of
/// `width * height / superpixels`.
pub open spec fn is_grid_interval(side: int, width: int, height: int, superpixels: int) -> bool {
    &&& 0 <= side
    &&& side * side * superpixels <= width * height
    &&& width * height < (side + 1) * (side + 1) * superpixels
}

/// Calculates the superpixel side length, `S`, as a whole number.
///
/// `S * S` is the approximate size of each superpixel in pixels: `S` is the
/// whole part of the square root of `N / K`, where `N` is the number of
/// pixels and `K` is the number of desired superpixels.
pub fn calculate_grid_interval(width: u32, height: u32, superpixels: u32) -> (res: u32)
    requires
        superpixels > 0,
    ensures
        is_grid_interval(res as int, width as int, height as int, superpixels as int),
{
    assert(0 <= width * height < 0x1_0000_0000 * 0x1_0000_0000) by (nonlinear_arith)
        requires
            0 <= width < 0x1_0000_0000,
            0 <= height < 0x1_0000_0000,
    ;
    let pixels: u128 = (width as u128) * (height as u128);
    let k: u128 = superpixels as u128;
    // Invariant: low * low * k <= pixels < high * high * k.
    let mut low: u64 = 0;
    let mut high: u64 = 0x1_0000_0000;
    assert(pixels < high * high * k) by (nonlinear_arith)
        requires
            pixels < 0x1_0000_0000 * 0x1_0000_0000,
            high == 0x1_0000_0000,
            k >= 1,
    ;
    assert(low * low * k == 0) by (nonlinear_arith)
        requires
            low == 0,
    ;
    while high - low > 1
        invariant
            low < high <= 0x1_0000_0000,
            1 <= k < 0x1_0000_0000,
            low * low * k <= pixels,
            pixels < high * high * k,
        decreases high - low,
    {
        let middle: u64 = low + (high - low) / 2;
        assert(middle * middle < 0x1_0000_0000 * 0x1_0000_0000) by (nonlinear_arith)
            requires
                middle < 0x1_0000_0000,
        ;
        let square: u128 = (middle as u128) * (middle as u128);
        assert(square * k < 0x1_0000_0000 * 0x1_0000_0000 * 0x1_0000_0000) by (nonlinear_arith)
            requires
                square < 0x1_0000_0000 * 0x1_0000_0000,
                k < 0x1_0000_0000,
        ;
        if square * k <= pixels {
            low = middle;
        } else {
            high = middle;
        }
    }
    assert(high == low + 1);
    low as u32
}

/// The sum over the channels of the squared differences of two pixels.
pub open spec fn squared_distance(lhs: Seq<u8>, rhs: Seq<u8>, upto: int) -> int
    decreases upto,
{
    if upto <= 0 {
        0
    } else {
        squared_distance(lhs, rhs, upto - 1) + (lhs[upto - 1] - rhs[upto - 1]) * (lhs[upto - 1]
            - rhs[upto - 1])
    }
}

/// A squared distance is not negative and at most the square of 255 per
/// channel.
pub proof fn lemma_squared_distance_bounds(lhs: Seq<u8>, rhs: Seq<u8>, upto: int)
    requires
        0 <= upto,
    ensures
        0 <= squared_distance(lhs, rhs, upto) <= 65025 * upto,
    decreases upto,
{
    if upto > 0 {
        lemma_squared_distance_bounds(lhs, rhs, upto - 1);
        let d = lhs[upto - 1] - rhs[upto - 1];
        assert(0 <= d * d <= 65025) by (nonlinear_arith)
            requires
                -255 <= d <= 255,
        ;
    }
}

/// Calculates the distance between two pixels: the sum over the channels
/// of `lhs` of the squared differences.
pub fn distance_pixel(lhs: &[u8], rhs: &[u8]) -> (res: u128)
    requires
        lhs@.len() <= rhs@.len(),
    ensures
        res == squared_distance(lhs@, rhs@, lhs@.len() as int),
{
    let mut sum: u128 = 0;
    let mut i: usize = 0;
    while i < lhs.len()
        invariant
            i <= lhs@.len(),
            lhs@.len() <= rhs@.len(),
            sum == squared_distance(lhs@, rhs@, i as int),
        decreases lhs@.len() - i,
    {
        proof {
            lemma_squared_distance_bounds(lhs@, rhs@, i as int);
            lemma_squared_distance_bounds(lhs@, rhs@, i as int + 1);
        }
        let a = lhs[i];
        let b = rhs[i];
        let diff: u128 = if a >= b {
            (a - b) as u128
        } else {
            (b - a) as u128
        };
        assert(diff * diff == (a - b) * (a - b)) by (nonlinear_arith)
            requires
                diff == a - b || diff == b - a,
        ;
        assert(diff * diff <= 65025) by (nonlinear_arith)
            requires
                0 <= diff <= 255,
        ;
        sum = sum + diff * diff;
        i = i + 1;
    }
    sum
}

/// The squared distance between two points of the plane.
pub open spec fn squared_distance_xy(lhs: (int, int), rhs: (int, int)) -> int {
    (rhs.0 - lhs.0) * (rhs.0 - lhs.0) + (rhs.1 - lhs.1) * (rhs.1 - lhs.1)
}

/// Calculates the distance between two two-dimensional points.
pub fn distance_xy(lhs: (u32, u32), rhs: (u32, u32)) -> (res: u128)
    ensures
        res == squared_distance_xy((lhs.0 as int, lhs.1 as int), (rhs.0 as int, rhs.1 as int)),
{
    let dx: u128 = if rhs.0 >= lhs.0 {
        (rhs.0 - lhs.0) as u128
    } else {
        (lhs.0 - rhs.0) as u128
    };
    let dy: u128 = if rhs.1 >= lhs.1 {
        (rhs.1 - lhs.1) as u128
    } else {
        (lhs.1 - rhs.1) as u128
    };
    assert(dx * dx == (rhs.0 - lhs.0) * (rhs.0 - lhs.0)) by (nonlinear_arith)
        requires
            dx == rhs.0 - lhs.0 || dx == lhs.0 - rhs.0,
    ;
    assert(dy * dy == (rhs.1 - lhs.1) * (rhs.1 - lhs.1)) by (nonlinear_arith)
        requires
            dy == rhs.1 - lhs.1 || dy == lhs.1 - rhs.1,
    ;
    assert(dx * dx < 0x1_0000_0000 * 0x1_0000_0000) by (nonlinear_arith)
        requires
            0 <= dx < 0x1_0000_0000,
    ;
    assert(dy * dy < 0x1_0000_0000 * 0x1_0000_0000) by (nonlinear_arith)
        requires
            0 <= dy < 0x1_0000_0000,
    ;
    dx * dx + dy * dy
}

/// Calculates the superpixel scaling factor `(m / s)` squared, as the pair
/// of its numerator `m * m` and its denominator `s * s`.
pub fn m_div_s(m: u8, s: u32) -> (res: (u64, u64))
    ensures
        res.0 == m * m,
        res.1 == s * s,
{
    assert(m * m <= 65025) by (nonlinear_arith)
        requires
            0 <= m <= 255,
    ;
    assert(s * s < 0x1_0000_0000 * 0x1_0000_0000) by (nonlinear_arith)
        requires
            0 <= s < 0x1_0000_0000,
    ;
    ((m as u64) * (m as u64), (s as u64) * (s as u64))
}

/// The `s` distance `d_lab + (m / s)^2 * d_xy`, times `s * s`: with the
/// scaling factor given as the pair of its numerator and denominator, this
/// is `denominator * d_lab + numerator * d_xy`.
pub open spec fn scaled_distance(factor: (int, int), d_lab: int, d_xy: int) -> int {
    factor.1 * d_lab + factor.0 * d_xy
}

/// Calculates the `s` distance, times the denominator of the scaling
/// factor. Returns nothing where that does not fit the result.
pub fn distance_s(m_div_s: (u64, u64), d_lab: u128, d_xy: u128) -> (res: Option<u128>)
    ensures
        res.is_some() <==> scaled_distance(
            (m_div_s.0 as int, m_div_s.1 as int),
            d_lab as int,
            d_xy as int,
        ) <= u128::MAX,
        res.is_some() ==> res.unwrap() == scaled_distance(
            (m_div_s.0 as int, m_div_s.1 as int),
            d_lab as int,
            d_xy as int,
        ),
{
    assert(0 <= m_div_s.1 * d_lab) by (nonlinear_arith)
        requires
            0 <= m_div_s.1,
            0 <= d_lab,
    ;
    assert(0 <= m_div_s.0 * d_xy) by (nonlinear_arith)
        requires
            0 <= m_div_s.0,
            0 <= d_xy,
    ;
    match (m_div_s.1 as u128).checked_mul(d_lab) {
        None => None,
        Some(colour) => match (m_div_s.0 as u128).checked_mul(d_xy) {
            None => None,
            Some(place) => colour.checked_add(place),
        },
    }
}

/// The pixel in row `y`, column `x` of an image: its channels in order.
pub open spec fn pixel_at(image: Image, y: int, x: int) -> Seq<u8> {
    Seq::new(image.spec_channels(), |c: int| image.at(y, x, c))
}

/// The pixel in row `y`, column `x`: its channels in order.
pub fn read_pixel(image: &Image, y: usize, x: usize) -> (res: Vec<u8>)
    requires
        y < image.spec_height(),
        x < image.spec_width(),
    ensures
        res@ == pixel_at(*image, y as int, x as int),
{
    let (height, width, channels) = image.dim();
    let mut pixel: Vec<u8> = Vec::new();
    let mut c: usize = 0;
    while c < channels
        invariant
            c <= channels,
            channels == image.spec_channels(),
            y < image.spec_height(),
            x < image.spec_width(),
            pixel@ == Seq::new(c as nat, |d: int| image.at(y as int, x as int, d)),
        decreases channels - c,
    {
        pixel.push(image.get(y, x, c));
        proof {
            assert(pixel@ =~= Seq::new((c + 1) as nat, |d: int| image.at(y as int, x as int, d)));
        }
        c = c + 1;
    }
    pixel
}

/// Checks if the index is in bounds and returns the pixel data at that
/// point if it exists.
pub fn get_pixel(x: i32, y: i32, image: &Image) -> (res: Option<Vec<u8>>)
    ensures
        res.is_some() <==> 0 <= y < image.spec_height() && 0 <= x < image.spec_width(),
        res.is_some() ==> res.unwrap()@ == pixel_at(*image, y as int, x as int),
{
    let (height, width, channels) = image.dim();
    if 0 <= y && (y as usize) < height && 0 <= x && (x as usize) < width {
        Some(read_pixel(image, y as usize, x as usize))
    } else {
        None
    }
}

/// Whether `(x, y)` names a cell of a `width` by `height` grid.
pub open spec fn in_grid(width: int, height: int, x: int, y: int) -> bool {
    0 <= x < width && 0 <= y < height
}

/// The row-major position of cell `(x, y)` in a grid of the given width.
pub open spec fn grid_index(width: int, x: int, y: int) -> int {
    y * width + x
}

/// Whether cell `(x, y)` lies inside the grid and has a place in a buffer of
/// `len` cells.
pub open spec fn cell_present(width: int, height: int, x: int, y: int, len: int) -> bool {
    in_grid(width, height, x, y) && grid_index(width, x, y) < len
}

/// The row-major position of an in-grid cell, when it fits the machine word
/// and the buffer.
fn cell_position(width: i64, height: i64, x: i64, y: i64, len: usize) -> (res: Option<usize>)
    ensures
        res.is_some() <==> cell_present(width as int, height as int, x as int, y as int, len as int),
        res.is_some() ==> res.unwrap() == grid_index(width as int, x as int, y as int),
{
    if 0 <= x && x < width && 0 <= y && y < height {
        let row: u64 = y as u64;
        let w: u64 = width as u64;
        let col: u64 = x as u64;
        assert(row * w >= 0) by (nonlinear_arith)
            requires
                row >= 0,
                w >= 0,
        ;
        match row.checked_mul(w) {
            None => None,
            Some(base) => match base.checked_add(col) {
                None => None,
                Some(i) => if i < len as u64 {
                    Some(i as usize)
                } else {
                    None
                },
            },
        }
    } else {
        None
    }
}

/// Looks up cell `(x, y)` of a row-major grid stored in `image`.
///
/// Returns the cell when the coordinates lie inside the grid and the
/// row-major position exists in `image`, and `None` otherwise.
pub fn get_in_bounds<T>(width: i64, height: i64, x: i64, y: i64, image: &[T]) -> (res: Option<&T>)
    ensures
        res.is_some() <==> cell_present(
            width as int,
            height as int,
            x as int,
            y as int,
            image@.len() as int,
        ),
        res.is_some() ==> *res.unwrap() == image@[grid_index(width as int, x as int, y as int)],
{
    match cell_position(width, height, x, y, image.len()) {
        Some(i) => Some(&image[i]),
        None => None,
    }
}

/// Looks up cell `(x, y)` of a row-major grid stored in `image`, for writing.
///
/// Returns the cell when the coordinates lie inside the grid and the
/// row-major position exists in `image`, and `None` otherwise. Whatever the
/// caller writes through the returned reference lands at that position; no
/// other cell changes.
pub fn get_mut_in_bounds<T>(width: i64, height: i64, x: i64, y: i64, image: &mut [T]) -> (res:
    Option<&mut T>)
    ensures
        res.is_some() <==> cell_present(
            width as int,
            height as int,
            x as int,
            y as int,
            old(image)@.len() as int,
        ),
        res.is_some() ==> *res.unwrap() == old(image)@[grid_index(
            width as int,
            x as int,
            y as int,
        )],
        res.is_some() ==> final(image)@ == old(image)@.update(
            grid_index(width as int, x as int, y as int),
            *final(res.unwrap()),
        ),
        res.is_none() ==> final(image)@ == old(image)@,
{
    match cell_position(width, height, x, y, image.len()) {
        Some(i) => Some(&mut image[i]),
        None => None,
    }
}

} // verus!
