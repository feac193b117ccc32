use crate::raster::{image_cells, Image};
use crate::slic_helpers::{
    ceil_div, distance_pixel, div_ceil, lemma_ceil_div, lemma_squared_distance_bounds, pixel_at,
    read_pixel, squared_distance,
};
use vstd::prelude::*;

verus! {

/// A superpixel centre: the pixel values at the centre and its column and
/// row.
pub struct Superpixel {
    pub data: Vec<u8>,
    pub x: u32,
    pub y: u32,
}

/// A superpixel centre as plain values.
pub struct Centre {
    pub data: Seq<u8>,
    pub x: int,
    pub y: int,
}

impl View for Superpixel {
    type V = Centre;

    open spec fn view(&self) -> Centre {
        Centre { data: self.data@, x: self.x as int, y: self.y as int }
    }
}

/// Why seeds could not be placed.
#[derive(Clone, Copy, Debug, PartialEq, Eq, Structural)]
pub enum SeedError {
    /// The image has no pixels.
    InvalidSeedCount,
    /// The number of seeds does not fit a vector's length.
    InvalidTotalSeeds,
    /// Room for the seeds could not be reserved.
    Allocation,
    /// The calmest pixel around a seed lies in a column or row whose number
    /// does not fit the 32 bits of a seed's place.
    PerturbConversion,
}

/// The seed counts per row and per column after the trimming that brings
/// their product down to `limit`: both are lowered by one as long as the
/// product exceeds it.
pub open spec fn trimmed(across: int, down: int, limit: int) -> (int, int)
    decreases across,
{
    if across > 0 && down > 0 && across * down > limit {
        trimmed(across - 1, down - 1, limit)
    } else {
        (across, down)
    }
}

/// The number of whole steps of length `s` that fit into `extent`, which
/// is the rounded-up quotient unless that overshoots.
pub open spec fn steps_within(extent: int, s: int) -> int {
    if s * ceil_div(extent, s) > extent {
        ceil_div(extent, s) - 1
    } else {
        ceil_div(extent, s)
    }
}

/// A seed count, which is at least one.
pub open spec fn at_least_one(count: int) -> int {
    if count <= 0 {
        1
    } else {
        count
    }
}

/// The layout of the seeds of an image of `width` by `height` pixels with
/// grid interval `s`: the numbers of seeds per row (`across`) and per
/// column (`down`).
pub struct SeedGrid {
    pub s: int,
    pub width: int,
    pub height: int,
    pub across: int,
    pub down: int,
}

/// The seed grid for an image, a grid interval and a limit on the number of
/// seeds.
pub open spec fn seed_grid(width: int, height: int, s: int, k: int) -> SeedGrid {
    let counts = trimmed(steps_within(width, s), steps_within(height, s), k);
    SeedGrid {
        s,
        width,
        height,
        across: at_least_one(counts.0),
        down: at_least_one(counts.1),
    }
}

/// Half a grid interval, rounded up.
pub open spec fn half_interval(s: int) -> int {
    (s + 1) / 2
}

/// The place on an axis of `extent` pixels that is nearest to `place`: a
/// place before the axis goes to its first pixel, one behind it to its
/// last.
pub open spec fn clipped(place: int, extent: int) -> int {
    if place < 0 {
        0
    } else if place >= extent {
        extent - 1
    } else {
        place
    }
}

/// Where a seed lies along an axis: `index` grid intervals, plus half an
/// interval, plus `spread` times the share of each seed in what the seeds
/// leave of the axis, rounded down; all of it clipped into the axis.
pub open spec fn seed_coordinate(index: int, spread: int, s: int, extent: int, count: int) -> int {
    clipped(index * s + half_interval(s) + (spread * (extent - count * s)) / count, extent)
}

impl SeedGrid {
    /// The column of the seed in grid row `i` and grid column `j`: its
    /// grid column gives the intervals, its grid row the spread.
    pub open spec fn x(self, i: int, j: int) -> int {
        seed_coordinate(j, i, self.s, self.width, self.across)
    }

    /// The row of the seed in grid row `i` and grid column `j`: its grid
    /// row gives the intervals, its grid column the spread.
    pub open spec fn y(self, i: int, j: int) -> int {
        seed_coordinate(i, j, self.s, self.height, self.down)
    }

    /// Whether the image, which has a place among `cells` cells, holds
    /// values for the seed in grid row `i` and grid column `j`: it does
    /// unless it has no channels.
    pub open spec fn inside(self, i: int, j: int, cells: int) -> bool {
        self.y(i, j) * self.width + self.x(i, j) < cells
    }

    /// The positions `(x, y)` of the seeds of grid row `i` among the first
    /// `upto` grid columns, from left to right; none where the image
    /// holds no values.
    pub open spec fn row(self, i: int, upto: int, cells: int) -> Seq<(int, int)>
        decreases upto,
    {
        if upto <= 0 {
            Seq::empty()
        } else if self.inside(i, upto - 1, cells) {
            self.row(i, upto - 1, cells).push((self.x(i, upto - 1), self.y(i, upto - 1)))
        } else {
            self.row(i, upto - 1, cells)
        }
    }

    /// The positions `(x, y)` of the seeds of the first `upto` grid rows,
    /// row by row; none where the image holds no values.
    pub open spec fn rows(self, upto: int, cells: int) -> Seq<(int, int)>
        decreases upto,
    {
        if upto <= 0 {
            Seq::empty()
        } else {
            self.rows(upto - 1, cells) + self.row(upto - 1, self.across, cells)
        }
    }
}

/// Whether the seeds lie at the given positions, in order, each holding
/// the pixel of the image at its position.
pub open spec fn seeds_at(seeds: Seq<Superpixel>, image: Image, positions: Seq<(int, int)>) -> bool {
    &&& seeds.len() == positions.len()
    &&& forall|t: int|
        0 <= t < seeds.len() ==> {
            &&& (#[trigger] seeds[t]).x == positions[t].0
            &&& seeds[t].y == positions[t].1
            &&& seeds[t].data@ == pixel_at(image, positions[t].1, positions[t].0)
        }
}

/// The numbers of seeds per row and per column for an image, a grid
/// interval and a limit on the number of seeds.
fn seed_counts(width: u32, height: u32, s: u32, k: u32) -> (res: (u32, u32))
    requires
        s > 0,
    ensures
        res.0 == seed_grid(width as int, height as int, s as int, k as int).across,
        res.1 == seed_grid(width as int, height as int, s as int, k as int).down,
        res.0 >= 1,
        res.1 >= 1,
{
    let mut x_seeds = div_ceil(width, s);
    let mut y_seeds = div_ceil(height, s);
    proof {
        lemma_ceil_div(width as int, s as int);
        lemma_ceil_div(height as int, s as int);
    }
    // The seeds per row and column might be too high due to the rounding up.
    assert(s * x_seeds <= 0xffff_ffff * 0xffff_ffff) by (nonlinear_arith)
        requires
            0 <= s <= 0xffff_ffff,
            0 <= x_seeds <= 0xffff_ffff,
    ;
    assert(s * y_seeds <= 0xffff_ffff * 0xffff_ffff) by (nonlinear_arith)
        requires
            0 <= s <= 0xffff_ffff,
            0 <= y_seeds <= 0xffff_ffff,
    ;
    if (s as u64) * (x_seeds as u64) > width as u64 {
        assert(x_seeds > 0) by (nonlinear_arith)
            requires
                s * x_seeds > width,
                width >= 0,
                s >= 0,
                x_seeds >= 0,
        ;
        x_seeds = x_seeds - 1;
    }
    if (s as u64) * (y_seeds as u64) > height as u64 {
        assert(y_seeds > 0) by (nonlinear_arith)
            requires
                s * y_seeds > height,
                height >= 0,
                s >= 0,
                y_seeds >= 0,
        ;
        y_seeds = y_seeds - 1;
    }
    let ghost across = x_seeds as int;
    let ghost down = y_seeds as int;
    // If the seed count is larger than `k`, reduce until it is not.
    loop
        invariant_except_break
            trimmed(x_seeds as int, y_seeds as int, k as int) == trimmed(across, down, k as int),
        ensures
            (x_seeds as int, y_seeds as int) == trimmed(across, down, k as int),
        decreases x_seeds,
    {
        assert(x_seeds * y_seeds <= 0xffff_ffff * 0xffff_ffff) by (nonlinear_arith)
            requires
                0 <= x_seeds <= 0xffff_ffff,
                0 <= y_seeds <= 0xffff_ffff,
        ;
        if x_seeds > 0 && y_seeds > 0 && (x_seeds as u64) * (y_seeds as u64) > k as u64 {
            x_seeds = x_seeds - 1;
            y_seeds = y_seeds - 1;
        } else {
            break ;
        }
    }
    // Edge case for very small images, where no seed would be produced.
    if x_seeds == 0 {
        x_seeds = 1;
    }
    if y_seeds == 0 {
        y_seeds = 1;
    }
    (x_seeds, y_seeds)
}

/// One coordinate of a seed.
fn coordinate(index: u32, spread: u32, s: u32, extent: u32, count: u32) -> (res: u32)
    requires
        s > 0,
        extent > 0,
        count >= 1,
        index < count,
        count * s <= extent || count == 1,
    ensures
        res == seed_coordinate(index as int, spread as int, s as int, extent as int, count as int),
        res < extent,
{
    assert(count * s <= 0xffff_ffff * 0xffff_ffff && index * s <= 0xffff_fffe * 0xffff_ffff
        && 0 <= count * s && 0 <= index * s) by (nonlinear_arith)
        requires
            0 <= s <= 0xffff_ffff,
            0 <= count <= 0xffff_ffff,
            0 <= index <= 0xffff_fffe,
    ;
    let used: u64 = (count as u64) * (s as u64);
    let half: u32 = div_ceil(s, 2);
    proof {
        lemma_ceil_div(s as int, 2);
    }
    let base: u128 = (index as u128) * (s as u128) + (half as u128);
    if used <= extent as u64 {
        let left: u64 = extent as u64 - used;
        assert(spread * left <= 0xffff_ffff * 0xffff_ffff && 0 <= spread * left)
            by (nonlinear_arith)
            requires
                0 <= left <= 0xffff_ffff,
                0 <= spread <= 0xffff_ffff,
        ;
        let share: u64 = ((spread as u64) * left) / (count as u64);
        proof {
            assert(spread * (extent - count * s) == spread * left);
            vstd::arithmetic::div_mod::lemma_div_pos_is_pos(spread * left, count as int);
            vstd::arithmetic::div_mod::lemma_div_is_ordered_by_denominator(
                spread * left,
                1,
                count as int,
            );
            vstd::arithmetic::div_mod::lemma_div_basics(spread * left);
        }
        let place: u128 = base + share as u128;
        if place < extent as u128 {
            place as u32
        } else {
            extent - 1
        }
    } else {
        // There is one seed only, and the axis is shorter than the grid
        // interval: the spread moves the seed towards the origin.
        let lack: u64 = used - extent as u64;
        assert(spread * lack <= 0xffff_ffff * 0xffff_ffff && 0 <= spread * lack)
            by (nonlinear_arith)
            requires
                0 <= lack <= 0xffff_ffff,
                0 <= spread <= 0xffff_ffff,
        ;
        let back: u128 = (spread as u128) * (lack as u128);
        proof {
            assert(count == 1 && index == 0);
            assert(spread * (extent - count * s) == -(spread * lack)) by (nonlinear_arith)
                requires
                    lack == count * s - extent,
            ;
            vstd::arithmetic::div_mod::lemma_div_basics(-(spread * lack));
        }
        if back > base {
            0
        } else if base - back < extent as u128 {
            (base - back) as u32
        } else {
            extent - 1
        }
    }
}

/// Clears `seeds` and places the seed centres of the image on a grid of
/// interval `s`, trimmed so that there are no more than `k` seeds (but at
/// least one per row and column of the grid).
///
/// The seed in grid row `i` and grid column `j` lies `j` intervals and
/// half an interval along the columns and `i` intervals and half an
/// interval along the rows, moved by its share of the columns and rows that
/// the grid leaves over: `i` shares along the columns and `j` shares along
/// the rows, rounded down. The half interval is rounded up, and a seed
/// that would fall outside the image is moved to the nearest pixel. Every
/// seed holds the pixel at its position; an image without channels has no
/// values to hold, and gets no seeds.
pub fn place_seeds(s: u32, k: u32, image: &Image, seeds: &mut Vec<Superpixel>)
    requires
        s > 0,
        0 < image.spec_width() <= u32::MAX,
        0 < image.spec_height() <= u32::MAX,
    ensures
        seeds_at(
            final(seeds)@,
            *image,
            seed_grid(
                image.spec_width() as int,
                image.spec_height() as int,
                s as int,
                k as int,
            ).rows(
                seed_grid(
                    image.spec_width() as int,
                    image.spec_height() as int,
                    s as int,
                    k as int,
                ).down,
                image_cells(*image).len() as int,
            ),
        ),
{
    seeds.clear();
    let (rows, cols, channels) = image.dim();
    let width = cols as u32;
    let height = rows as u32;
    let (x_seeds, y_seeds) = seed_counts(width, height, s, k);
    let ghost grid = seed_grid(width as int, height as int, s as int, k as int);
    let ghost cells = image_cells(*image).len() as int;
    proof {
        lemma_counts_fit(width as int, height as int, s as int, k as int);
    }
    let mut ydx: u32 = 0;
    while ydx < y_seeds
        invariant
            ydx <= y_seeds,
            s > 0,
            rows == image.spec_height(),
            cols == image.spec_width(),
            channels == image.spec_channels(),
            width == cols,
            height == rows,
            cells == rows * cols * channels,
            cells == image_cells(*image).len(),
            grid == seed_grid(width as int, height as int, s as int, k as int),
            x_seeds == grid.across,
            y_seeds == grid.down,
            x_seeds >= 1,
            y_seeds >= 1,
            width > 0,
            height > 0,
            grid.across * s <= width || grid.across == 1,
            grid.down * s <= height || grid.down == 1,
            seeds_at(seeds@, *image, grid.rows(ydx as int, cells)),
        decreases y_seeds - ydx,
    {
        let mut xdx: u32 = 0;
        while xdx < x_seeds
            invariant
                xdx <= x_seeds,
                ydx < y_seeds,
                s > 0,
                rows == image.spec_height(),
                cols == image.spec_width(),
                channels == image.spec_channels(),
                width == cols,
                height == rows,
                cells == rows * cols * channels,
                cells == image_cells(*image).len(),
                grid == seed_grid(width as int, height as int, s as int, k as int),
                x_seeds == grid.across,
                y_seeds == grid.down,
                x_seeds >= 1,
                width > 0,
                height > 0,
                grid.across * s <= width || grid.across == 1,
                grid.down * s <= height || grid.down == 1,
                seeds_at(
                    seeds@,
                    *image,
                    grid.rows(ydx as int, cells) + grid.row(ydx as int, xdx as int, cells),
                ),
            decreases x_seeds - xdx,
        {
            let x = coordinate(xdx, ydx, s, width, x_seeds);
            let y = coordinate(ydx, xdx, s, height, y_seeds);
            let ghost old_seeds = seeds@;
            let ghost old_positions = grid.rows(ydx as int, cells) + grid.row(
                ydx as int,
                xdx as int,
                cells,
            );
            proof {
                assert(y * width + x < rows * cols) by (nonlinear_arith)
                    requires
                        0 <= y < rows,
                        0 <= x < cols,
                        width == cols,
                ;
                assert(rows * cols * channels == (rows * cols) * channels);
                assert(channels >= 1 ==> rows * cols <= (rows * cols) * channels)
                    by (nonlinear_arith)
                    requires
                        0 <= rows * cols,
                ;
                assert(channels == 0 ==> (rows * cols) * channels == 0) by (nonlinear_arith);
            }
            if channels > 0 {
                let data = read_pixel(image, y as usize, x as usize);
                seeds.push(Superpixel { data, x, y });
            }
            assert(grid.inside(ydx as int, xdx as int, cells) <==> channels > 0);
            proof {
                let new_positions = grid.rows(ydx as int, cells) + grid.row(
                    ydx as int,
                    xdx as int + 1,
                    cells,
                );
                if grid.inside(ydx as int, xdx as int, cells) {
                    assert(new_positions =~= old_positions.push(
                        (grid.x(ydx as int, xdx as int), grid.y(ydx as int, xdx as int)),
                    ));
                } else {
                    assert(new_positions =~= old_positions);
                }
            }
            xdx = xdx + 1;
        }
        ydx = ydx + 1;
    }
}

/// The positions of all seeds of an image of the given shape, row by row.
pub open spec fn seed_positions(image: Image, s: int, k: int) -> Seq<(int, int)> {
    let grid = seed_grid(image.spec_width() as int, image.spec_height() as int, s, k);
    grid.rows(grid.down, image_cells(image).len() as int)
}

/// Whether the image is too large for its seeds: an axis is longer than a
/// 32-bit number, or the seeds are more than a vector can hold.
pub open spec fn too_many_seeds(image: Image, s: int, k: int) -> bool {
    let grid = seed_grid(image.spec_width() as int, image.spec_height() as int, s, k);
    image.spec_width() > u32::MAX || image.spec_height() > u32::MAX || grid.across * grid.down
        > usize::MAX
}

/// An image whose rows and columns fit 32 bits is not too large for its
/// seeds: they are no more than its pixels.
pub proof fn lemma_seeds_fit(image: Image, s: int, k: int)
    requires
        0 < image.spec_width() <= u32::MAX,
        0 < image.spec_height() <= u32::MAX,
        image.spec_height() * image.spec_width() <= usize::MAX,
        0 < s,
    ensures
        !too_many_seeds(image, s, k),
{
    let width = image.spec_width() as int;
    let height = image.spec_height() as int;
    let grid = seed_grid(width, height, s, k);
    lemma_counts_fit(width, height, s, k);
    assert(grid.across * grid.down <= height * width) by (nonlinear_arith)
        requires
            grid.across * s <= width || grid.across == 1,
            grid.down * s <= height || grid.down == 1,
            1 <= grid.across,
            1 <= grid.down,
            1 <= s,
            1 <= width,
            1 <= height,
    ;
}

/// Initializes the superpixel seed centres.
///
/// Fails on an image without pixels, on an image too large for its seeds,
/// and where room for the seeds cannot be reserved; `seeds` is then empty.
/// Otherwise `seeds` holds the seed centres of the image on a grid of
/// interval `s`, trimmed so that there are no more than `k` seeds (but at
/// least one per row and column of the grid); a seed that would fall
/// outside the image is moved to the nearest pixel.
pub fn init_seeds(s: u32, k: u32, image: &Image, seeds: &mut Vec<Superpixel>) -> (res: Result<
    (),
    SeedError,
>)
    requires
        s > 0,
    ensures
        res == Err::<(), SeedError>(SeedError::InvalidSeedCount) <==> image.spec_width() == 0
            || image.spec_height() == 0,
        res == Err::<(), SeedError>(SeedError::InvalidTotalSeeds) <==> image.spec_width() > 0
            && image.spec_height() > 0 && too_many_seeds(*image, s as int, k as int),
        res != Err::<(), SeedError>(SeedError::PerturbConversion),
        res.is_ok() ==> seeds_at(final(seeds)@, *image, seed_positions(*image, s as int, k as int)),
        res.is_err() ==> final(seeds)@.len() == 0,
{
    seeds.clear();
    let (rows, cols, channels) = image.dim();
    if rows == 0 || cols == 0 {
        return Err(SeedError::InvalidSeedCount);
    }
    if rows > u32::MAX as usize || cols > u32::MAX as usize {
        return Err(SeedError::InvalidTotalSeeds);
    }
    let (x_seeds, y_seeds) = seed_counts(cols as u32, rows as u32, s, k);
    assert(x_seeds * y_seeds <= 0xffff_ffff * 0xffff_ffff) by (nonlinear_arith)
        requires
            0 <= x_seeds <= 0xffff_ffff,
            0 <= y_seeds <= 0xffff_ffff,
    ;
    let total: u64 = (x_seeds as u64) * (y_seeds as u64);
    if total > usize::MAX as u64 {
        return Err(SeedError::InvalidTotalSeeds);
    }
    match seeds.try_reserve(total as usize) {
        Ok(_) => {},
        Err(_) => {
            return Err(SeedError::Allocation);
        },
    }
    place_seeds(s, k, image, seeds);
    Ok(())
}

/// The pixel at column `x`, row `y`, or zeros where the image has none.
pub open spec fn pixel_or_zero(image: Image, x: int, y: int) -> Seq<u8> {
    if 0 <= y < image.spec_height() && 0 <= x < image.spec_width() {
        pixel_at(image, y, x)
    } else {
        Seq::new(image.spec_channels(), |c: int| 0u8)
    }
}

/// The two-point gradient of the image at column `x`, row `y`: the squared
/// distance between the right and the left neighbour plus the squared
/// distance between the lower and the upper neighbour, with zeros in place
/// of neighbours the image does not have.
pub open spec fn gradient(image: Image, x: int, y: int) -> int {
    squared_distance(
        pixel_or_zero(image, x + 1, y),
        pixel_or_zero(image, x - 1, y),
        image.spec_channels() as int,
    ) + squared_distance(
        pixel_or_zero(image, x, y + 1),
        pixel_or_zero(image, x, y - 1),
        image.spec_channels() as int,
    )
}

/// The column of the place with number `t` in the three by three window
/// around column `x`: the window is numbered row by row from its upper left
/// corner.
pub open spec fn window_x(x: int, t: int) -> int {
    x + t % 3 - 1
}

/// The row of the place with number `t` in the three by three window around
/// row `y`.
pub open spec fn window_y(y: int, t: int) -> int {
    y + t / 3 - 1
}

/// Whether the place with number `t` of the window around `(x, y)` is a
/// pixel of the image.
pub open spec fn in_window(image: Image, x: int, y: int, t: int) -> bool {
    0 <= window_y(y, t) < image.spec_height() && 0 <= window_x(x, t) < image.spec_width()
}

/// The gradient at the place with number `t` of the window around `(x, y)`.
pub open spec fn window_gradient(image: Image, x: int, y: int, t: int) -> int {
    gradient(image, window_x(x, t), window_y(y, t))
}

/// The place of least gradient among the first `upto` places of the window
/// around `(x, y)` that are pixels of the image, the first of them where
/// several have the least gradient; `-1` if none is a pixel of the image.
pub open spec fn calmest(image: Image, x: int, y: int, upto: int) -> int
    decreases upto,
{
    if upto <= 0 {
        -1
    } else {
        let before = calmest(image, x, y, upto - 1);
        if in_window(image, x, y, upto - 1) && (before < 0 || window_gradient(image, x, y, upto - 1)
            < window_gradient(image, x, y, before)) {
            upto - 1
        } else {
            before
        }
    }
}

/// Whether place `best` is a pixel of the image whose gradient no pixel
/// among the first `upto` places of the window undercuts and no earlier one
/// equals.
pub open spec fn is_calmest(image: Image, x: int, y: int, upto: int, best: int) -> bool {
    &&& 0 <= best < upto
    &&& in_window(image, x, y, best)
    &&& forall|t: int|
        0 <= t < upto && in_window(image, x, y, t) ==> window_gradient(image, x, y, best)
            <= #[trigger] window_gradient(image, x, y, t)
    &&& forall|t: int|
        0 <= t < best && in_window(image, x, y, t) ==> window_gradient(image, x, y, best)
            < #[trigger] window_gradient(image, x, y, t)
}

/// The calmest place is a pixel of the image whose gradient no pixel of the
/// window undercuts and no earlier pixel of the window equals; there is
/// none only if the window has no pixel of the image.
pub proof fn lemma_calmest(image: Image, x: int, y: int, upto: int)
    requires
        0 <= upto,
    ensures
        calmest(image, x, y, upto) >= 0 ==> is_calmest(
            image,
            x,
            y,
            upto,
            calmest(image, x, y, upto),
        ),
        calmest(image, x, y, upto) < 0 ==> calmest(image, x, y, upto) == -1 && forall|t: int|
            0 <= t < upto ==> !#[trigger] in_window(image, x, y, t),
    decreases upto,
{
    if upto > 0 {
        lemma_calmest(image, x, y, upto - 1);
        let before = calmest(image, x, y, upto - 1);
        let best = calmest(image, x, y, upto);
        if best >= 0 {
            assert forall|t: int| 0 <= t < upto && in_window(image, x, y, t) implies window_gradient(
                image,
                x,
                y,
                best,
            ) <= #[trigger] window_gradient(image, x, y, t) by {
                if t < upto - 1 {
                    assert(before >= 0);
                    assert(window_gradient(image, x, y, before) <= window_gradient(image, x, y, t));
                }
            }
            assert forall|t: int| 0 <= t < best && in_window(image, x, y, t) implies window_gradient(
                image,
                x,
                y,
                best,
            ) < #[trigger] window_gradient(image, x, y, t) by {
                if best == upto - 1 {
                    assert(before >= 0);
                    assert(window_gradient(image, x, y, before) <= window_gradient(image, x, y, t));
                }
            }
        }
    }
}

/// The pixel at column `x`, row `y`, or zeros where the image has none.
fn read_or_zero(image: &Image, x: i64, y: i64) -> (res: Vec<u8>)
    ensures
        res@ == pixel_or_zero(*image, x as int, y as int),
{
    let (height, width, channels) = image.dim();
    if 0 <= y && (y as u64) < height as u64 && 0 <= x && (x as u64) < width as u64 {
        read_pixel(image, y as usize, x as usize)
    } else {
        let mut zeros: Vec<u8> = Vec::new();
        let mut c: usize = 0;
        while c < channels
            invariant
                c <= channels,
                zeros@ == Seq::new(c as nat, |d: int| 0u8),
            decreases channels - c,
        {
            zeros.push(0);
            proof {
                assert(zeros@ =~= Seq::new((c + 1) as nat, |d: int| 0u8));
            }
            c = c + 1;
        }
        zeros
    }
}

/// The two-point gradient of the image at column `x`, row `y`.
fn gradient_at(image: &Image, x: i64, y: i64) -> (res: u128)
    requires
        -2 <= x <= u32::MAX + 2,
        -2 <= y <= u32::MAX + 2,
    ensures
        res == gradient(*image, x as int, y as int),
{
    let right = read_or_zero(image, x + 1, y);
    let left = read_or_zero(image, x - 1, y);
    let lower = read_or_zero(image, x, y + 1);
    let upper = read_or_zero(image, x, y - 1);
    let (height, width, channels) = image.dim();
    proof {
        lemma_squared_distance_bounds(right@, left@, channels as int);
        lemma_squared_distance_bounds(lower@, upper@, channels as int);
    }
    distance_pixel(right.as_slice(), left.as_slice()) + distance_pixel(
        lower.as_slice(),
        upper.as_slice(),
    )
}

/// Finds the lowest gradient in a three by three neighbourhood of a seed
/// and moves the seed there.
///
/// This step minimizes the chance that a noisy pixel is chosen as a seed.
/// Of several pixels with the lowest gradient the first is taken, going
/// through the neighbourhood row by row. A seed whose neighbourhood has no
/// pixel of the image stays as it is. Where the column or the row of the
/// pixel found does not fit the 32 bits of a seed's place, the seed stays
/// as it is too, and the conversion is reported as failed.
pub fn perturb(seed: &mut Superpixel, image: &Image) -> (res: Result<(), SeedError>)
    ensures
        ({
            let place = calmest(*image, old(seed).x as int, old(seed).y as int, 9);
            let x = window_x(old(seed).x as int, place);
            let y = window_y(old(seed).y as int, place);
            if place < 0 {
                res == Ok::<(), SeedError>(()) && *final(seed) == *old(seed)
            } else if x > u32::MAX || y > u32::MAX {
                res == Err::<(), SeedError>(SeedError::PerturbConversion) && *final(seed) == *old(
                    seed,
                )
            } else {
                &&& res == Ok::<(), SeedError>(())
                &&& final(seed).x == x
                &&& final(seed).y == y
                &&& final(seed).data@ == pixel_at(*image, y, x)
            }
        }),
{
    let (height, width, channels) = image.dim();
    let sp_x: i64 = seed.x as i64;
    let sp_y: i64 = seed.y as i64;
    let mut least: u128 = 0;
    let mut found: bool = false;
    let mut best_x: i64 = 0;
    let mut best_y: i64 = 0;
    let mut t: u8 = 0;
    while t < 9
        invariant
            t <= 9,
            height == image.spec_height(),
            width == image.spec_width(),
            sp_x == seed.x,
            sp_y == seed.y,
            found <==> calmest(*image, sp_x as int, sp_y as int, t as int) >= 0,
            found ==> {
                let place = calmest(*image, sp_x as int, sp_y as int, t as int);
                &&& least == window_gradient(*image, sp_x as int, sp_y as int, place)
                &&& best_x == window_x(sp_x as int, place)
                &&& best_y == window_y(sp_y as int, place)
                &&& 0 <= best_x < width
                &&& 0 <= best_y < height
            },
        decreases 9 - t,
    {
        let x: i64 = sp_x + (t % 3) as i64 - 1;
        let y: i64 = sp_y + (t / 3) as i64 - 1;
        if 0 <= y && (y as u64) < height as u64 && 0 <= x && (x as u64) < width as u64 {
            let here = gradient_at(image, x, y);
            if !found || here < least {
                least = here;
                found = true;
                best_x = x;
                best_y = y;
            }
        }
        t = t + 1;
    }
    if found {
        if best_x > u32::MAX as i64 || best_y > u32::MAX as i64 {
            return Err(SeedError::PerturbConversion);
        }
        seed.data = read_pixel(image, best_y as usize, best_x as usize);
        seed.x = best_x as u32;
        seed.y = best_y as u32;
    }
    Ok(())
}

/// After trimming, the seeds of each axis either fit the axis or there is
/// just one of them.
proof fn lemma_counts_fit(width: int, height: int, s: int, k: int)
    requires
        0 <= width,
        0 <= height,
        0 < s,
    ensures
        ({
            let grid = seed_grid(width, height, s, k);
            &&& grid.across * s <= width || grid.across == 1
            &&& grid.down * s <= height || grid.down == 1
        }),
{
    lemma_ceil_div(width, s);
    lemma_ceil_div(height, s);
    let across = steps_within(width, s);
    let down = steps_within(height, s);
    assert(across * s <= width && 0 <= across) by (nonlinear_arith)
        requires
            across == steps_within(width, s),
            ceil_div(width, s) * s >= width,
            (ceil_div(width, s) - 1) * s < width || width == 0,
            0 <= ceil_div(width, s),
            0 < s,
            0 <= width,
    ;
    assert(down * s <= height && 0 <= down) by (nonlinear_arith)
        requires
            down == steps_within(height, s),
            ceil_div(height, s) * s >= height,
            (ceil_div(height, s) - 1) * s < height || height == 0,
            0 <= ceil_div(height, s),
            0 < s,
            0 <= height,
    ;
    lemma_trimmed_below(across, down, k, s);
}

proof fn lemma_trimmed_below(across: int, down: int, k: int, s: int)
    requires
        0 <= across,
        0 <= down,
        0 < s,
    ensures
        0 <= trimmed(across, down, k).0 <= across,
        0 <= trimmed(across, down, k).1 <= down,
        trimmed(across, down, k).0 * s <= across * s,
        trimmed(across, down, k).1 * s <= down * s,
    decreases across,
{
    if across > 0 && down > 0 && across * down > k {
        lemma_trimmed_below(across - 1, down - 1, k, s);
        assert((across - 1) * s <= across * s) by (nonlinear_arith)
            requires
                0 < s,
        ;
        assert((down - 1) * s <= down * s) by (nonlinear_arith)
            requires
                0 < s,
        ;
    }
}

} // verus!
