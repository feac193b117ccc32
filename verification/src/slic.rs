use crate::connectivity::{
    connected, contiguous, enforce_connectivity, inside, scan_rows, unsplit,
};
use crate::raster::{image_cells, label_cells, nonzero, Image, LabelMap};
use crate::regions::{lemma_max_label_bounds, lemma_region_bounds, max_label, region_area, region_sum};
use crate::seed::{
    calmest, init_seeds, lemma_calmest, lemma_seeds_fit, perturb, seed_positions, seeds_at,
    too_many_seeds, window_x, window_y,
    Centre, SeedError, Superpixel,
};
use crate::slic_helpers::{
    calculate_grid_interval, is_grid_interval, lemma_squared_distance_bounds, m_div_s, pixel_at,
    scaled_distance, squared_distance, squared_distance_xy,
};
use vstd::prelude::*;

verus! {

/// The number of channels that count for the colour distance: the first
/// three, or all if there are fewer.
pub open spec fn colour_channels(channels: int) -> int {
    if channels < 3 {
        channels
    } else {
        3
    }
}

/// The squared distance between a pixel and a centre's colour over the
/// channels that count.
pub open spec fn colour_distance(pixel: Seq<u8>, centre: Seq<u8>) -> int {
    squared_distance(pixel, centre, colour_channels(pixel.len() as int))
}

/// What the assignment of pixels to centres goes by: the image, the
/// scaling factor `(m / s)` squared as numerator and denominator, and the
/// grid interval `s`.
pub struct Frame {
    pub image: Image,
    pub factor: (int, int),
    pub s: int,
}

impl Frame {
    /// The distance of the pixel at column `x`, row `y` to a centre, times
    /// the denominator of the scaling factor: the colour distance plus the
    /// scaling factor times the distance in the plane.
    pub open spec fn distance(self, centre: Centre, x: int, y: int) -> int {
        scaled_distance(
            self.factor,
            colour_distance(pixel_at(self.image, y, x), centre.data),
            squared_distance_xy((x, y), (centre.x, centre.y)),
        )
    }

    /// Whether the pixel at column `x`, row `y` lies in the window of a
    /// centre: no more than `s` columns and `s` rows away from it.
    pub open spec fn reaches(self, centre: Centre, x: int, y: int) -> bool {
        &&& centre.x - self.s <= x <= centre.x + self.s
        &&& centre.y - self.s <= y <= centre.y + self.s
    }

    /// Whether a centre takes the pixel at column `x`, row `y` from a
    /// centre at distance `held`: the pixel lies in its window and is
    /// nearer to it.
    pub open spec fn takes(self, centre: Centre, x: int, y: int, held: int) -> bool {
        self.reaches(centre, x, y) && self.distance(centre, x, y) < held
    }

    /// The distance at which the pixel at column `x`, row `y` is held
    /// after the first `upto` centres had their turn, if it was held at
    /// distance `held` before.
    pub open spec fn held_distance(self, centres: Seq<Centre>, upto: int, x: int, y: int, held: int) -> int
        decreases upto,
    {
        if upto <= 0 {
            held
        } else {
            let before = self.held_distance(centres, upto - 1, x, y, held);
            if self.takes(centres[upto - 1], x, y, before) {
                self.distance(centres[upto - 1], x, y)
            } else {
                before
            }
        }
    }

    /// The centre that holds the pixel at column `x`, row `y` after the
    /// first `upto` centres had their turn, if centre `label` held it at
    /// distance `held` before.
    pub open spec fn held_label(
        self,
        centres: Seq<Centre>,
        upto: int,
        x: int,
        y: int,
        held: int,
        label: int,
    ) -> int
        decreases upto,
    {
        if upto <= 0 {
            label
        } else if self.takes(
            centres[upto - 1],
            x,
            y,
            self.held_distance(centres, upto - 1, x, y, held),
        ) {
            upto - 1
        } else {
            self.held_label(centres, upto - 1, x, y, held, label)
        }
    }
}

/// After the centres had their turn, a pixel is held at the least of the
/// distance it was held at before and its distances to the centres whose
/// windows it lies in; where a centre took it, it is held by the first
/// centre at that least distance.
pub proof fn lemma_held(frame: Frame, centres: Seq<Centre>, upto: int, x: int, y: int, held: int, label: int)
    requires
        0 <= upto <= centres.len(),
    ensures
        frame.held_distance(centres, upto, x, y, held) <= held,
        forall|k: int|
            0 <= k < upto && frame.reaches(centres[k], x, y) ==> frame.held_distance(
                centres,
                upto,
                x,
                y,
                held,
            ) <= #[trigger] frame.distance(centres[k], x, y),
        frame.held_distance(centres, upto, x, y, held) == held ==> frame.held_label(
            centres,
            upto,
            x,
            y,
            held,
            label,
        ) == label,
        frame.held_distance(centres, upto, x, y, held) < held ==> {
            let k = frame.held_label(centres, upto, x, y, held, label);
            &&& 0 <= k < upto
            &&& frame.reaches(centres[k], x, y)
            &&& frame.distance(centres[k], x, y) == frame.held_distance(centres, upto, x, y, held)
            &&& forall|j: int|
                0 <= j < k && frame.reaches(centres[j], x, y) ==> frame.held_distance(
                    centres,
                    upto,
                    x,
                    y,
                    held,
                ) < #[trigger] frame.distance(centres[j], x, y)
        },
    decreases upto,
{
    if upto > 0 {
        lemma_held(frame, centres, upto - 1, x, y, held, label);
        let before = frame.held_distance(centres, upto - 1, x, y, held);
        let now = frame.held_distance(centres, upto, x, y, held);
        if now < held {
            let k = frame.held_label(centres, upto, x, y, held, label);
            if frame.takes(centres[upto - 1], x, y, before) {
                assert forall|j: int| 0 <= j < k && frame.reaches(centres[j], x, y) implies now
                    < #[trigger] frame.distance(centres[j], x, y) by {
                    assert(before <= frame.distance(centres[j], x, y));
                }
            }
        }
    }
}

/// The distance held for a pixel that no centre has taken yet: it is above
/// every distance to a centre.
pub const UNHELD: u128 = u128::MAX;

/// Whether the image, the scaling factor and the grid interval are those
/// of a frame, and the distances of the frame stay below [`UNHELD`].
pub open spec fn frame_of(image: Image, factor: (u64, u64), s: u32) -> Frame {
    Frame { image, factor: (factor.0 as int, factor.1 as int), s: s as int }
}

/// The scaling factor `(m / s)` squared as numerator and denominator.
pub open spec fn factor_of(m: u8, s: u32) -> (u64, u64) {
    ((m * m) as u64, (s * s) as u64)
}

/// Every distance of a pixel to a centre lies below [`UNHELD`].
pub proof fn lemma_distance_range(image: Image, factor: (u64, u64), s: u32, centre: Centre, x: int, y: int)
    requires
        factor.0 <= 65025,
        0 <= x <= u32::MAX,
        0 <= y <= u32::MAX,
        0 <= centre.x <= u32::MAX,
        0 <= centre.y <= u32::MAX,
    ensures
        0 <= frame_of(image, factor, s).distance(centre, x, y) < UNHELD,
{
    let pixel = pixel_at(image, y, x);
    let count = colour_channels(pixel.len() as int);
    lemma_squared_distance_bounds(pixel, centre.data, count);
    let colour = colour_distance(pixel, centre.data);
    let place = squared_distance_xy((x, y), (centre.x, centre.y));
    let dx = centre.x - x;
    let dy = centre.y - y;
    assert(0 <= dx * dx <= 0xffff_ffff * 0xffff_ffff && 0 <= dy * dy <= 0xffff_ffff * 0xffff_ffff)
        by (nonlinear_arith)
        requires
            -0xffff_ffff <= dx <= 0xffff_ffff,
            -0xffff_ffff <= dy <= 0xffff_ffff,
    ;
    assert(factor.1 * colour <= 0xffff_ffff_ffff_ffff * 195075 && factor.0 * place <= 65025 * (2
        * (0xffff_ffff * 0xffff_ffff)) && 0 <= factor.1 * colour && 0 <= factor.0 * place)
        by (nonlinear_arith)
        requires
            0 <= factor.1 <= 0xffff_ffff_ffff_ffff,
            0 <= colour <= 195075,
            0 <= factor.0 <= 65025,
            0 <= place <= 2 * (0xffff_ffff * 0xffff_ffff),
    ;
}

/// The distance of a pixel to a centre, times the denominator of the
/// scaling factor.
fn centre_distance(image: &Image, factor: (u64, u64), s: u32, centre: &Superpixel, x: u32, y: u32) -> (res:
    u128)
    requires
        y < image.spec_height(),
        x < image.spec_width(),
        centre.data@.len() >= colour_channels(image.spec_channels() as int),
        factor.0 <= 65025,
    ensures
        res == frame_of(*image, factor, s).distance(centre@, x as int, y as int),
        res < UNHELD,
{
    let (_, _, channels) = image.dim();
    let count: usize = if channels < 3 {
        channels
    } else {
        3
    };
    let ghost pixel = pixel_at(*image, y as int, x as int);
    let mut colour: u128 = 0;
    let mut c: usize = 0;
    while c < count
        invariant
            c <= count <= 3,
            count == colour_channels(image.spec_channels() as int),
            count <= image.spec_channels(),
            count <= centre.data@.len(),
            y < image.spec_height(),
            x < image.spec_width(),
            pixel == pixel_at(*image, y as int, x as int),
            colour == squared_distance(pixel, centre.data@, c as int),
            colour <= 65025 * c,
        decreases count - c,
    {
        let a = image.get(y as usize, x as usize, c);
        let b = centre.data[c];
        let diff: u128 = if a >= b {
            (a - b) as u128
        } else {
            (b - a) as u128
        };
        assert(diff * diff == (a - b) * (a - b) && diff * diff <= 65025) by (nonlinear_arith)
            requires
                diff == a - b || diff == b - a,
                0 <= diff <= 255,
        ;
        colour = colour + diff * diff;
        c = c + 1;
    }
    let place = crate::slic_helpers::distance_xy((x, y), (centre.x, centre.y));
    proof {
        let dx = centre.x - x;
        let dy = centre.y - y;
        assert(dx * dx <= 0xffff_ffff * 0xffff_ffff && dy * dy <= 0xffff_ffff * 0xffff_ffff)
            by (nonlinear_arith)
            requires
                -0xffff_ffff <= dx <= 0xffff_ffff,
                -0xffff_ffff <= dy <= 0xffff_ffff,
        ;
        assert(factor.1 * colour <= 0xffff_ffff_ffff_ffff * 195075 && factor.0 * place <= 65025
            * (2 * (0xffff_ffff * 0xffff_ffff)) && 0 <= factor.1 * colour && 0 <= factor.0
            * place) by (nonlinear_arith)
            requires
                0 <= factor.1 <= 0xffff_ffff_ffff_ffff,
                0 <= colour <= 195075,
                0 <= factor.0 <= 65025,
                0 <= place <= 2 * (0xffff_ffff * 0xffff_ffff),
        ;
    }
    (factor.1 as u128) * colour + (factor.0 as u128) * place
}

/// The distances and labels of the pixels of an image, row by row.
pub struct SlicInfo {
    pub distances: Vec<u128>,
    pub labels: Vec<usize>,
}

/// The distance held for the pixel in row `y`, column `x`.
pub open spec fn distance_at(distances: Seq<u128>, width: int, y: int, x: int) -> u128 {
    distances[y * width + x]
}

/// The label of the pixel in row `y`, column `x`.
pub open spec fn label_at(labels: Seq<usize>, width: int, y: int, x: int) -> usize {
    labels[y * width + x]
}

/// Gives centre `index` its turn: every pixel in its window that is nearer
/// to it than to the centre that holds it goes over to it.
pub fn assign_centre(
    info: &mut SlicInfo,
    image: &Image,
    factor: (u64, u64),
    s: u32,
    index: usize,
    centre: &Superpixel,
)
    requires
        0 < image.spec_width() <= u32::MAX,
        0 < image.spec_height() <= u32::MAX,
        old(info).distances@.len() == image.spec_height() * image.spec_width(),
        old(info).labels@.len() == image.spec_height() * image.spec_width(),
        centre.data@.len() >= colour_channels(image.spec_channels() as int),
        factor.0 <= 65025,
    ensures
        final(info).distances@.len() == old(info).distances@.len(),
        final(info).labels@.len() == old(info).labels@.len(),
        forall|y: int, x: int|
            0 <= y < image.spec_height() && 0 <= x < image.spec_width() ==> #[trigger] distance_at(
                final(info).distances@,
                image.spec_width() as int,
                y,
                x,
            ) == if frame_of(*image, factor, s).takes(
                centre@,
                x,
                y,
                distance_at(old(info).distances@, image.spec_width() as int, y, x) as int,
            ) {
                frame_of(*image, factor, s).distance(centre@, x, y) as u128
            } else {
                distance_at(old(info).distances@, image.spec_width() as int, y, x)
            },
        forall|y: int, x: int|
            0 <= y < image.spec_height() && 0 <= x < image.spec_width() ==> #[trigger] label_at(
                final(info).labels@,
                image.spec_width() as int,
                y,
                x,
            ) == if frame_of(*image, factor, s).takes(
                centre@,
                x,
                y,
                distance_at(old(info).distances@, image.spec_width() as int, y, x) as int,
            ) {
                index
            } else {
                label_at(old(info).labels@, image.spec_width() as int, y, x)
            },
{
    let (rows, cols, _) = image.dim();
    let height = rows as u32;
    let width = cols as u32;
    let ghost frame = frame_of(*image, factor, s);
    let ghost w = cols as int;
    // The window of the centre, clipped to the image; empty if the centre
    // lies too far outside.
    let y_from: u64 = centre.y.saturating_sub(s) as u64;
    let x_from: u64 = centre.x.saturating_sub(s) as u64;
    let y_end: u64 = if (centre.y as u64) + (s as u64) + 1 < height as u64 {
        (centre.y as u64) + (s as u64) + 1
    } else {
        height as u64
    };
    let x_end: u64 = if (centre.x as u64) + (s as u64) + 1 < width as u64 {
        (centre.x as u64) + (s as u64) + 1
    } else {
        width as u64
    };
    proof {
        assert forall|j: int, i: int| 0 <= j < height && 0 <= i < width implies (frame.reaches(
            centre@,
            i,
            j,
        ) <==> y_from <= j < y_end && x_from <= i < x_end) by {}
    }
    let mut y: u64 = y_from;
    while y < y_end
        invariant
            y_from <= y,
            y_end <= height,
            x_end <= width,
            rows == image.spec_height(),
            cols == image.spec_width(),
            height == rows,
            width == cols,
            w == cols,
            frame == frame_of(*image, factor, s),
            info.distances@.len() == rows * cols,
            info.labels@.len() == rows * cols,
            old(info).distances@.len() == rows * cols,
            centre.data@.len() >= colour_channels(image.spec_channels() as int),
            factor.0 <= 65025,
            forall|j: int, i: int|
                0 <= j < height && 0 <= i < width ==> (#[trigger] frame.reaches(centre@, i, j)
                    <==> y_from <= j < y_end && x_from <= i < x_end),
            forall|j: int, i: int|
                0 <= j < height && 0 <= i < width ==> #[trigger] distance_at(
                    info.distances@,
                    w,
                    j,
                    i,
                ) == if j < y && frame.takes(
                    centre@,
                    i,
                    j,
                    distance_at(old(info).distances@, w, j, i) as int,
                ) {
                    frame.distance(centre@, i, j) as u128
                } else {
                    distance_at(old(info).distances@, w, j, i)
                },
            forall|j: int, i: int|
                0 <= j < height && 0 <= i < width ==> #[trigger] label_at(info.labels@, w, j, i)
                    == if j < y && frame.takes(
                    centre@,
                    i,
                    j,
                    distance_at(old(info).distances@, w, j, i) as int,
                ) {
                    index
                } else {
                    label_at(old(info).labels@, w, j, i)
                },
        decreases y_end - y,
    {
        let mut x: u64 = x_from;
        while x < x_end
            invariant
                y_from <= y < y_end,
                x_from <= x,
                y_end <= height,
                x_end <= width,
                rows == image.spec_height(),
                cols == image.spec_width(),
                height == rows,
                width == cols,
                w == cols,
                frame == frame_of(*image, factor, s),
                info.distances@.len() == rows * cols,
                info.labels@.len() == rows * cols,
                old(info).distances@.len() == rows * cols,
                centre.data@.len() >= colour_channels(image.spec_channels() as int),
                factor.0 <= 65025,
                forall|j: int, i: int|
                    0 <= j < height && 0 <= i < width ==> (#[trigger] frame.reaches(centre@, i, j)
                        <==> y_from <= j < y_end && x_from <= i < x_end),
                forall|j: int, i: int|
                    0 <= j < height && 0 <= i < width ==> #[trigger] distance_at(
                        info.distances@,
                        w,
                        j,
                        i,
                    ) == if (j < y || (j == y && i < x)) && frame.takes(
                        centre@,
                        i,
                        j,
                        distance_at(old(info).distances@, w, j, i) as int,
                    ) {
                        frame.distance(centre@, i, j) as u128
                    } else {
                        distance_at(old(info).distances@, w, j, i)
                    },
                forall|j: int, i: int|
                    0 <= j < height && 0 <= i < width ==> #[trigger] label_at(info.labels@, w, j, i)
                        == if (j < y || (j == y && i < x)) && frame.takes(
                        centre@,
                        i,
                        j,
                        distance_at(old(info).distances@, w, j, i) as int,
                    ) {
                        index
                    } else {
                        label_at(old(info).labels@, w, j, i)
                    },
            decreases x_end - x,
        {
            proof {
                crate::utils::lemma_planar_bounds(rows as int, cols as int, 1, y as int, x as int, 0);
                assert((y * w + x) * 1 + 0 == y * w + x);
                assert(rows * cols * 1 == rows * cols) by (nonlinear_arith);
                assert(y * width <= 0xffff_ffff * 0xffff_ffff && 0 <= y * width)
                    by (nonlinear_arith)
                    requires
                        0 <= y <= 0xffff_ffff,
                        0 <= width <= 0xffff_ffff,
                ;
            }
            let pixels = info.distances.len();
            let p: usize = (y * (width as u64) + x) as usize;
            assert(p == y * w + x);
            let distance = centre_distance(image, factor, s, centre, x as u32, y as u32);
            let ghost before_d = info.distances@;
            let ghost before_l = info.labels@;
            assert(before_d[p as int] == distance_at(before_d, w, y as int, x as int));
            assert(frame.reaches(centre@, x as int, y as int));
            if distance < info.distances[p] {
                info.distances[p] = distance;
                info.labels[p] = index;
            }
            proof {
                assert forall|j: int, i: int|
                    0 <= j < height && 0 <= i < width implies #[trigger] distance_at(
                    info.distances@,
                    w,
                    j,
                    i,
                ) == if (j < y || (j == y && i < x + 1)) && frame.takes(
                    centre@,
                    i,
                    j,
                    distance_at(old(info).distances@, w, j, i) as int,
                ) {
                    frame.distance(centre@, i, j) as u128
                } else {
                    distance_at(old(info).distances@, w, j, i)
                } by {
                    crate::utils::lemma_planar_bounds(rows as int, cols as int, 1, j, i, 0);
                    if j == y && i == x {
                    } else {
                        crate::utils::lemma_cells_apart(w, 1, j, i, 0, y as int, x as int);
                        assert((j * w + i) * 1 + 0 != (y * w + x) * 1 + 0);
                        assert(distance_at(info.distances@, w, j, i) == distance_at(
                            before_d,
                            w,
                            j,
                            i,
                        ));
                    }
                }
                assert forall|j: int, i: int|
                    0 <= j < height && 0 <= i < width implies #[trigger] label_at(
                    info.labels@,
                    w,
                    j,
                    i,
                ) == if (j < y || (j == y && i < x + 1)) && frame.takes(
                    centre@,
                    i,
                    j,
                    distance_at(old(info).distances@, w, j, i) as int,
                ) {
                    index
                } else {
                    label_at(old(info).labels@, w, j, i)
                } by {
                    crate::utils::lemma_planar_bounds(rows as int, cols as int, 1, j, i, 0);
                    if j == y && i == x {
                        assert(distance_at(before_d, w, j, i) == distance_at(
                            old(info).distances@,
                            w,
                            j,
                            i,
                        ));
                    } else {
                        crate::utils::lemma_cells_apart(w, 1, j, i, 0, y as int, x as int);
                        assert((j * w + i) * 1 + 0 != (y * w + x) * 1 + 0);
                        assert(label_at(info.labels@, w, j, i) == label_at(before_l, w, j, i));
                    }
                }
            }
            x = x + 1;
        }
        y = y + 1;
    }
}

/// The centres as plain values.
pub open spec fn centres_of(seeds: Seq<Superpixel>) -> Seq<Centre> {
    Seq::new(seeds.len(), |k: int| seeds[k]@)
}

/// Whether every centre has a colour value for each channel that counts.
pub open spec fn coloured(seeds: Seq<Superpixel>, channels: int) -> bool {
    forall|k: int| 0 <= k < seeds.len() ==> (#[trigger] seeds[k]).data@.len() >= colour_channels(channels)
}

/// Gives every centre its turn, in order: each pixel ends up with the
/// nearest of the centres whose windows it lies in, unless it was held at
/// no greater distance before; of several nearest centres the first holds
/// it.
pub fn assign(info: &mut SlicInfo, image: &Image, factor: (u64, u64), s: u32, centres: &Vec<Superpixel>)
    requires
        0 < image.spec_width() <= u32::MAX,
        0 < image.spec_height() <= u32::MAX,
        old(info).distances@.len() == image.spec_height() * image.spec_width(),
        old(info).labels@.len() == image.spec_height() * image.spec_width(),
        coloured(centres@, image.spec_channels() as int),
        factor.0 <= 65025,
    ensures
        final(info).distances@.len() == old(info).distances@.len(),
        final(info).labels@.len() == old(info).labels@.len(),
        forall|y: int, x: int|
            0 <= y < image.spec_height() && 0 <= x < image.spec_width() ==> #[trigger] distance_at(
                final(info).distances@,
                image.spec_width() as int,
                y,
                x,
            ) == frame_of(*image, factor, s).held_distance(
                centres_of(centres@),
                centres@.len() as int,
                x,
                y,
                distance_at(old(info).distances@, image.spec_width() as int, y, x) as int,
            ),
        forall|y: int, x: int|
            0 <= y < image.spec_height() && 0 <= x < image.spec_width() ==> #[trigger] label_at(
                final(info).labels@,
                image.spec_width() as int,
                y,
                x,
            ) == frame_of(*image, factor, s).held_label(
                centres_of(centres@),
                centres@.len() as int,
                x,
                y,
                distance_at(old(info).distances@, image.spec_width() as int, y, x) as int,
                label_at(old(info).labels@, image.spec_width() as int, y, x) as int,
            ),
{
    let ghost frame = frame_of(*image, factor, s);
    let ghost w = image.spec_width() as int;
    let ghost all = centres_of(centres@);
    let mut k: usize = 0;
    while k < centres.len()
        invariant
            k <= centres@.len(),
            0 < image.spec_width() <= u32::MAX,
            0 < image.spec_height() <= u32::MAX,
            w == image.spec_width(),
            frame == frame_of(*image, factor, s),
            all == centres_of(centres@),
            info.distances@.len() == image.spec_height() * image.spec_width(),
            info.labels@.len() == image.spec_height() * image.spec_width(),
            old(info).distances@.len() == image.spec_height() * image.spec_width(),
            coloured(centres@, image.spec_channels() as int),
            factor.0 <= 65025,
            forall|y: int, x: int|
                0 <= y < image.spec_height() && 0 <= x < image.spec_width()
                    ==> #[trigger] distance_at(info.distances@, w, y, x) == frame.held_distance(
                    all,
                    k as int,
                    x,
                    y,
                    distance_at(old(info).distances@, w, y, x) as int,
                ),
            forall|y: int, x: int|
                0 <= y < image.spec_height() && 0 <= x < image.spec_width() ==> #[trigger] label_at(
                    info.labels@,
                    w,
                    y,
                    x,
                ) == frame.held_label(
                    all,
                    k as int,
                    x,
                    y,
                    distance_at(old(info).distances@, w, y, x) as int,
                    label_at(old(info).labels@, w, y, x) as int,
                ),
        decreases centres@.len() - k,
    {
        let ghost before_d = info.distances@;
        let ghost before_l = info.labels@;
        assert(all[k as int] == centres@[k as int]@);
        assign_centre(info, image, factor, s, k, &centres[k]);
        proof {
            assert forall|y: int, x: int|
                0 <= y < image.spec_height() && 0 <= x < image.spec_width() implies #[trigger] distance_at(
                info.distances@,
                w,
                y,
                x,
            ) == frame.held_distance(
                all,
                k + 1,
                x,
                y,
                distance_at(old(info).distances@, w, y, x) as int,
            ) by {
                assert(distance_at(before_d, w, y, x) == frame.held_distance(
                    all,
                    k as int,
                    x,
                    y,
                    distance_at(old(info).distances@, w, y, x) as int,
                ));
                lemma_distance_range(*image, factor, s, all[k as int], x, y);
            }
            assert forall|y: int, x: int|
                0 <= y < image.spec_height() && 0 <= x < image.spec_width() implies #[trigger] label_at(
                info.labels@,
                w,
                y,
                x,
            ) == frame.held_label(
                all,
                k + 1,
                x,
                y,
                distance_at(old(info).distances@, w, y, x) as int,
                label_at(old(info).labels@, w, y, x) as int,
            ) by {
                assert(distance_at(before_d, w, y, x) == frame.held_distance(
                    all,
                    k as int,
                    x,
                    y,
                    distance_at(old(info).distances@, w, y, x) as int,
                ));
                assert(label_at(before_l, w, y, x) == frame.held_label(
                    all,
                    k as int,
                    x,
                    y,
                    distance_at(old(info).distances@, w, y, x) as int,
                    label_at(old(info).labels@, w, y, x) as int,
                ));
            }
        }
        k = k + 1;
    }
}

/// The sum of the columns of those of the first `upto` pixels that carry
/// `label`.
pub open spec fn region_sum_x(labels: Seq<usize>, width: int, label: int, upto: int) -> int
    decreases upto,
{
    if upto <= 0 {
        0
    } else {
        region_sum_x(labels, width, label, upto - 1) + if labels[upto - 1] == label {
            (upto - 1) % width
        } else {
            0int
        }
    }
}

/// The sum of the rows of those of the first `upto` pixels that carry
/// `label`.
pub open spec fn region_sum_y(labels: Seq<usize>, width: int, label: int, upto: int) -> int
    decreases upto,
{
    if upto <= 0 {
        0
    } else {
        region_sum_y(labels, width, label, upto - 1) + if labels[upto - 1] == label {
            (upto - 1) / width
        } else {
            0int
        }
    }
}

/// The sums of the columns and rows of a region are at most the largest
/// column and row times its pixel count.
pub proof fn lemma_place_bounds(labels: Seq<usize>, width: int, height: int, label: int, upto: int)
    requires
        0 < width,
        0 <= upto <= height * width,
    ensures
        0 <= region_sum_x(labels, width, label, upto) <= (width - 1) * region_area(
            labels,
            label,
            upto,
        ),
        0 <= region_sum_y(labels, width, label, upto) <= (height - 1) * region_area(
            labels,
            label,
            upto,
        ),
        0 <= region_area(labels, label, upto) <= upto,
    decreases upto,
{
    if upto > 0 {
        lemma_place_bounds(labels, width, height, label, upto - 1);
        let i = upto - 1;
        vstd::arithmetic::div_mod::lemma_fundamental_div_mod(i, width);
        vstd::arithmetic::div_mod::lemma_mod_bound(i, width);
        vstd::arithmetic::div_mod::lemma_div_pos_is_pos(i, width);
        assert(i / width <= height - 1) by (nonlinear_arith)
            requires
                i == width * (i / width) + i % width,
                0 <= i % width,
                i < height * width,
                0 < width,
        ;
        let n = region_area(labels, label, i);
        assert((width - 1) * n + (width - 1) == (width - 1) * (n + 1)) by (nonlinear_arith);
        assert((height - 1) * n + (height - 1) == (height - 1) * (n + 1)) by (nonlinear_arith);
    } else {
        assert((width - 1) * 0 == 0 && (height - 1) * 0 == 0);
    }
}

/// Where a centre moves: to the mean column and row of its pixels, rounded
/// down, with the mean of their values in each channel, rounded down. A
/// centre without pixels stays as it is.
pub open spec fn moved(image: Image, labels: Seq<usize>, centre: Centre, label: int) -> Centre {
    let pixels = labels.len() as int;
    let width = image.spec_width() as int;
    let channels = image.spec_channels() as int;
    let count = region_area(labels, label, pixels);
    if count == 0 {
        centre
    } else {
        Centre {
            data: Seq::new(
                channels as nat,
                |c: int| (region_sum(image_cells(image), channels, labels, label, c, pixels) / count) as u8,
            ),
            x: region_sum_x(labels, width, label, pixels) / count,
            y: region_sum_y(labels, width, label, pixels) / count,
        }
    }
}

/// What is gathered of each centre's pixels while the centres are moved:
/// their number, the sums of their columns and rows, and the sums of their
/// values per channel.
struct Gathered {
    count: u64,
    sum_x: u128,
    sum_y: u128,
    sums: Vec<u128>,
}

/// Whether centre `label` has gathered the first `upto` pixels.
spec fn gathered(one: Gathered, image: Image, labels: Seq<usize>, label: int, upto: int) -> bool {
    let width = image.spec_width() as int;
    let channels = image.spec_channels() as int;
    &&& one.count == region_area(labels, label, upto)
    &&& one.sum_x == region_sum_x(labels, width, label, upto)
    &&& one.sum_y == region_sum_y(labels, width, label, upto)
    &&& one.sums@.len() == channels
    &&& forall|c: int|
        0 <= c < channels ==> #[trigger] one.sums@[c] == region_sum(
            image_cells(image),
            channels,
            labels,
            label,
            c,
            upto,
        )
}

/// As many zeros as the image has channels.
fn zero_sums(channels: usize) -> (sums: Vec<u128>)
    ensures
        sums@.len() == channels,
        forall|c: int| 0 <= c < channels ==> #[trigger] sums@[c] == 0,
{
    let mut sums: Vec<u128> = Vec::new();
    let mut c: usize = 0;
    while c < channels
        invariant
            c <= channels,
            sums@.len() == c,
            forall|d: int| 0 <= d < c ==> #[trigger] sums@[d] == 0,
        decreases channels - c,
    {
        sums.push(0);
        c = c + 1;
    }
    sums
}

/// Adds the pixel in row `y`, column `x` to what centre `label` has
/// gathered.
fn gather_pixel(all: &mut Vec<Gathered>, image: &Image, labels: &Vec<usize>, label: usize, y: usize, x: usize)
    requires
        label < old(all)@.len(),
        0 < image.spec_width() <= u32::MAX,
        0 < image.spec_height() <= u32::MAX,
        y < image.spec_height(),
        x < image.spec_width(),
        labels@.len() == image.spec_height() * image.spec_width(),
        labels@[y * image.spec_width() + x] == label,
        forall|k: int|
            0 <= k < old(all)@.len() ==> gathered(
                #[trigger] old(all)@[k],
                *image,
                labels@,
                k,
                y * image.spec_width() + x,
            ),
    ensures
        final(all)@.len() == old(all)@.len(),
        forall|k: int|
            0 <= k < final(all)@.len() ==> gathered(
                #[trigger] final(all)@[k],
                *image,
                labels@,
                k,
                y * image.spec_width() + x + 1,
            ),
{
    let (rows, cols, channels) = image.dim();
    let ghost w = cols as int;
    let ghost i = y * w + x;
    let ghost cells = image_cells(*image);
    proof {
        crate::utils::lemma_planar_bounds(rows as int, cols as int, 1, y as int, x as int, 0);
        assert((y * w + x) * 1 + 0 == i);
        assert(rows * cols * 1 == rows * cols) by (nonlinear_arith);
        assert(rows * cols <= 0xffff_ffff * 0xffff_ffff) by (nonlinear_arith)
            requires
                0 <= rows <= 0xffff_ffff,
                0 <= cols <= 0xffff_ffff,
        ;
        lemma_place_bounds(labels@, w, rows as int, label as int, i);
        vstd::arithmetic::div_mod::lemma_fundamental_div_mod_converse(i, w, y as int, x as int);
        assert((w - 1) * region_area(labels@, label as int, i) <= 0xffff_ffff
            * 0xffff_ffff_ffff_ffff) by (nonlinear_arith)
            requires
                0 <= w - 1 <= 0xffff_ffff,
                0 <= region_area(labels@, label as int, i) <= 0xffff_ffff_ffff_ffff,
        ;
        assert((rows - 1) * region_area(labels@, label as int, i) <= 0xffff_ffff
            * 0xffff_ffff_ffff_ffff) by (nonlinear_arith)
            requires
                0 <= rows - 1 <= 0xffff_ffff,
                0 <= region_area(labels@, label as int, i) <= 0xffff_ffff_ffff_ffff,
        ;
        assert(rows * cols <= 0xffff_ffff * 0xffff_ffff) by (nonlinear_arith)
            requires
                0 <= rows <= 0xffff_ffff,
                0 <= cols <= 0xffff_ffff,
        ;
        assert(gathered(old(all)@[label as int], *image, labels@, label as int, i));
    }
    all[label].count = all[label].count + 1;
    all[label].sum_x = all[label].sum_x + x as u128;
    all[label].sum_y = all[label].sum_y + y as u128;
    let mut c: usize = 0;
    while c < channels
        invariant
            c <= channels,
            channels == image.spec_channels(),
            cols == image.spec_width(),
            w == cols,
            i == y * w + x,
            cells == image_cells(*image),
            y < image.spec_height(),
            x < image.spec_width(),
            label < old(all)@.len(),
            all@.len() == old(all)@.len(),
            labels@[i] == label,
            0 <= i < 0xffff_ffff * 0xffff_ffff,
            forall|k: int| 0 <= k < all@.len() && k != label ==> #[trigger] all@[k] == old(all)@[k],
            gathered(old(all)@[label as int], *image, labels@, label as int, i),
            all@[label as int].count == old(all)@[label as int].count + 1,
            all@[label as int].sum_x == old(all)@[label as int].sum_x + x,
            all@[label as int].sum_y == old(all)@[label as int].sum_y + y,
            all@[label as int].sums@.len() == channels,
            forall|d: int|
                0 <= d < c ==> #[trigger] all@[label as int].sums@[d] == old(all)@[label as int].sums@[d] + image.at(y as int, x as int, d),
            forall|d: int|
                c <= d < channels ==> #[trigger] all@[label as int].sums@[d] == old(all)@[label as int].sums@[d],
        decreases channels - c,
    {
        proof {
            lemma_region_bounds(cells, channels as int, labels@, label as int, c as int, i);
        }
        let value = image.get(y, x, c) as u128;
        let sum = all[label].sums[c] + value;
        all[label].sums[c] = sum;
        c = c + 1;
    }
    proof {
        assert forall|k: int| 0 <= k < all@.len() implies gathered(
            #[trigger] all@[k],
            *image,
            labels@,
            k,
            i + 1,
        ) by {
            assert(gathered(old(all)@[k], *image, labels@, k, i));
            let one = all@[k];
            assert forall|d: int| 0 <= d < channels implies #[trigger] one.sums@[d] == region_sum(
                cells,
                channels as int,
                labels@,
                k,
                d,
                i + 1,
            ) by {
                assert(old(all)@[k].sums@[d] == region_sum(
                    cells,
                    channels as int,
                    labels@,
                    k,
                    d,
                    i,
                ));
                assert(image.at(y as int, x as int, d) == cells[i * channels + d]);
            }
        }
    }
}

/// Moves every centre to the mean of the pixels that carry its label; a
/// centre without pixels stays where it is.
pub fn update_centres(centres: &mut Vec<Superpixel>, image: &Image, labels: &Vec<usize>)
    requires
        0 < image.spec_width() <= u32::MAX,
        0 < image.spec_height() <= u32::MAX,
        labels@.len() == image.spec_height() * image.spec_width(),
    ensures
        final(centres)@.len() == old(centres)@.len(),
        forall|k: int|
            0 <= k < old(centres)@.len() ==> (#[trigger] final(centres)@[k])@ == moved(
                *image,
                labels@,
                old(centres)@[k]@,
                k,
            ),
{
    let (rows, cols, channels) = image.dim();
    let count = centres.len();
    let ghost w = cols as int;
    let ghost cells = image_cells(*image);
    let mut all: Vec<Gathered> = Vec::new();
    let mut k: usize = 0;
    while k < count
        invariant
            k <= count,
            channels == image.spec_channels(),
            all@.len() == k,
            forall|j: int| 0 <= j < k ==> gathered(#[trigger] all@[j], *image, labels@, j, 0),
        decreases count - k,
    {
        all.push(Gathered { count: 0, sum_x: 0, sum_y: 0, sums: zero_sums(channels) });
        k = k + 1;
    }
    let mut y: usize = 0;
    while y < rows
        invariant
            y <= rows,
            rows == image.spec_height(),
            cols == image.spec_width(),
            channels == image.spec_channels(),
            w == cols,
            0 < cols <= u32::MAX,
            0 < rows <= u32::MAX,
            labels@.len() == rows * cols,
            all@.len() == count,
            forall|j: int| 0 <= j < count ==> gathered(#[trigger] all@[j], *image, labels@, j, y * w),
        decreases rows - y,
    {
        let mut x: usize = 0;
        while x < cols
            invariant
                y < rows,
                x <= cols,
                rows == image.spec_height(),
                cols == image.spec_width(),
                channels == image.spec_channels(),
                w == cols,
                0 < cols <= u32::MAX,
                0 < rows <= u32::MAX,
                labels@.len() == rows * cols,
                all@.len() == count,
                forall|j: int|
                    0 <= j < count ==> gathered(#[trigger] all@[j], *image, labels@, j, y * w + x),
            decreases cols - x,
        {
            proof {
                crate::utils::lemma_planar_bounds(rows as int, cols as int, 1, y as int, x as int, 0);
                assert((y * w + x) * 1 + 0 == y * w + x);
                assert(rows * cols * 1 == rows * cols) by (nonlinear_arith);
                assert(0 <= y * w) by (nonlinear_arith)
                    requires
                        0 <= y,
                        0 <= w,
                ;
            }
            let pixels = labels.len();
            let i: usize = y * cols + x;
            let label = labels[i];
            if label < count {
                gather_pixel(&mut all, image, labels, label, y, x);
            } else {
                proof {
                    assert forall|j: int| 0 <= j < count implies gathered(
                        #[trigger] all@[j],
                        *image,
                        labels@,
                        j,
                        y * w + x + 1,
                    ) by {
                        assert(gathered(all@[j], *image, labels@, j, y * w + x));
                    }
                }
            }
            x = x + 1;
        }
        proof {
            assert(y * w + w == (y + 1) * w) by (nonlinear_arith);
        }
        y = y + 1;
    }
    let ghost pixels = rows * cols;
    let mut k: usize = 0;
    while k < count
        invariant
            k <= count,
            rows == image.spec_height(),
            cols == image.spec_width(),
            channels == image.spec_channels(),
            w == cols,
            cells == image_cells(*image),
            0 < cols <= u32::MAX,
            0 < rows <= u32::MAX,
            pixels == rows * cols,
            labels@.len() == pixels,
            all@.len() == count,
            centres@.len() == count,
            old(centres)@.len() == count,
            forall|j: int|
                0 <= j < count ==> gathered(#[trigger] all@[j], *image, labels@, j, pixels),
            forall|j: int|
                0 <= j < k ==> (#[trigger] centres@[j])@ == moved(
                    *image,
                    labels@,
                    old(centres)@[j]@,
                    j,
                ),
            forall|j: int| k <= j < count ==> #[trigger] centres@[j] == old(centres)@[j],
        decreases count - k,
    {
        assert(gathered(all@[k as int], *image, labels@, k as int, pixels));
        let members = all[k].count;
        if members > 0 {
            proof {
                lemma_place_bounds(labels@, w, rows as int, k as int, pixels);
                let n = region_area(labels@, k as int, pixels);
                vstd::arithmetic::div_mod::lemma_div_is_ordered(
                    region_sum_x(labels@, w, k as int, pixels),
                    (w - 1) * n,
                    n,
                );
                vstd::arithmetic::div_mod::lemma_div_multiples_vanish(w - 1, n);
                vstd::arithmetic::div_mod::lemma_div_is_ordered(
                    region_sum_y(labels@, w, k as int, pixels),
                    (rows - 1) * n,
                    n,
                );
                vstd::arithmetic::div_mod::lemma_div_multiples_vanish(rows - 1, n);
                assert((w - 1) * n == n * (w - 1) && (rows - 1) * n == n * (rows - 1))
                    by (nonlinear_arith);
                vstd::arithmetic::div_mod::lemma_div_pos_is_pos(
                    region_sum_x(labels@, w, k as int, pixels),
                    n,
                );
                vstd::arithmetic::div_mod::lemma_div_pos_is_pos(
                    region_sum_y(labels@, w, k as int, pixels),
                    n,
                );
            }
            let x = (all[k].sum_x / (members as u128)) as u32;
            let y = (all[k].sum_y / (members as u128)) as u32;
            let mut data: Vec<u8> = Vec::new();
            let mut c: usize = 0;
            while c < channels
                invariant
                    c <= channels,
                    k < count,
                    all@.len() == count,
                    channels == image.spec_channels(),
                    cells == image_cells(*image),
                    members == all@[k as int].count,
                    members > 0,
                    0 <= pixels,
                    gathered(all@[k as int], *image, labels@, k as int, pixels),
                    data@.len() == c,
                    forall|d: int|
                        0 <= d < c ==> #[trigger] data@[d] == (region_sum(
                            cells,
                            channels as int,
                            labels@,
                            k as int,
                            d,
                            pixels,
                        ) / (members as int)) as u8,
                decreases channels - c,
            {
                proof {
                    lemma_region_bounds(cells, channels as int, labels@, k as int, c as int, pixels);
                    let n = members as int;
                    let total = region_sum(cells, channels as int, labels@, k as int, c as int, pixels);
                    vstd::arithmetic::div_mod::lemma_div_is_ordered(total, 255 * n, n);
                    vstd::arithmetic::div_mod::lemma_div_multiples_vanish(255, n);
                    assert(255 * n == n * 255);
                    vstd::arithmetic::div_mod::lemma_div_pos_is_pos(total, n);
                }
                let mean = all[k].sums[c] / (members as u128);
                data.push(mean as u8);
                c = c + 1;
            }
            proof {
                let target = moved(*image, labels@, old(centres)@[k as int]@, k as int);
                assert(data@ =~= target.data);
            }
            centres[k] = Superpixel { data, x, y };
        }
        k = k + 1;
    }
}

/// The centres, and the distance and label of every pixel, at some point
/// of the clustering.
pub struct Clustering {
    pub centres: Seq<Centre>,
    pub distances: Seq<u128>,
    pub labels: Seq<usize>,
}

impl Frame {
    /// One round of the clustering: every centre has its turn at the
    /// pixels, and then every centre moves to the mean of its pixels.
    pub open spec fn round(self, state: Clustering) -> Clustering {
        let width = self.image.spec_width() as int;
        let count = state.centres.len() as int;
        let labels = Seq::new(
            state.labels.len(),
            |i: int|
                self.held_label(
                    state.centres,
                    count,
                    i % width,
                    i / width,
                    state.distances[i] as int,
                    state.labels[i] as int,
                ) as usize,
        );
        Clustering {
            centres: Seq::new(
                state.centres.len(),
                |k: int| moved(self.image, labels, state.centres[k], k),
            ),
            distances: Seq::new(
                state.distances.len(),
                |i: int|
                    self.held_distance(
                        state.centres,
                        count,
                        i % width,
                        i / width,
                        state.distances[i] as int,
                    ) as u128,
            ),
            labels,
        }
    }

    /// The clustering after `count` rounds.
    pub open spec fn rounds(self, state: Clustering, count: int) -> Clustering
        decreases count,
    {
        if count <= 0 {
            state
        } else {
            self.round(self.rounds(state, count - 1))
        }
    }
}

/// Where a seed goes before the clustering starts: to the calmest pixel of
/// the three by three window around it, if the window has a pixel of the
/// image.
pub open spec fn perturbed(image: Image, centre: Centre) -> Centre {
    let place = calmest(image, centre.x, centre.y, 9);
    if place < 0 {
        centre
    } else {
        Centre {
            data: pixel_at(image, window_y(centre.y, place), window_x(centre.x, place)),
            x: window_x(centre.x, place),
            y: window_y(centre.y, place),
        }
    }
}

/// The clustering before the first round: the seeds of the image, each
/// moved to the calmest pixel around it, and every pixel unheld with label
/// zero.
pub open spec fn first_clustering(image: Image, s: int, k: int) -> Clustering {
    let positions = seed_positions(image, s, k);
    let pixels = image.spec_height() * image.spec_width();
    Clustering {
        centres: Seq::new(
            positions.len(),
            |t: int|
                perturbed(
                    image,
                    Centre {
                        data: pixel_at(image, positions[t].1, positions[t].0),
                        x: positions[t].0,
                        y: positions[t].1,
                    },
                ),
        ),
        distances: Seq::new(pixels, |i: int| UNHELD),
        labels: Seq::new(pixels, |i: int| 0usize),
    }
}

/// Why an image could not be clustered.
#[derive(Clone, Copy, Debug, PartialEq, Eq, Structural)]
pub enum SlicError {
    /// No superpixel was asked for.
    ZeroSuperpixelCount,
    /// More superpixels were asked for than the image has pixels, so that
    /// the grid interval is zero.
    ZeroGridInterval,
    /// The seeds could not be placed.
    Seed(SeedError),
}

/// The outcome of the clustering: the grid interval, the centres and the
/// label of every pixel, row by row.
pub struct Clusters {
    pub s: u32,
    pub centres: Vec<Superpixel>,
    pub labels: Vec<usize>,
}

/// A pixel's number gives its row and column.
pub proof fn lemma_pixel_place(i: int, width: int, height: int)
    requires
        0 < width,
        0 <= i < height * width,
    ensures
        0 <= i / width < height,
        0 <= i % width < width,
        (i / width) * width + i % width == i,
{
    vstd::arithmetic::div_mod::lemma_fundamental_div_mod(i, width);
    vstd::arithmetic::div_mod::lemma_mod_bound(i, width);
    vstd::arithmetic::div_mod::lemma_div_pos_is_pos(i, width);
    assert(i / width < height) by (nonlinear_arith)
        requires
            i == width * (i / width) + i % width,
            0 <= i % width,
            i < height * width,
            0 < width,
    ;
    assert(width * (i / width) == (i / width) * width) by (nonlinear_arith);
}

/// Whether the clustering takes the image and the number of superpixels:
/// the rows and columns of the image are at least one and fit 32 bits, and
/// at least one superpixel is asked for and no more than the image has
/// pixels.
pub open spec fn clusterable(image: Image, k: u32) -> bool {
    &&& 0 < image.spec_width() <= u32::MAX
    &&& 0 < image.spec_height() <= u32::MAX
    &&& 0 < k <= image.spec_height() * image.spec_width()
}

/// Clusters the pixels of an image around at most `k` centres: places and
/// perturbs the seeds, and then runs `rounds` rounds, in each of which
/// every pixel goes to the nearest centre in whose window it lies and
/// every centre moves to the mean of its pixels. The distance of a pixel to
/// a centre is their colour distance plus `(m / s)` squared times their
/// distance in the plane, where `s` is the grid interval.
pub fn slic_clusters(k: u32, m: u8, rounds: u8, image: &Image) -> (res: Result<Clusters, SlicError>)
    ensures
        res == Err::<Clusters, SlicError>(SlicError::Seed(SeedError::InvalidSeedCount))
            <==> image.spec_width() == 0 || image.spec_height() == 0,
        res == Err::<Clusters, SlicError>(SlicError::ZeroSuperpixelCount) <==> image.spec_width()
            > 0 && image.spec_height() > 0 && k == 0,
        res == Err::<Clusters, SlicError>(SlicError::ZeroGridInterval) <==> image.spec_width() > 0
            && image.spec_height() > 0 && k > 0 && image.spec_width() <= u32::MAX
            && image.spec_height() <= u32::MAX && image.spec_height() * image.spec_width() < k,
        res == Err::<Clusters, SlicError>(SlicError::Seed(SeedError::InvalidTotalSeeds))
            <==> image.spec_width() > 0 && image.spec_height() > 0 && k > 0 && (image.spec_width()
            > u32::MAX || image.spec_height() > u32::MAX || exists|s: int|
            s > 0 && #[trigger] is_grid_interval(
                s,
                image.spec_width() as int,
                image.spec_height() as int,
                k as int,
            ) && too_many_seeds(*image, s, k as int)),
        res != Err::<Clusters, SlicError>(SlicError::Seed(SeedError::PerturbConversion)),
        clusterable(*image, k) <==> res is Ok || res == Err::<Clusters, SlicError>(
            SlicError::Seed(SeedError::Allocation),
        ),
        res.is_ok() ==> {
            let clusters = res.unwrap();
            let frame = frame_of(*image, factor_of(m, clusters.s), clusters.s);
            let end = frame.rounds(first_clustering(*image, clusters.s as int, k as int), rounds as int);
            &&& clusters.s > 0
            &&& is_grid_interval(
                clusters.s as int,
                image.spec_width() as int,
                image.spec_height() as int,
                k as int,
            )
            &&& centres_of(clusters.centres@) == end.centres
            &&& clusters.labels@ == end.labels
            &&& clusters.labels@.len() == image.spec_height() * image.spec_width()
            &&& forall|i: int|
                0 <= i < clusters.labels@.len() ==> #[trigger] clusters.labels@[i] == 0
                    || clusters.labels@[i] < clusters.centres@.len()
            &&& 0 < image.spec_width() <= u32::MAX
            &&& 0 < image.spec_height() <= u32::MAX
        },
{
    let (rows, cols, channels) = image.dim();
    proof {
        // An image in memory has no more pixels than a machine word counts,
        // and no more seeds than pixels.
        assert(crate::raster::nonzero(rows as int) * crate::raster::nonzero(cols as int)
            <= isize::MAX) by (nonlinear_arith)
            requires
                crate::raster::nonzero(rows as int) * crate::raster::nonzero(cols as int)
                    * crate::raster::nonzero(channels as int) <= isize::MAX,
                crate::raster::nonzero(channels as int) >= 1,
                crate::raster::nonzero(rows as int) >= 1,
                crate::raster::nonzero(cols as int) >= 1,
        ;
        if clusterable(*image, k) {
            assert forall|s: int| s > 0 implies !too_many_seeds(*image, s, k as int) by {
                lemma_seeds_fit(*image, s, k as int);
            }
        }
    }
    if rows == 0 || cols == 0 {
        return Err(SlicError::Seed(SeedError::InvalidSeedCount));
    }
    if k == 0 {
        return Err(SlicError::ZeroSuperpixelCount);
    }
    if rows > u32::MAX as usize || cols > u32::MAX as usize {
        return Err(SlicError::Seed(SeedError::InvalidTotalSeeds));
    }
    let s = calculate_grid_interval(cols as u32, rows as u32, k);
    proof {
        lemma_grid_interval_unique(cols as int, rows as int, k as int, s as int);
        assert(rows * cols == cols * rows) by (nonlinear_arith);
    }
    if s == 0 {
        return Err(SlicError::ZeroGridInterval);
    }
    let factor = m_div_s(m, s);
    assert(m * m <= 65025) by (nonlinear_arith)
        requires
            0 <= m <= 255,
    ;
    assert(s * s <= 0xffff_ffff * 0xffff_ffff) by (nonlinear_arith)
        requires
            0 <= s <= 0xffff_ffff,
    ;
    assert(factor == factor_of(m, s));
    let ghost frame = frame_of(*image, factor, s);
    let mut centres: Vec<Superpixel> = Vec::new();
    match init_seeds(s, k, image, &mut centres) {
        Ok(_) => {},
        Err(e) => {
            return Err(SlicError::Seed(e));
        },
    }
    let ghost positions = seed_positions(*image, s as int, k as int);
    let ghost seeds = centres@;
    let mut t: usize = 0;
    while t < centres.len()
        invariant
            t <= centres@.len(),
            rows == image.spec_height(),
            cols == image.spec_width(),
            channels == image.spec_channels(),
            rows <= u32::MAX,
            cols <= u32::MAX,
            centres@.len() == seeds.len(),
            seeds_at(seeds, *image, positions),
            forall|j: int| t <= j < centres@.len() ==> #[trigger] centres@[j] == seeds[j],
            forall|j: int|
                0 <= j < t ==> (#[trigger] centres@[j])@ == perturbed(*image, seeds[j]@),
            forall|j: int| 0 <= j < t ==> (#[trigger] centres@[j]).data@.len() == channels,
        decreases centres@.len() - t,
    {
        let ghost before = centres@[t as int];
        assert(before.data@ == pixel_at(*image, positions[t as int].1, positions[t as int].0));
        proof {
            // The calmest pixel is a pixel of the image, whose rows and
            // columns fit 32 bits.
            lemma_calmest(*image, before.x as int, before.y as int, 9);
        }
        match perturb(&mut centres[t], image) {
            Ok(_) => {},
            Err(e) => {
                return Err(SlicError::Seed(e));
            },
        }
        t = t + 1;
    }
    proof {
        // An image in memory has no more pixels than a machine word counts.
        assert(crate::raster::nonzero(rows as int) * crate::raster::nonzero(cols as int)
            <= crate::raster::nonzero(rows as int) * crate::raster::nonzero(cols as int)
            * crate::raster::nonzero(channels as int)) by (nonlinear_arith)
            requires
                crate::raster::nonzero(channels as int) >= 1,
                crate::raster::nonzero(rows as int) * crate::raster::nonzero(cols as int) >= 0,
        ;
    }
    let pixels: usize = rows * cols;
    let mut info = SlicInfo { distances: Vec::new(), labels: Vec::new() };
    let mut i: usize = 0;
    while i < pixels
        invariant
            i <= pixels,
            info.distances@ == Seq::new(i as nat, |j: int| UNHELD),
            info.labels@ == Seq::new(i as nat, |j: int| 0usize),
        decreases pixels - i,
    {
        info.distances.push(UNHELD);
        info.labels.push(0);
        proof {
            assert(info.distances@ =~= Seq::new((i + 1) as nat, |j: int| UNHELD));
            assert(info.labels@ =~= Seq::new((i + 1) as nat, |j: int| 0usize));
        }
        i = i + 1;
    }
    let ghost first = first_clustering(*image, s as int, k as int);
    proof {
        assert(centres_of(centres@) =~= first.centres);
        assert(info.distances@ =~= first.distances);
        assert(info.labels@ =~= first.labels);
    }
    let mut round: u8 = 0;
    while round < rounds
        invariant
            round <= rounds,
            rows == image.spec_height(),
            cols == image.spec_width(),
            channels == image.spec_channels(),
            0 < rows <= u32::MAX,
            0 < cols <= u32::MAX,
            pixels == rows * cols,
            factor.0 <= 65025,
            frame == frame_of(*image, factor, s),
            info.distances@.len() == pixels,
            info.labels@.len() == pixels,
            forall|j: int| 0 <= j < centres@.len() ==> (#[trigger] centres@[j]).data@.len() == channels,
            centres_of(centres@) == frame.rounds(first, round as int).centres,
            info.distances@ == frame.rounds(first, round as int).distances,
            info.labels@ == frame.rounds(first, round as int).labels,
            forall|i: int|
                0 <= i < pixels ==> #[trigger] info.labels@[i] == 0 || info.labels@[i]
                    < centres@.len(),
        decreases rounds - round,
    {
        let ghost state = frame.rounds(first, round as int);
        let ghost old_d = info.distances@;
        let ghost old_l = info.labels@;
        let ghost old_c = centres@;
        assign(&mut info, image, factor, s, &centres);
        update_centres(&mut centres, image, &info.labels);
        proof {
            let next = frame.round(state);
            let w = cols as int;
            assert forall|i: int| 0 <= i < pixels implies info.distances@[i] == next.distances[i] by {
                lemma_pixel_place(i, w, rows as int);
                assert(distance_at(info.distances@, w, i / w, i % w) == info.distances@[i]);
                assert(distance_at(old_d, w, i / w, i % w) == old_d[i]);
                lemma_held(frame, state.centres, state.centres.len() as int, i % w, i / w, old_d[i] as int, 0);
                lemma_held_nonnegative(frame, *image, factor, s, old_c, i % w, i / w, old_d[i] as int, old_c.len() as int);
            }
            assert(info.distances@ =~= next.distances);
            assert forall|i: int| 0 <= i < pixels implies info.labels@[i] == next.labels[i] by {
                lemma_pixel_place(i, w, rows as int);
                assert(label_at(info.labels@, w, i / w, i % w) == info.labels@[i]);
                assert(label_at(old_l, w, i / w, i % w) == old_l[i]);
                assert(distance_at(old_d, w, i / w, i % w) == old_d[i]);
                lemma_held_label_range(frame, state.centres, state.centres.len() as int, i % w, i / w, old_d[i] as int, old_l[i] as int);
            }
            assert(info.labels@ =~= next.labels);
            assert forall|i: int| 0 <= i < pixels implies #[trigger] info.labels@[i] == 0
                || info.labels@[i] < centres@.len() by {
                lemma_pixel_place(i, w, rows as int);
                lemma_held_label_range(frame, state.centres, state.centres.len() as int, i % w, i / w, old_d[i] as int, old_l[i] as int);
                assert(old_l[i] == 0 || old_l[i] < old_c.len());
            }
            assert forall|j: int| 0 <= j < centres@.len() implies centres_of(centres@)[j]
                == next.centres[j] by {
                assert(centres@[j]@ == moved(*image, info.labels@, old_c[j]@, j));
                assert(state.centres[j] == old_c[j]@);
            }
            assert(centres_of(centres@) =~= next.centres);
            assert forall|j: int| 0 <= j < centres@.len() implies (#[trigger] centres@[j]).data@.len()
                == channels by {
                assert(centres@[j]@ == moved(*image, info.labels@, old_c[j]@, j));
                assert(old_c[j].data@.len() == channels);
            }
        }
        round = round + 1;
    }
    Ok(Clusters { s, centres, labels: info.labels })
}

/// The grid interval of an image and a number of superpixels is unique.
pub proof fn lemma_grid_interval_unique(width: int, height: int, k: int, s: int)
    requires
        0 < k,
        is_grid_interval(s, width, height, k),
    ensures
        forall|t: int| #[trigger] is_grid_interval(t, width, height, k) ==> t == s,
        s == 0 <==> width * height < k,
{
    assert forall|t: int| #[trigger] is_grid_interval(t, width, height, k) implies t == s by {
        if t < s {
            assert((t + 1) * (t + 1) * k <= s * s * k) by (nonlinear_arith)
                requires
                    0 <= t,
                    t + 1 <= s,
                    0 < k,
            ;
        } else if s < t {
            assert((s + 1) * (s + 1) * k <= t * t * k) by (nonlinear_arith)
                requires
                    0 <= s,
                    s + 1 <= t,
                    0 < k,
            ;
        }
    }
    assert((0 + 1) * (0 + 1) * k == k) by (nonlinear_arith);
    if s > 0 {
        assert(s * s * k >= k) by (nonlinear_arith)
            requires
                s >= 1,
                k > 0,
        ;
    }
}

/// The distance a pixel is held at stays in range.
proof fn lemma_held_nonnegative(
    frame: Frame,
    image: Image,
    factor: (u64, u64),
    s: u32,
    centres: Seq<Superpixel>,
    x: int,
    y: int,
    held: int,
    upto: int,
)
    requires
        frame == frame_of(image, factor, s),
        factor.0 <= 65025,
        0 <= x <= u32::MAX,
        0 <= y <= u32::MAX,
        0 <= held <= UNHELD,
        0 <= upto <= centres.len(),
    ensures
        0 <= frame.held_distance(centres_of(centres), upto, x, y, held) <= UNHELD,
    decreases upto,
{
    if upto > 0 {
        lemma_held_nonnegative(frame, image, factor, s, centres, x, y, held, upto - 1);
        lemma_distance_range(image, factor, s, centres[upto - 1]@, x, y);
    }
}

/// The label a pixel is held by is the label it had or the number of a
/// centre.
proof fn lemma_held_label_range(
    frame: Frame,
    centres: Seq<Centre>,
    upto: int,
    x: int,
    y: int,
    held: int,
    label: int,
)
    requires
        0 <= upto,
    ensures
        frame.held_label(centres, upto, x, y, held, label) == label || 0 <= frame.held_label(
            centres,
            upto,
            x,
            y,
            held,
            label,
        ) < upto,
    decreases upto,
{
    if upto > 0 {
        lemma_held_label_range(frame, centres, upto - 1, x, y, held, label);
    }
}

/// The number of rounds of a clustering for which no number is given.
pub const DEFAULT_ROUNDS: u8 = 10;

/// The number of rounds of a clustering.
pub open spec fn rounds_of(iter: Option<u8>) -> int {
    match iter {
        Some(rounds) => rounds as int,
        None => DEFAULT_ROUNDS as int,
    }
}

/// Where the labels of a picture are the numbers below `count`, the
/// largest label is `count - 1`.
pub proof fn lemma_largest_of_contiguous(labels: Seq<usize>, width: int, height: int, count: int)
    requires
        0 < width,
        0 < height,
        labels.len() == height * width,
        contiguous(labels, width, height, count),
    ensures
        count >= 1,
        max_label(labels, labels.len() as int) == count - 1,
{
    let pixels = labels.len() as int;
    lemma_max_label_bounds(labels, pixels);
    assert(pixels >= 1) by (nonlinear_arith)
        requires
            pixels == height * width,
            width >= 1,
            height >= 1,
    ;
    let top = choose|i: int| 0 <= i < pixels && labels[i] == max_label(labels, pixels);
    lemma_pixel_place(top, width, height);
    assert(label_at(labels, width, top / width, top % width) == labels[top]);
    assert(0 <= label_at(labels, width, 0, 0) < count);
    assert(crate::connectivity::occurs(labels, width, height, count - 1));
    let (y, x) = choose|y: int, x: int|
        inside(width, height, y, x) && #[trigger] label_at(labels, width, y, x) == count - 1;
    crate::utils::lemma_planar_bounds(height, width, 1, y, x, 0);
    assert(height * width * 1 == height * width) by (nonlinear_arith);
    assert(labels[y * width + x] <= max_label(labels, pixels));
}

/// Whether `cells` are the superpixel labels of an image for the grid
/// interval `s`: the labels of the clustering after the given number of
/// rounds, made connected and numbered anew. No connected piece of a
/// cluster is split by this.
pub open spec fn superpixels(image: Image, k: u32, m: u8, rounds: int, s: int, cells: Seq<usize>) -> bool {
    let width = image.spec_width() as int;
    let height = image.spec_height() as int;
    let clustered = frame_of(image, factor_of(m, s as u32), s as u32).rounds(
        first_clustering(image, s, k as int),
        rounds,
    ).labels;
    &&& cells == scan_rows(clustered, width, height, s, height).labels
    &&& unsplit(clustered, cells, width, height)
}

/// Labels that are the numbers below their count are no more than the
/// pixels: the largest label lies below the number of pixels.
pub proof fn lemma_count_within(labels: Seq<usize>, width: int, height: int)
    requires
        0 < width,
        0 < height,
        labels.len() == height * width,
        contiguous(labels, width, height, max_label(labels, labels.len() as int) + 1),
    ensures
        max_label(labels, labels.len() as int) < labels.len(),
{
    let pixels = labels.len() as int;
    let count = max_label(labels, pixels) + 1;
    // Every label below the count is the label of a pixel of its own.
    let places = Seq::new(
        count as nat,
        |label: int|
            {
                let p = choose|p: (int, int)|
                    inside(width, height, p.0, p.1) && label_at(labels, width, p.0, p.1) == label;
                p.0 * width + p.1
            },
    );
    lemma_max_label_bounds(labels, pixels);
    assert forall|label: int| 0 <= label < count implies 0 <= #[trigger] places[label] < pixels
        && labels[places[label]] == label by {
        assert(crate::connectivity::occurs(labels, width, height, label));
        let (y, x) = choose|y: int, x: int|
            inside(width, height, y, x) && #[trigger] label_at(labels, width, y, x) == label;
        let witness = (y, x);
        assert(inside(width, height, witness.0, witness.1) && label_at(
            labels,
            width,
            witness.0,
            witness.1,
        ) == label);
        let p = choose|p: (int, int)|
            inside(width, height, p.0, p.1) && label_at(labels, width, p.0, p.1) == label;
        crate::utils::lemma_planar_bounds(height, width, 1, p.0, p.1, 0);
        assert(height * width * 1 == height * width) by (nonlinear_arith);
    }
    assert(places.no_duplicates()) by {
        assert forall|i: int, j: int|
            0 <= i < places.len() && 0 <= j < places.len() && i != j implies places[i]
            != places[j] by {
            assert(labels[places[i]] == i);
            assert(labels[places[j]] == j);
        }
    }
    places.unique_seq_to_set();
    vstd::set_lib::lemma_int_range(0, pixels);
    assert(places.to_set().subset_of(vstd::set_lib::set_int_range(0, pixels))) by {
        assert forall|i: int| places.to_set().contains(i) implies vstd::set_lib::set_int_range(
            0,
            pixels,
        ).contains(i) by {
            let k = choose|k: int| 0 <= k < places.len() && places[k] == i;
            assert(0 <= places[k] < pixels);
        }
    }
    vstd::set_lib::lemma_len_subset(places.to_set(), vstd::set_lib::set_int_range(0, pixels));
}

/// Segments an image into superpixels: clusters its pixels around at most
/// `k` centres with compactness `m` in the given number of rounds (ten
/// where none is given), and then makes every label one connected region,
/// with the labels numbered from zero without gaps.
///
/// No connected piece of a cluster is split, but a small piece may join a
/// label beside it.
pub fn slic(k: u32, m: u8, iter: Option<u8>, image: &Image) -> (res: Result<LabelMap, SlicError>)
    ensures
        res == Err::<LabelMap, SlicError>(SlicError::Seed(SeedError::InvalidSeedCount))
            <==> image.spec_width() == 0 || image.spec_height() == 0,
        res == Err::<LabelMap, SlicError>(SlicError::ZeroSuperpixelCount) <==> image.spec_width()
            > 0 && image.spec_height() > 0 && k == 0,
        res == Err::<LabelMap, SlicError>(SlicError::ZeroGridInterval) <==> image.spec_width() > 0
            && image.spec_height() > 0 && k > 0 && image.spec_width() <= u32::MAX
            && image.spec_height() <= u32::MAX && image.spec_height() * image.spec_width() < k,
        res == Err::<LabelMap, SlicError>(SlicError::Seed(SeedError::InvalidTotalSeeds))
            <==> image.spec_width() > 0 && image.spec_height() > 0 && k > 0 && (image.spec_width()
            > u32::MAX || image.spec_height() > u32::MAX || exists|s: int|
            s > 0 && #[trigger] is_grid_interval(
                s,
                image.spec_width() as int,
                image.spec_height() as int,
                k as int,
            ) && too_many_seeds(*image, s, k as int)),
        res != Err::<LabelMap, SlicError>(SlicError::Seed(SeedError::PerturbConversion)),
        clusterable(*image, k) <==> res is Ok || res == Err::<LabelMap, SlicError>(
            SlicError::Seed(SeedError::Allocation),
        ),
        res.is_ok() ==> {
            let map = res.unwrap();
            let cells = label_cells(map);
            let width = image.spec_width() as int;
            let height = image.spec_height() as int;
            &&& map.spec_height() == height
            &&& map.spec_width() == width
            &&& cells.len() == height * width
            &&& contiguous(cells, width, height, max_label(cells, cells.len() as int) + 1)
            &&& connected(cells, width, height)
            &&& exists|s: int|
                #![trigger is_grid_interval(s, width, height, k as int)]
                0 < s <= u32::MAX && is_grid_interval(s, width, height, k as int) && superpixels(
                    *image,
                    k,
                    m,
                    rounds_of(iter),
                    s,
                    cells,
                )
        },
{
    let rounds = match iter {
        Some(rounds) => rounds,
        None => DEFAULT_ROUNDS,
    };
    let clusters = match slic_clusters(k, m, rounds, image) {
        Ok(clusters) => clusters,
        Err(e) => {
            return Err(e);
        },
    };
    let (rows, cols, channels) = image.dim();
    let s = clusters.s;
    let centres = clusters.centres.len();
    let mut labels = clusters.labels;
    let ghost clustered = labels@;
    assert forall|i: int| 0 <= i < labels@.len() implies #[trigger] labels@[i]
        != crate::connectivity::UNSET by {
        assert(labels@[i] == 0 || labels@[i] < centres);
    }
    let count = enforce_connectivity(cols as u32, rows as u32, s, &mut labels);
    proof {
        lemma_largest_of_contiguous(labels@, cols as int, rows as int, count as int);
        assert(nonzero(rows as int) * nonzero(cols as int) <= nonzero(rows as int) * nonzero(
            cols as int,
        ) * nonzero(channels as int)) by (nonlinear_arith)
            requires
                nonzero(channels as int) >= 1,
                nonzero(rows as int) * nonzero(cols as int) >= 0,
        ;
        assert(is_grid_interval(s as int, cols as int, rows as int, k as int));
    }
    match LabelMap::from_shape_vec(rows, cols, labels) {
        Ok(map) => Ok(map),
        // The labels are as many as the image has pixels.
        Err(_) => vstd::pervasive::unreached(),
    }
}

} // verus!
