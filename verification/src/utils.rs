use crate::raster::{image_cells, shape_accepts, Image, InputShapeError};
use vstd::prelude::*;

verus! {

/// The position of channel `c` of the pixel in row `y`, column `x` in a
/// buffer that holds an image channel by channel, each channel row by row.
pub open spec fn planar_index(height: int, width: int, y: int, x: int, c: int) -> int {
    (c * height + y) * width + x
}

/// The cells of a pixel have their places in both layouts of an image
/// buffer.
pub proof fn lemma_planar_bounds(height: int, width: int, channels: int, y: int, x: int, c: int)
    requires
        0 <= y < height,
        0 <= x < width,
        0 <= c < channels,
    ensures
        0 <= planar_index(height, width, y, x, c) < height * width * channels,
        0 <= (y * width + x) * channels + c < height * width * channels,
{
    lemma_planar_index(height, width, channels, y, x, c);
}

/// Different cells of an image lie at different places of its buffer.
pub proof fn lemma_cells_apart(width: int, channels: int, i: int, j: int, c: int, y: int, x: int)
    requires
        0 <= i,
        0 <= y,
        0 <= j < width,
        0 <= x < width,
        0 <= c < channels,
        i != y || j != x,
    ensures
        forall|d: int|
            0 <= d < channels ==> (i * width + j) * channels + c != #[trigger] ((y * width + x)
                * channels + d),
{
    assert forall|d: int| 0 <= d < channels implies (i * width + j) * channels + c != #[trigger] ((y
        * width + x) * channels + d) by {
        if i < y || (i == y && j < x) {
            lemma_cell_before(width, channels, i, j, c, y, x, 0);
        } else {
            lemma_cell_before(width, channels, y, x, d, i, j, 0);
        }
    }
}

proof fn lemma_planar_index(height: int, width: int, channels: int, y: int, x: int, c: int)
    requires
        0 <= y < height,
        0 <= x < width,
        0 <= c < channels,
    ensures
        0 <= planar_index(height, width, y, x, c) < height * width * channels,
        0 <= (y * width + x) * channels + c < height * width * channels,
{
    assert((c * height + y) * width + x < channels * height * width && (c * height + y) * width
        + x >= 0) by (nonlinear_arith)
        requires
            0 <= y < height,
            0 <= x < width,
            0 <= c < channels,
    {
        assert(c * height + y <= (channels - 1) * height + (height - 1));
        assert((c * height + y) * width <= ((channels - 1) * height + (height - 1)) * width);
        assert(((channels - 1) * height + (height - 1)) * width + width == channels * height
            * width);
    }
    assert(channels * height * width == height * width * channels) by (nonlinear_arith);
    assert((y * width + x) * channels + c < height * width * channels && (y * width + x)
        * channels + c >= 0) by (nonlinear_arith)
        requires
            0 <= y < height,
            0 <= x < width,
            0 <= c < channels,
    {
        assert(y * width + x <= (height - 1) * width + (width - 1));
        assert((y * width + x) * channels <= ((height - 1) * width + (width - 1)) * channels);
        assert(((height - 1) * width + (width - 1)) * channels + channels == height * width
            * channels);
    }
}

/// Makes an image from a buffer that holds it channel by channel, each
/// channel row by row.
///
/// Fails when the buffer's length is not `channels * height * width`.
pub fn image_from_planes(data: &Vec<u8>, width: usize, height: usize, channels: usize) -> (res:
    Result<Image, InputShapeError>)
    ensures
        res.is_ok() <==> shape_accepts(
            height as int,
            width as int,
            channels as int,
            data@.len() as int,
        ),
        res.is_ok() ==> {
            let image = res.unwrap();
            &&& image.spec_height() == height
            &&& image.spec_width() == width
            &&& image.spec_channels() == channels
            &&& forall|y: int, x: int, c: int|
                0 <= y < height && 0 <= x < width && 0 <= c < channels ==> #[trigger] image.at(
                    y,
                    x,
                    c,
                ) == data@[planar_index(height as int, width as int, y, x, c)]
        },
{
    // The length of the buffer must be the product of the three sizes.
    let len = data.len();
    let plane = match height.checked_mul(width) {
        Some(plane) => plane,
        None => {
            proof {
                lemma_product_exceeds(height as int, width as int, channels as int, data@.len() as int);
            }
            return Err(InputShapeError);
        },
    };
    let total = match plane.checked_mul(channels) {
        Some(total) => total,
        None => {
            proof {
                lemma_product_exceeds(height as int, width as int, channels as int, data@.len() as int);
            }
            return Err(InputShapeError);
        },
    };
    if total != len {
        return Err(InputShapeError);
    }
    let mut cells: Vec<u8> = Vec::new();
    let mut y: usize = 0;
    assert(0 * width * channels == 0) by (nonlinear_arith);
    while y < height
        invariant
            y <= height,
            total == height * width * channels,
            total == data@.len(),
            cells@.len() == y * width * channels,
            forall|i: int, j: int, c: int|
                0 <= i < y && 0 <= j < width && 0 <= c < channels ==> cells@[(i * width + j)
                    * channels + c] == data@[#[trigger] planar_index(
                    height as int,
                    width as int,
                    i,
                    j,
                    c,
                )],
        decreases height - y,
    {
        let mut x: usize = 0;
        while x < width
            invariant
                y < height,
                x <= width,
                total == height * width * channels,
                total == data@.len(),
                cells@.len() == (y * width + x) * channels,
                forall|i: int, j: int, c: int|
                    (0 <= i < y && 0 <= j < width || i == y && 0 <= j < x) && 0 <= c < channels
                        ==> cells@[(i * width + j) * channels + c] == data@[#[trigger] planar_index(
                        height as int,
                        width as int,
                        i,
                        j,
                        c,
                    )],
            decreases width - x,
        {
            let mut c: usize = 0;
            while c < channels
                invariant
                    y < height,
                    x < width,
                    c <= channels,
                    total == height * width * channels,
                    total == data@.len(),
                    cells@.len() == (y * width + x) * channels + c,
                    forall|i: int, j: int, d: int|
                        ((0 <= i < y && 0 <= j < width || i == y && 0 <= j < x) && 0 <= d
                            < channels) || (i == y && j == x && 0 <= d < c) ==> cells@[(i * width
                            + j) * channels + d] == data@[#[trigger] planar_index(
                            height as int,
                            width as int,
                            i,
                            j,
                            d,
                        )],
                decreases channels - c,
            {
                proof {
                    lemma_planar_index(
                        height as int,
                        width as int,
                        channels as int,
                        y as int,
                        x as int,
                        c as int,
                    );
                }
                let ghost before = cells@;
                proof {
                    assert(0 <= c * height && c * height + y < channels * height && (c * height
                        + y) * width + x < channels * height * width && 0 <= (c * height + y)
                        * width && channels * height <= channels * height * width)
                        by (nonlinear_arith)
                        requires
                            0 <= y < height,
                            0 <= x < width,
                            0 <= c < channels,
                    {
                        assert(c * height + y <= (channels - 1) * height + (height - 1));
                        assert((c * height + y) * width <= ((channels - 1) * height + (height - 1))
                            * width);
                        assert(((channels - 1) * height + (height - 1)) * width + width
                            == channels * height * width);
                    }
                    assert(channels * height * width == height * width * channels)
                        by (nonlinear_arith);
                }
                let source = (c * height + y) * width + x;
                cells.push(data[source]);
                proof {
                    assert forall|i: int, j: int, d: int|
                        ((0 <= i < y && 0 <= j < width || i == y && 0 <= j < x) && 0 <= d
                            < channels) || (i == y && j == x && 0 <= d < c
                            + 1) implies cells@[(i * width + j) * channels + d]
                        == data@[#[trigger] planar_index(height as int, width as int, i, j, d)] by {
                        if i == y && j == x && d == c {
                        } else {
                            lemma_cell_before(
                                width as int,
                                channels as int,
                                i,
                                j,
                                d,
                                y as int,
                                x as int,
                                c as int,
                            );
                            assert(cells@[(i * width + j) * channels + d] == before[(i * width + j)
                                * channels + d]);
                        }
                    }
                }
                c = c + 1;
            }
            proof {
                assert((y * width + x) * channels + channels == (y * width + (x + 1)) * channels)
                    by (nonlinear_arith);
            }
            x = x + 1;
        }
        proof {
            assert((y * width + width) * channels == (y + 1) * width * channels)
                by (nonlinear_arith);
            assert((y * width + 0) * channels == y * width * channels);
        }
        y = y + 1;
    }
    let ghost filled = cells@;
    match Image::from_shape_vec(height, width, channels, cells) {
        Ok(image) => {
            proof {
                assert forall|i: int, j: int, c: int|
                    0 <= i < height && 0 <= j < width && 0 <= c < channels implies #[trigger] image.at(
                    i,
                    j,
                    c,
                ) == data@[planar_index(height as int, width as int, i, j, c)] by {
                    assert(filled[(i * width + j) * channels + c] == data@[planar_index(
                        height as int,
                        width as int,
                        i,
                        j,
                        c,
                    )]);
                }
            }
            Ok(image)
        },
        Err(e) => Err(e),
    }
}

/// An earlier cell lies before a later one in row-major order.
proof fn lemma_cell_before(
    width: int,
    channels: int,
    i: int,
    j: int,
    d: int,
    y: int,
    x: int,
    c: int,
)
    requires
        0 <= i,
        0 <= j < width,
        0 <= d < channels,
        0 <= x < width,
        0 <= c <= channels,
        i < y || (i == y && j < x) || (i == y && j == x && d < c),
    ensures
        0 <= (i * width + j) * channels + d < (y * width + x) * channels + c,
{
    assert(i * width + j <= y * width + x) by (nonlinear_arith)
        requires
            0 <= i,
            0 <= j < width,
            0 <= x < width,
            i < y || (i == y && j <= x),
    ;
    assert(0 <= i * width + j) by (nonlinear_arith)
        requires
            0 <= i,
            0 <= j,
            0 <= width,
    ;
    if i * width + j < y * width + x {
        assert((i * width + j) * channels + d < (y * width + x) * channels) by (nonlinear_arith)
            requires
                i * width + j < y * width + x,
                0 <= d < channels,
        ;
    } else {
        assert(i * width + j == y * width + x);
        assert(i == y && j == x) by (nonlinear_arith)
            requires
                i * width + j == y * width + x,
                0 <= j < width,
                0 <= x < width,
                i < y || (i == y && j <= x),
        ;
    }
    assert(0 <= (i * width + j) * channels) by (nonlinear_arith)
        requires
            0 <= i * width + j,
            0 <= channels,
    ;
}

/// A product of sizes that leaves the machine word is not the length of a
/// buffer that an array accepts.
proof fn lemma_product_exceeds(height: int, width: int, channels: int, len: int)
    requires
        0 <= height,
        0 <= width,
        0 <= channels,
        0 <= len <= usize::MAX,
        height * width > usize::MAX || height * width * channels > usize::MAX,
    ensures
        !shape_accepts(height, width, channels, len),
{
    if height * width * channels <= usize::MAX {
        assert(height * width <= height * width * channels || channels == 0) by (nonlinear_arith)
            requires
                0 <= height * width,
                0 <= channels,
        ;
        assert(channels == 0);
        assert(height >= 1 && width >= 1);
        assert(crate::raster::nonzero(height) * crate::raster::nonzero(width)
            * crate::raster::nonzero(channels) == height * width) by (nonlinear_arith)
            requires
                height >= 1,
                width >= 1,
                channels == 0,
                crate::raster::nonzero(height) == height,
                crate::raster::nonzero(width) == width,
                crate::raster::nonzero(channels) == 1,
        ;
    }
}

/// Sets the first three channels of the pixel in row `y`, column `x` to
/// zero.
pub fn blacken(image: &mut Image, y: usize, x: usize)
    requires
        y < old(image).spec_height(),
        x < old(image).spec_width(),
        old(image).spec_channels() == 3,
    ensures
        final(image).spec_height() == old(image).spec_height(),
        final(image).spec_width() == old(image).spec_width(),
        final(image).spec_channels() == old(image).spec_channels(),
        forall|i: int, j: int, c: int|
            0 <= i < old(image).spec_height() && 0 <= j < old(image).spec_width() && 0 <= c < 3
                ==> #[trigger] final(image).at(i, j, c) == if i == y && j == x {
                0u8
            } else {
                old(image).at(i, j, c)
            },
{
    let (rows, cols, _channels) = image.dim();
    let ghost width = image.spec_width() as int;
    let ghost first = image_cells(*image);
    image.set(y, x, 0, 0);
    image.set(y, x, 1, 0);
    image.set(y, x, 2, 0);
    proof {
        let here = (y * width + x) * 3;
        assert(image_cells(*image) == first.update(here + 0, 0u8).update(here + 1, 0u8).update(
            here + 2,
            0u8,
        ));
        assert forall|i: int, j: int, c: int|
            0 <= i < old(image).spec_height() && 0 <= j < old(image).spec_width() && 0 <= c
                < 3 implies #[trigger] image.at(i, j, c) == if i == y && j == x {
            0u8
        } else {
            old(image).at(i, j, c)
        } by {
            lemma_planar_index(
                old(image).spec_height() as int,
                width,
                3,
                y as int,
                x as int,
                0,
            );
            lemma_planar_index(old(image).spec_height() as int, width, 3, i, j, c);
            assert(first.len() == rows * cols * 3);
            if i == y && j == x {
            } else {
                lemma_cells_apart(width, 3, i, j, c, y as int, x as int);
                assert((i * width + j) * 3 + c != (y * width + x) * 3 + 0);
                assert((i * width + j) * 3 + c != (y * width + x) * 3 + 1);
                assert((i * width + j) * 3 + c != (y * width + x) * 3 + 2);
            }
        }
    }
}

/// Byte `c` of the pixel in row `y`, column `x` of a bitmap that holds four
/// bytes per pixel, pixel by pixel, row by row.
pub open spec fn bitmap_at(bitmap: Seq<u8>, width: int, y: int, x: int, c: int) -> u8 {
    bitmap[4 * (y * width + x) + c]
}

/// The red, green, blue and alpha bytes of an image pixel by pixel, row by
/// row: the first three channels of each pixel, followed by 255.
pub fn array_to_rgba_bitmap(input: &Image) -> (output: Vec<u8>)
    requires
        input.spec_channels() >= 3,
    ensures
        output@.len() == 4 * (input.spec_height() * input.spec_width()),
        forall|y: int, x: int, c: int|
            0 <= y < input.spec_height() && 0 <= x < input.spec_width() && 0 <= c < 3
                ==> #[trigger] bitmap_at(output@, input.spec_width() as int, y, x, c) == input.at(
                y,
                x,
                c,
            ),
        forall|y: int, x: int|
            0 <= y < input.spec_height() && 0 <= x < input.spec_width() ==> #[trigger] bitmap_at(
                output@,
                input.spec_width() as int,
                y,
                x,
                3,
            ) == 255,
{
    let (height, width, _channels) = input.dim();
    let mut output: Vec<u8> = Vec::new();
    let mut y: usize = 0;
    while y < height
        invariant
            y <= height,
            height == input.spec_height(),
            width == input.spec_width(),
            input.spec_channels() >= 3,
            output@.len() == 4 * (y * width),
            forall|i: int, j: int, c: int|
                0 <= i < y && 0 <= j < width && 0 <= c < 3 ==> #[trigger] bitmap_at(
                    output@,
                    width as int,
                    i,
                    j,
                    c,
                ) == input.at(i, j, c),
            forall|i: int, j: int|
                0 <= i < y && 0 <= j < width ==> #[trigger] bitmap_at(output@, width as int, i, j, 3)
                    == 255,
        decreases height - y,
    {
        let mut x: usize = 0;
        while x < width
            invariant
                y < height,
                x <= width,
                height == input.spec_height(),
                width == input.spec_width(),
                input.spec_channels() >= 3,
                output@.len() == 4 * (y * width + x),
                forall|i: int, j: int, c: int|
                    (0 <= i < y && 0 <= j < width || i == y && 0 <= j < x) && 0 <= c < 3
                        ==> #[trigger] bitmap_at(output@, width as int, i, j, c) == input.at(
                        i,
                        j,
                        c,
                    ),
                forall|i: int, j: int|
                    (0 <= i < y && 0 <= j < width || i == y && 0 <= j < x) ==> #[trigger] bitmap_at(
                        output@,
                        width as int,
                        i,
                        j,
                        3,
                    ) == 255,
            decreases width - x,
        {
            let ghost before = output@;
            output.push(input.get(y, x, 0));
            output.push(input.get(y, x, 1));
            output.push(input.get(y, x, 2));
            output.push(255);
            proof {
                assert forall|i: int, j: int, c: int|
                    (0 <= i < y && 0 <= j < width || i == y && 0 <= j < x + 1) && 0 <= c
                        < 3 implies #[trigger] bitmap_at(output@, width as int, i, j, c)
                    == input.at(i, j, c) by {
                    if !(i == y && j == x) {
                        lemma_cell_before(width as int, 4, i, j, 3, y as int, x as int, 0);
                        assert(bitmap_at(output@, width as int, i, j, c) == bitmap_at(
                            before,
                            width as int,
                            i,
                            j,
                            c,
                        ));
                    }
                }
                assert forall|i: int, j: int|
                    (0 <= i < y && 0 <= j < width || i == y && 0 <= j < x
                        + 1) implies #[trigger] bitmap_at(output@, width as int, i, j, 3) == 255 by {
                    if !(i == y && j == x) {
                        lemma_cell_before(width as int, 4, i, j, 3, y as int, x as int, 0);
                        assert(bitmap_at(output@, width as int, i, j, 3) == bitmap_at(
                            before,
                            width as int,
                            i,
                            j,
                            3,
                        ));
                    }
                }
            }
            x = x + 1;
        }
        proof {
            assert(4 * (y * width + width) == 4 * ((y + 1) * width)) by (nonlinear_arith);
        }
        y = y + 1;
    }
    output
}

} // verus!
