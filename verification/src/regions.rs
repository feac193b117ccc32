use vstd::prelude::*;

verus! {

/// How many of the first `upto` pixels carry `label`.
pub open spec fn region_area(labels: Seq<usize>, label: int, upto: int) -> int
    decreases upto,
{
    if upto <= 0 {
        0
    } else {
        region_area(labels, label, upto - 1) + if labels[upto - 1] == label {
            1int
        } else {
            0int
        }
    }
}

/// The sum of channel `c` over those of the first `upto` pixels that carry
/// `label`.
pub open spec fn region_sum(
    cells: Seq<u8>,
    channels: int,
    labels: Seq<usize>,
    label: int,
    c: int,
    upto: int,
) -> int
    decreases upto,
{
    if upto <= 0 {
        0
    } else {
        region_sum(cells, channels, labels, label, c, upto - 1) + if labels[upto - 1] == label {
            cells[(upto - 1) * channels + c] as int
        } else {
            0int
        }
    }
}

/// The sum of the squares of channel `c` over those of the first `upto`
/// pixels that carry `label`.
pub open spec fn region_sum_sq(
    cells: Seq<u8>,
    channels: int,
    labels: Seq<usize>,
    label: int,
    c: int,
    upto: int,
) -> int
    decreases upto,
{
    if upto <= 0 {
        0
    } else {
        region_sum_sq(cells, channels, labels, label, c, upto - 1) + if labels[upto - 1] == label {
            (cells[(upto - 1) * channels + c] as int) * (cells[(upto - 1) * channels + c] as int)
        } else {
            0int
        }
    }
}

/// Whether the pixel at `(y, x)` has, in the direction `(dy, dx)`, the
/// image's edge or a pixel of another label.
pub open spec fn side_open(
    labels: Seq<usize>,
    height: int,
    width: int,
    y: int,
    x: int,
    dy: int,
    dx: int,
) -> bool {
    !(0 <= y + dy < height && 0 <= x + dx < width) || labels[(y + dy) * width + (x + dx)]
        != labels[y * width + x]
}

/// The number of sides of the pixel at `(y, x)` that lie on the boundary of
/// its region: sides on the image's edge and sides shared with a pixel of
/// another label.
pub open spec fn open_sides(labels: Seq<usize>, height: int, width: int, y: int, x: int) -> int {
    (if side_open(labels, height, width, y, x, 0, -1) {
        1int
    } else {
        0int
    }) + (if side_open(labels, height, width, y, x, 0, 1) {
        1int
    } else {
        0int
    }) + (if side_open(labels, height, width, y, x, -1, 0) {
        1int
    } else {
        0int
    }) + (if side_open(labels, height, width, y, x, 1, 0) {
        1int
    } else {
        0int
    })
}

/// The boundary sides of the pixels of `label` among the first `upto`
/// pixels of row `y`.
pub open spec fn row_perimeter(
    labels: Seq<usize>,
    height: int,
    width: int,
    label: int,
    y: int,
    upto: int,
) -> int
    decreases upto,
{
    if upto <= 0 {
        0
    } else {
        row_perimeter(labels, height, width, label, y, upto - 1) + if labels[y * width + (upto
            - 1)] == label {
            open_sides(labels, height, width, y, upto - 1)
        } else {
            0int
        }
    }
}

/// The boundary sides of the pixels of `label` in the first `upto` rows.
pub open spec fn region_perimeter(
    labels: Seq<usize>,
    height: int,
    width: int,
    label: int,
    upto: int,
) -> int
    decreases upto,
{
    if upto <= 0 {
        0
    } else {
        region_perimeter(labels, height, width, label, upto - 1) + row_perimeter(
            labels,
            height,
            width,
            label,
            upto - 1,
            width,
        )
    }
}

/// Whether the pixels at positions `i` and `j` carry the labels `u` and
/// `v`, one each.
pub open spec fn separates(labels: Seq<usize>, i: int, j: int, u: int, v: int) -> bool {
    (labels[i] == u && labels[j] == v) || (labels[i] == v && labels[j] == u)
}

/// Whether the pixel at `(y, x)` and its right neighbour carry `u` and `v`.
pub open spec fn right_border(
    labels: Seq<usize>,
    width: int,
    y: int,
    x: int,
    u: int,
    v: int,
) -> bool {
    x + 1 < width && separates(labels, y * width + x, y * width + x + 1, u, v)
}

/// Whether the pixel at `(y, x)` and its lower neighbour carry `u` and `v`.
pub open spec fn lower_border(
    labels: Seq<usize>,
    height: int,
    width: int,
    y: int,
    x: int,
    u: int,
    v: int,
) -> bool {
    y + 1 < height && separates(labels, y * width + x, (y + 1) * width + x, u, v)
}

/// The pixel sides that the pixel at `(y, x)` shares with its right and
/// lower neighbours and that part `u` from `v`.
pub open spec fn pixel_border(
    labels: Seq<usize>,
    height: int,
    width: int,
    y: int,
    x: int,
    u: int,
    v: int,
) -> int {
    (if right_border(labels, width, y, x, u, v) {
        1int
    } else {
        0int
    }) + (if lower_border(labels, height, width, y, x, u, v) {
        1int
    } else {
        0int
    })
}

/// The sides parting `u` from `v` that the first `upto` pixels of row `y`
/// share with their right and lower neighbours.
pub open spec fn row_border(
    labels: Seq<usize>,
    height: int,
    width: int,
    y: int,
    upto: int,
    u: int,
    v: int,
) -> int
    decreases upto,
{
    if upto <= 0 {
        0
    } else {
        row_border(labels, height, width, y, upto - 1, u, v) + pixel_border(
            labels,
            height,
            width,
            y,
            upto - 1,
            u,
            v,
        )
    }
}

/// The number of pixel sides that part region `u` from region `v`, counted
/// over the first `upto` rows: each side is met once, at its left or upper
/// pixel.
pub open spec fn shared_border(
    labels: Seq<usize>,
    height: int,
    width: int,
    upto: int,
    u: int,
    v: int,
) -> int
    decreases upto,
{
    if upto <= 0 {
        0
    } else {
        shared_border(labels, height, width, upto - 1, u, v) + row_border(
            labels,
            height,
            width,
            upto - 1,
            width,
            u,
            v,
        )
    }
}

/// The largest of the first `upto` labels, or zero when there is none.
pub open spec fn max_label(labels: Seq<usize>, upto: int) -> int
    decreases upto,
{
    if upto <= 0 {
        0
    } else if labels[upto - 1] > max_label(labels, upto - 1) {
        labels[upto - 1] as int
    } else {
        max_label(labels, upto - 1)
    }
}

pub proof fn lemma_max_label_bounds(labels: Seq<usize>, upto: int)
    requires
        0 <= upto <= labels.len(),
    ensures
        max_label(labels, upto) >= 0,
        forall|i: int| 0 <= i < upto ==> labels[i] <= max_label(labels, upto),
        upto > 0 ==> exists|i: int| 0 <= i < upto && labels[i] == max_label(labels, upto),
    decreases upto,
{
    if upto > 0 {
        lemma_max_label_bounds(labels, upto - 1);
        if upto - 1 > 0 {
            let i = choose|i: int| 0 <= i < upto - 1 && labels[i] == max_label(labels, upto - 1);
            assert(0 <= i < upto);
        }
        assert(labels[upto - 1] == max_label(labels, upto) || (upto - 1 > 0 && max_label(
            labels,
            upto,
        ) == max_label(labels, upto - 1)));
    }
}

/// The statistics of a region are bounded by the number of pixels counted.
pub proof fn lemma_region_bounds(
    cells: Seq<u8>,
    channels: int,
    labels: Seq<usize>,
    label: int,
    c: int,
    upto: int,
)
    requires
        0 <= upto,
    ensures
        0 <= region_area(labels, label, upto) <= upto,
        0 <= region_sum(cells, channels, labels, label, c, upto) <= 255 * region_area(
            labels,
            label,
            upto,
        ),
        0 <= region_sum_sq(cells, channels, labels, label, c, upto) <= 65025 * region_area(
            labels,
            label,
            upto,
        ),
    decreases upto,
{
    if upto > 0 {
        lemma_region_bounds(cells, channels, labels, label, c, upto - 1);
        let v = cells[(upto - 1) * channels + c] as int;
        assert(0 <= v * v <= 65025) by (nonlinear_arith)
            requires
                0 <= v <= 255,
        ;
    }
}

/// The boundary sides counted in a row are at most four per pixel.
pub proof fn lemma_row_perimeter_bounds(
    labels: Seq<usize>,
    height: int,
    width: int,
    label: int,
    y: int,
    upto: int,
)
    requires
        0 <= upto,
    ensures
        0 <= row_perimeter(labels, height, width, label, y, upto) <= 4 * upto,
    decreases upto,
{
    if upto > 0 {
        lemma_row_perimeter_bounds(labels, height, width, label, y, upto - 1);
    }
}

/// The boundary sides counted in the first rows are at most four per pixel.
pub proof fn lemma_region_perimeter_bounds(
    labels: Seq<usize>,
    height: int,
    width: int,
    label: int,
    upto: int,
)
    requires
        0 <= upto,
        0 <= width,
    ensures
        0 <= region_perimeter(labels, height, width, label, upto) <= 4 * (upto * width),
    decreases upto,
{
    if upto > 0 {
        lemma_region_perimeter_bounds(labels, height, width, label, upto - 1);
        lemma_row_perimeter_bounds(labels, height, width, label, upto - 1, width);
        assert(4 * ((upto - 1) * width) + 4 * width == 4 * (upto * width)) by (nonlinear_arith);
    }
}

/// The sides counted between two regions in a row are at most two per
/// pixel, and do not depend on the order of the two regions.
pub proof fn lemma_row_border_bounds(
    labels: Seq<usize>,
    height: int,
    width: int,
    y: int,
    upto: int,
    u: int,
    v: int,
)
    requires
        0 <= upto,
    ensures
        0 <= row_border(labels, height, width, y, upto, u, v) <= 2 * upto,
        row_border(labels, height, width, y, upto, u, v) == row_border(
            labels,
            height,
            width,
            y,
            upto,
            v,
            u,
        ),
    decreases upto,
{
    if upto > 0 {
        lemma_row_border_bounds(labels, height, width, y, upto - 1, u, v);
    }
}

/// The sides counted between two regions are at most two per pixel, and do
/// not depend on the order of the two regions.
pub proof fn lemma_shared_border_bounds(
    labels: Seq<usize>,
    height: int,
    width: int,
    upto: int,
    u: int,
    v: int,
)
    requires
        0 <= upto,
        0 <= width,
    ensures
        0 <= shared_border(labels, height, width, upto, u, v) <= 2 * (upto * width),
        shared_border(labels, height, width, upto, u, v) == shared_border(
            labels,
            height,
            width,
            upto,
            v,
            u,
        ),
    decreases upto,
{
    if upto > 0 {
        lemma_shared_border_bounds(labels, height, width, upto - 1, u, v);
        lemma_row_border_bounds(labels, height, width, upto - 1, width, u, v);
        assert(2 * ((upto - 1) * width) + 2 * width == 2 * (upto * width)) by (nonlinear_arith);
    }
}

/// The pixel counts of the regions `0` to `count - 1` over the first `upto`
/// pixels, added up.
pub open spec fn sum_of_areas(labels: Seq<usize>, count: int, upto: int) -> int
    decreases count,
{
    if count <= 0 {
        0
    } else {
        sum_of_areas(labels, count - 1, upto) + region_area(labels, count - 1, upto)
    }
}

proof fn lemma_sum_of_areas_step(labels: Seq<usize>, count: int, upto: int)
    requires
        0 <= count,
        0 < upto,
    ensures
        sum_of_areas(labels, count, upto) == sum_of_areas(labels, count, upto - 1) + if labels[upto
            - 1] < count {
            1int
        } else {
            0int
        },
    decreases count,
{
    if count > 0 {
        lemma_sum_of_areas_step(labels, count - 1, upto);
    }
}

/// Every pixel lies in exactly one region: where all labels are below
/// `count`, the pixel counts of the regions add up to the number of pixels.
pub proof fn lemma_areas_cover(labels: Seq<usize>, count: int, upto: int)
    requires
        0 <= count,
        0 <= upto <= labels.len(),
        forall|i: int| 0 <= i < upto ==> labels[i] < count,
    ensures
        sum_of_areas(labels, count, upto) == upto,
    decreases upto,
{
    if upto > 0 {
        lemma_areas_cover(labels, count, upto - 1);
        lemma_sum_of_areas_step(labels, count, upto);
    } else {
        lemma_sum_of_areas_empty(labels, count);
    }
}

proof fn lemma_sum_of_areas_empty(labels: Seq<usize>, count: int)
    requires
        0 <= count,
    ensures
        sum_of_areas(labels, count, 0) == 0,
    decreases count,
{
    if count > 0 {
        lemma_sum_of_areas_empty(labels, count - 1);
    }
}

proof fn lemma_square_step(s: int, q: int, m: int, v: int)
    requires
        0 <= s,
        0 <= q,
        0 <= m,
        0 <= v,
        s <= 255 * m,
        s * s <= m * q,
    ensures
        (s + v) * (s + v) <= (m + 1) * (q + v * v),
{
    if m == 0 {
        assert((s + v) * (s + v) <= (m + 1) * (q + v * v)) by (nonlinear_arith)
            requires
                s == 0,
                m == 0,
                0 <= q,
        ;
    } else {
        assert(m * (q + m * (v * v) - 2 * (s * v)) >= 0) by (nonlinear_arith)
            requires
                s * s <= m * q,
                m >= 1,
        {
            assert(m * (q + m * (v * v) - 2 * (s * v)) == m * q + (m * v) * (m * v) - 2 * (s * (m
                * v)));
            assert((s - m * v) * (s - m * v) >= 0);
            assert((s - m * v) * (s - m * v) == s * s + (m * v) * (m * v) - 2 * (s * (m * v)));
        }
        assert(q + m * (v * v) - 2 * (s * v) >= 0) by (nonlinear_arith)
            requires
                m * (q + m * (v * v) - 2 * (s * v)) >= 0,
                m >= 1,
        ;
        assert((m + 1) * (q + v * v) - (s + v) * (s + v) == (m * q - s * s) + (q + m * (v * v) - 2
            * (s * v))) by (nonlinear_arith);
    }
}

/// The square of a region's sum is at most its pixel count times its sum
/// of squares, so the squared deviation of the region from its mean is not
/// negative.
pub proof fn lemma_sum_squared(
    cells: Seq<u8>,
    channels: int,
    labels: Seq<usize>,
    label: int,
    c: int,
    upto: int,
)
    requires
        0 <= upto,
    ensures
        region_sum(cells, channels, labels, label, c, upto) * region_sum(
            cells,
            channels,
            labels,
            label,
            c,
            upto,
        ) <= region_area(labels, label, upto) * region_sum_sq(
            cells,
            channels,
            labels,
            label,
            c,
            upto,
        ),
    decreases upto,
{
    if upto > 0 {
        lemma_sum_squared(cells, channels, labels, label, c, upto - 1);
        lemma_region_bounds(cells, channels, labels, label, c, upto - 1);
        if labels[upto - 1] == label {
            lemma_square_step(
                region_sum(cells, channels, labels, label, c, upto - 1),
                region_sum_sq(cells, channels, labels, label, c, upto - 1),
                region_area(labels, label, upto - 1),
                cells[(upto - 1) * channels + c] as int,
            );
        }
    } else {
        assert(0 * 0 <= 0 * 0int);
    }
}

/// The pixels of an image as a list, each with its label and its value in
/// channel `c`.
pub open spec fn pixel_list(cells: Seq<u8>, channels: int, labels: Seq<usize>, c: int) -> Seq<
    (usize, u8),
> {
    Seq::new(labels.len(), |i: int| (labels[i], cells[i * channels + c]))
}

/// The pixel count, the sum and the sum of squares of the pixels of a list
/// that carry `label`.
pub open spec fn tally(pixels: Seq<(usize, u8)>, label: int) -> (int, int, int)
    decreases pixels.len(),
{
    if pixels.len() == 0 {
        (0, 0, 0)
    } else {
        let rest = tally(pixels.drop_last(), label);
        if pixels.last().0 == label {
            (
                rest.0 + 1,
                rest.1 + pixels.last().1,
                rest.2 + (pixels.last().1 as int) * (pixels.last().1 as int),
            )
        } else {
            rest
        }
    }
}

/// The statistics of a region are the tally of its pixels.
pub proof fn lemma_tally_of_region(
    cells: Seq<u8>,
    channels: int,
    labels: Seq<usize>,
    label: int,
    c: int,
    upto: int,
)
    requires
        0 <= upto <= labels.len(),
    ensures
        tally(pixel_list(cells, channels, labels, c).take(upto), label) == (
            region_area(labels, label, upto),
            region_sum(cells, channels, labels, label, c, upto),
            region_sum_sq(cells, channels, labels, label, c, upto),
        ),
    decreases upto,
{
    let pixels = pixel_list(cells, channels, labels, c);
    if upto > 0 {
        lemma_tally_of_region(cells, channels, labels, label, c, upto - 1);
        assert(pixels.take(upto).drop_last() =~= pixels.take(upto - 1));
        assert(pixels.take(upto).last() == pixels[upto - 1]);
    }
}

/// Taking one pixel out of a list takes its share out of the tally.
proof fn lemma_tally_remove(pixels: Seq<(usize, u8)>, label: int, i: int)
    requires
        0 <= i < pixels.len(),
    ensures
        tally(pixels, label) == ({
            let rest = tally(pixels.remove(i), label);
            if pixels[i].0 == label {
                (rest.0 + 1, rest.1 + pixels[i].1, rest.2 + (pixels[i].1 as int) * (pixels[i].1 as int))
            } else {
                rest
            }
        }),
    decreases pixels.len(),
{
    if i == pixels.len() - 1 {
        assert(pixels.remove(i) =~= pixels.drop_last());
    } else {
        lemma_tally_remove(pixels.drop_last(), label, i);
        assert(pixels.remove(i).drop_last() =~= pixels.drop_last().remove(i));
        assert(pixels.remove(i).last() == pixels.last());
    }
}

/// The tally of a list of pixels does not depend on their order: lists
/// with the same pixels, each as often, have the same tally.
pub proof fn lemma_tally_permutation(first: Seq<(usize, u8)>, second: Seq<(usize, u8)>, label: int)
    requires
        first.to_multiset() == second.to_multiset(),
    ensures
        tally(first, label) == tally(second, label),
    decreases first.len(),
{
    vstd::seq_lib::to_multiset_len(first);
    vstd::seq_lib::to_multiset_len(second);
    if first.len() > 0 {
        let last = first.last();
        vstd::seq_lib::to_multiset_contains(first, last);
        vstd::seq_lib::to_multiset_contains(second, last);
        assert(first.contains(last)) by {
            assert(first[first.len() - 1] == last);
        }
        let i = choose|i: int| 0 <= i < second.len() && second[i] == last;
        vstd::seq_lib::to_multiset_remove(first, first.len() - 1);
        vstd::seq_lib::to_multiset_remove(second, i);
        assert(first.remove(first.len() - 1) =~= first.drop_last());
        lemma_tally_permutation(first.drop_last(), second.remove(i), label);
        lemma_tally_remove(second, label, i);
    }
}

/// The statistics of a region, and with them its data fidelity, do not
/// depend on the order of the pixels: two labelled images with the same
/// labelled pixel values, each as often, give every region the same pixel
/// count, sum and sum of squares in every channel.
pub proof fn lemma_region_permutation(
    cells: Seq<u8>,
    labels: Seq<usize>,
    other_cells: Seq<u8>,
    other_labels: Seq<usize>,
    channels: int,
    label: int,
    c: int,
)
    requires
        pixel_list(cells, channels, labels, c).to_multiset() == pixel_list(
            other_cells,
            channels,
            other_labels,
            c,
        ).to_multiset(),
    ensures
        region_area(labels, label, labels.len() as int) == region_area(
            other_labels,
            label,
            other_labels.len() as int,
        ),
        region_sum(cells, channels, labels, label, c, labels.len() as int) == region_sum(
            other_cells,
            channels,
            other_labels,
            label,
            c,
            other_labels.len() as int,
        ),
        region_sum_sq(cells, channels, labels, label, c, labels.len() as int) == region_sum_sq(
            other_cells,
            channels,
            other_labels,
            label,
            c,
            other_labels.len() as int,
        ),
{
    let first = pixel_list(cells, channels, labels, c);
    let second = pixel_list(other_cells, channels, other_labels, c);
    lemma_tally_of_region(cells, channels, labels, label, c, labels.len() as int);
    lemma_tally_of_region(other_cells, channels, other_labels, label, c, other_labels.len() as int);
    assert(first.take(first.len() as int) =~= first);
    assert(second.take(second.len() as int) =~= second);
    lemma_tally_permutation(first, second, label);
}

/// In an image whose pixels all have the value `value` in channel `c`, the
/// sum of a region is its pixel count times the value and its sum of
/// squares is its pixel count times the squared value, so that its squared
/// deviation from its mean is zero.
pub proof fn lemma_uniform_region(
    cells: Seq<u8>,
    channels: int,
    labels: Seq<usize>,
    label: int,
    c: int,
    upto: int,
    value: u8,
)
    requires
        0 <= upto,
        forall|i: int| 0 <= i < upto ==> #[trigger] cells[i * channels + c] == value,
    ensures
        region_sum(cells, channels, labels, label, c, upto) == region_area(labels, label, upto)
            * value,
        region_sum_sq(cells, channels, labels, label, c, upto) == region_area(labels, label, upto)
            * (value * value),
        region_sum(cells, channels, labels, label, c, upto) * region_sum(
            cells,
            channels,
            labels,
            label,
            c,
            upto,
        ) == region_area(labels, label, upto) * region_sum_sq(
            cells,
            channels,
            labels,
            label,
            c,
            upto,
        ),
    decreases upto,
{
    let n = region_area(labels, label, upto);
    let v = value as int;
    if upto > 0 {
        lemma_uniform_region(cells, channels, labels, label, c, upto - 1, value);
        let m = region_area(labels, label, upto - 1);
        assert(cells[(upto - 1) * channels + c] == value);
        assert((m + 1) * v == m * v + v) by (nonlinear_arith);
        assert((m + 1) * (v * v) == m * (v * v) + v * v) by (nonlinear_arith);
    } else {
        assert(0 * v == 0 && 0 * (v * v) == 0);
    }
    assert((n * v) * (n * v) == n * (n * (v * v))) by (nonlinear_arith);
}

} // verus!
