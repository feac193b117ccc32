pub mod connectivity;
pub mod forest;
pub mod graph;
pub mod hierarchy;
pub mod queue;
pub mod raster;
pub mod regions;
pub mod scale;
pub mod seed;
pub mod slic;
pub mod slic_helpers;
pub mod topology;
pub mod utils;

use crate::forest::root_of;
use crate::graph::{graph_from_labels, graph_matches};
use crate::hierarchy::{PartitionTree, TreeBuilder};
use crate::raster::Image;
use crate::regions::max_label;
use crate::slic::{clusterable, slic, SlicError};
use crate::raster::{
    label_cells, nonzero, plane_accepts, shape_accepts, InputShapeError, LabelMap,
};
use crate::scale::ZERO_SCALE;
use crate::utils::{array_to_rgba_bitmap, bitmap_at, blacken, image_from_planes, planar_index};
use vstd::prelude::*;

verus! {

/// A hierarchical segmentation: the label of every pixel, row by row, and
/// the partition tree over the labels with its largest level.
pub struct Hierarchy {
    pub labels: Vec<usize>,
    pub parents: Vec<usize>,
    pub levels: Vec<u64>,
    pub max_level: u64,
}

/// The largest of the first `upto` levels, and at least zero.
pub open spec fn largest_level(levels: Seq<u64>, upto: int) -> u64
    decreases upto,
{
    if upto <= 0 {
        ZERO_SCALE
    } else if levels[upto - 1] > largest_level(levels, upto - 1) {
        levels[upto - 1]
    } else {
        largest_level(levels, upto - 1)
    }
}

/// The largest level is at least zero and at least every level, and it is
/// zero or one of the levels.
pub proof fn lemma_largest_level(levels: Seq<u64>, upto: int)
    requires
        0 <= upto <= levels.len(),
    ensures
        ZERO_SCALE <= largest_level(levels, upto),
        forall|i: int| 0 <= i < upto ==> (#[trigger] levels[i]) <= largest_level(levels, upto),
        largest_level(levels, upto) == ZERO_SCALE || exists|i: int|
            0 <= i < upto && #[trigger] levels[i] == largest_level(levels, upto),
    decreases upto,
{
    if upto > 0 {
        lemma_largest_level(levels, upto - 1);
        if largest_level(levels, upto) != ZERO_SCALE {
            if levels[upto - 1] > largest_level(levels, upto - 1) {
                assert(levels[upto - 1] == largest_level(levels, upto));
            } else {
                let i = choose|i: int|
                    0 <= i < upto - 1 && #[trigger] levels[i] == largest_level(levels, upto - 1);
                assert(levels[i] == largest_level(levels, upto));
            }
        }
    }
}

/// The node whose number the pixels of node `i` carry after a cut at
/// `level`: the topmost node that is reached from `i` by following the
/// parents for as long as the parent is born below `level`. A node whose
/// parent is born at `level` or above, and a root, keeps its own number.
pub open spec fn cut_label(parents: Seq<usize>, levels: Seq<u64>, level: u64, i: int) -> int
    decreases parents.len() - i,
{
    if 0 <= i < parents.len() && i < parents[i] < parents.len() && parents[i] < levels.len()
        && levels[parents[i] as int] < level {
        cut_label(parents, levels, level, parents[i] as int)
    } else {
        i
    }
}

impl Hierarchy {
    /// Every node has a level and every pixel carries the number of a
    /// node.
    pub open spec fn wf(&self) -> bool {
        &&& self.parents@.len() == self.levels@.len()
        &&& forall|j: int|
            0 <= j < self.labels@.len() ==> (#[trigger] self.labels@[j]) < self.parents@.len()
    }

    /// Whether every node has a level and every pixel carries the number of
    /// a node.
    pub fn is_valid(&self) -> (res: bool)
        ensures
            res == self.wf(),
    {
        if self.parents.len() != self.levels.len() {
            return false;
        }
        let mut j: usize = 0;
        while j < self.labels.len()
            invariant
                j <= self.labels@.len(),
                forall|i: int| 0 <= i < j ==> (#[trigger] self.labels@[i]) < self.parents@.len(),
            decreases self.labels@.len() - j,
        {
            if self.labels[j] >= self.parents.len() {
                return false;
            }
            j = j + 1;
        }
        true
    }

    /// Puts the labels of the pixels and the partition tree over them
    /// together.
    pub fn new(labels: Vec<usize>, tree: PartitionTree) -> (res: Hierarchy)
        ensures
            res.labels == labels,
            res.parents == tree.parents,
            res.levels == tree.levels,
            res.max_level == largest_level(tree.levels@, tree.levels@.len() as int),
    {
        let mut max_level = ZERO_SCALE;
        let mut i: usize = 0;
        while i < tree.levels.len()
            invariant
                i <= tree.levels@.len(),
                max_level == largest_level(tree.levels@, i as int),
            decreases tree.levels@.len() - i,
        {
            if tree.levels[i] > max_level {
                max_level = tree.levels[i];
            }
            i = i + 1;
        }
        Hierarchy { labels, parents: tree.parents, levels: tree.levels, max_level }
    }
}

/// Cuts the hierarchy at `level`: returns the label of every pixel in the
/// flat segmentation in which the merges born below `level` have taken
/// place.
///
/// Every pixel gets the number of the topmost node that is reached from
/// its superpixel by following the parents for as long as the parent is
/// born below `level`; a superpixel whose parent is born at `level` or
/// above keeps its label.
pub fn cut_hierarchy(hierarchy: &Hierarchy, level: u64) -> (res: Vec<usize>)
    requires
        hierarchy.wf(),
    ensures
        res@.len() == hierarchy.labels@.len(),
        forall|j: int|
            0 <= j < res@.len() ==> (#[trigger] res@[j]) == cut_label(
                hierarchy.parents@,
                hierarchy.levels@,
                level,
                hierarchy.labels@[j] as int,
            ),
{
    let count = hierarchy.parents.len();
    // Where each node ends up, from the last node down.
    let mut mappings: Vec<usize> = Vec::new();
    let mut i: usize = 0;
    while i < count
        invariant
            i <= count,
            mappings@.len() == i,
            forall|n: int| 0 <= n < i ==> (#[trigger] mappings@[n]) == n,
        decreases count - i,
    {
        mappings.push(i);
        i = i + 1;
    }
    let mut i: usize = count;
    while i > 0
        invariant
            i <= count,
            count == hierarchy.parents@.len(),
            count == hierarchy.levels@.len(),
            mappings@.len() == count,
            forall|n: int| 0 <= n < i ==> (#[trigger] mappings@[n]) == n,
            forall|n: int|
                i <= n < count ==> (#[trigger] mappings@[n]) == cut_label(
                    hierarchy.parents@,
                    hierarchy.levels@,
                    level,
                    n,
                ),
        decreases i,
    {
        i = i - 1;
        let parent = hierarchy.parents[i];
        if parent > i && parent < count && hierarchy.levels[parent] < level {
            mappings[i] = mappings[parent];
        }
    }
    let mut labels: Vec<usize> = Vec::new();
    let mut j: usize = 0;
    while j < hierarchy.labels.len()
        invariant
            j <= hierarchy.labels@.len(),
            hierarchy.wf(),
            count == hierarchy.parents@.len(),
            mappings@.len() == count,
            forall|n: int|
                0 <= n < count ==> (#[trigger] mappings@[n]) == cut_label(
                    hierarchy.parents@,
                    hierarchy.levels@,
                    level,
                    n,
                ),
            labels@.len() == j,
            forall|n: int|
                0 <= n < j ==> (#[trigger] labels@[n]) == cut_label(
                    hierarchy.parents@,
                    hierarchy.levels@,
                    level,
                    hierarchy.labels@[n] as int,
                ),
        decreases hierarchy.labels@.len() - j,
    {
        labels.push(mappings[hierarchy.labels[j]]);
        j = j + 1;
    }
    labels
}

/// A cut at a level that no node is born below changes no label. In
/// particular a cut at scale zero gives back the superpixels of a tree
/// whose levels are not below zero.
pub proof fn lemma_cut_at_zero(parents: Seq<usize>, levels: Seq<u64>, level: u64, i: int)
    requires
        forall|n: int| 0 <= n < levels.len() ==> level <= #[trigger] levels[n],
    ensures
        cut_label(parents, levels, level, i) == i,
{
}

/// A cut above every level gives each node the number of the root of its
/// tree: it collapses each tree of the hierarchy to a single label.
pub proof fn lemma_cut_at_infinity(parents: Seq<usize>, levels: Seq<u64>, level: u64, i: int)
    requires
        parents.len() == levels.len(),
        forall|n: int| 0 <= n < levels.len() ==> (#[trigger] levels[n]) < level,
    ensures
        cut_label(parents, levels, level, i) == root_of(parents, i),
    decreases parents.len() - i,
{
    if 0 <= i < parents.len() && i < parents[i] < parents.len() {
        lemma_cut_at_infinity(parents, levels, level, parents[i] as int);
    }
}

/// A cut at a higher level is coarser than one at a lower level: the
/// number that it gives a node is the number that it gives the node's
/// number in the lower cut, so that nodes with one number in the lower cut
/// have one number in the higher. The number that a cut gives a node lies
/// in the node's tree.
pub proof fn lemma_cut_refines(parents: Seq<usize>, levels: Seq<u64>, low: u64, high: u64, i: int)
    requires
        low <= high,
    ensures
        cut_label(parents, levels, high, cut_label(parents, levels, low, i)) == cut_label(
            parents,
            levels,
            high,
            i,
        ),
        root_of(parents, cut_label(parents, levels, low, i)) == root_of(parents, i),
    decreases parents.len() - i,
{
    if 0 <= i < parents.len() && i < parents[i] < parents.len() && parents[i] < levels.len()
        && levels[parents[i] as int] < low {
        lemma_cut_refines(parents, levels, low, high, parents[i] as int);
    }
}

/// A cut at scale zero of a tree whose scales have come in order gives
/// every node its own number: it reproduces the superpixels.
pub proof fn lemma_cut_of_tree_at_zero(builder: hierarchy::TreeBuilder, i: int)
    requires
        builder.wf(),
        builder.ordered(),
        builder.grounded(),
    ensures
        cut_label(builder@.parents, builder@.levels, ZERO_SCALE, i) == i,
{
    builder.lemma_ordered_levels();
    builder.lemma_node_count();
    if builder@.levels.len() > 0 {
        assert(builder@.levels[0] == ZERO_SCALE);
    }
    lemma_cut_at_zero(builder@.parents, builder@.levels, ZERO_SCALE, i);
}

/// A cut above every level of a finished tree collapses each connected
/// component of the graph the tree was built from to a single label: two
/// regions that an edge in use joined at the start get the same label, and
/// two leaves that get the same label lie in one component, in that any
/// labelling of the leaves that is constant along the edges in use at the
/// start gives them the same label.
pub proof fn lemma_cut_collapses_components(
    builder: hierarchy::TreeBuilder,
    parents: Seq<usize>,
    levels: Seq<u64>,
    level: u64,
    labelling: spec_fn(nat) -> int,
)
    requires
        builder.wf(),
        builder.grounded(),
        forall|e: int| 0 <= e < builder@.edges.len() ==> !(#[trigger] builder@.edges[e]).active,
        parents == builder@.parents,
        levels == builder@.levels,
        forall|i: int| 0 <= i < levels.len() ==> (#[trigger] levels[i]) < level,
        builder.origin().len() == builder.origin_in_use().len(),
        forall|o: int|
            0 <= o < builder.origin().len() && #[trigger] builder.origin_in_use()[o] ==> labelling(
                builder.origin()[o].0,
            ) == labelling(builder.origin()[o].1),
    ensures
        forall|o: int|
            0 <= o < builder.origin().len() && #[trigger] builder.origin_in_use()[o] ==> cut_label(
                parents,
                levels,
                level,
                builder.origin()[o].0 as int,
            ) == cut_label(parents, levels, level, builder.origin()[o].1 as int),
        forall|u: nat, v: nat|
            u < builder.leaves() && v < builder.leaves() && #[trigger] cut_label(
                parents,
                levels,
                level,
                u as int,
            ) == #[trigger] cut_label(parents, levels, level, v as int) ==> labelling(u)
                == labelling(v),
{
    builder.lemma_components_in_one_tree();
    assert forall|o: int|
        0 <= o < builder.origin().len() && #[trigger] builder.origin_in_use()[o] implies cut_label(
        parents,
        levels,
        level,
        builder.origin()[o].0 as int,
    ) == cut_label(parents, levels, level, builder.origin()[o].1 as int) by {
        lemma_cut_at_infinity(parents, levels, level, builder.origin()[o].0 as int);
        lemma_cut_at_infinity(parents, levels, level, builder.origin()[o].1 as int);
    }
    assert forall|u: nat, v: nat|
        u < builder.leaves() && v < builder.leaves() && #[trigger] cut_label(
            parents,
            levels,
            level,
            u as int,
        ) == #[trigger] cut_label(parents, levels, level, v as int) implies labelling(u)
        == labelling(v) by {
        lemma_cut_at_infinity(parents, levels, level, u as int);
        lemma_cut_at_infinity(parents, levels, level, v as int);
        builder.lemma_tree_in_one_component(labelling, u, v);
    }
}

/// Whether the pixel in row `y`, column `x` differs in its label from the
/// pixel `dy` rows and `dx` columns further, if there is one.
pub open spec fn differs(
    labels: Seq<usize>,
    height: int,
    width: int,
    y: int,
    x: int,
    dy: int,
    dx: int,
) -> bool {
    0 <= y + dy < height && 0 <= x + dx < width && labels[(y + dy) * width + (x + dx)]
        != labels[y * width + x]
}

/// Whether the pixel in row `y`, column `x` lies on a boundary between
/// labels: one of the four pixels beside it carries another label.
pub open spec fn on_boundary(labels: Seq<usize>, height: int, width: int, y: int, x: int) -> bool {
    differs(labels, height, width, y, x, 0, -1) || differs(labels, height, width, y, x, -1, 0)
        || differs(labels, height, width, y, x, 0, 1) || differs(labels, height, width, y, x, 1, 0)
}

/// Whether `display_labels` accepts an image buffer and a label buffer
/// for a picture of `width` by `height` pixels: the image buffer holds at
/// least three channels, and the label buffer exactly one label per
/// pixel.
pub open spec fn displayable(image_len: int, width: int, height: int, labels_len: int) -> bool {
    &&& shape_accepts(height, width, 3, 3 * (height * width))
    &&& 3 * (height * width) <= image_len
    &&& plane_accepts(height, width, labels_len)
}

/// Draws the boundaries between labels on an image.
///
/// `img` holds the image channel by channel, each channel row by row; only
/// its first three channels are used. The result holds red, green, blue
/// and alpha for every pixel, row by row: black where one of the four
/// pixels beside the pixel carries another label, the image's colour
/// elsewhere, and alpha 255 throughout.
pub fn display_labels(img: Vec<u8>, width: usize, height: usize, labels: Vec<usize>) -> (res:
    Result<Vec<u8>, InputShapeError>)
    ensures
        res.is_ok() <==> displayable(
            img@.len() as int,
            width as int,
            height as int,
            labels@.len() as int,
        ),
        res.is_ok() ==> {
            let bitmap = res.unwrap()@;
            &&& bitmap.len() == 4 * (height * width)
            &&& forall|y: int, x: int, c: int|
                0 <= y < height && 0 <= x < width && 0 <= c < 3 ==> #[trigger] bitmap_at(
                    bitmap,
                    width as int,
                    y,
                    x,
                    c,
                ) == if on_boundary(labels@, height as int, width as int, y, x) {
                    0u8
                } else {
                    img@[planar_index(height as int, width as int, y, x, c)]
                }
            &&& forall|y: int, x: int|
                0 <= y < height && 0 <= x < width ==> #[trigger] bitmap_at(
                    bitmap,
                    width as int,
                    y,
                    x,
                    3,
                ) == 255
        },
{
    let mut img = img;
    let ghost given = img@;
    let ghost marks = labels@;
    // Only take the first three channels.
    let used = match height.checked_mul(width) {
        Some(plane) => match plane.checked_mul(3) {
            Some(used) => used,
            None => {
                return Err(InputShapeError);
            },
        },
        None => {
            proof {
                assert(height * width * 3 == 3 * (height * width)) by (nonlinear_arith);
                assert(height * width <= 3 * (height * width)) by (nonlinear_arith)
                    requires
                        0 <= height * width,
                ;
            }
            return Err(InputShapeError);
        },
    };
    assert(height * width * 3 == 3 * (height * width)) by (nonlinear_arith);
    if img.len() < used {
        return Err(InputShapeError);
    }
    img.truncate(used);
    let mut image = match image_from_planes(&img, width, height, 3) {
        Ok(image) => image,
        Err(e) => {
            return Err(e);
        },
    };
    let map = match LabelMap::from_shape_vec(height, width, labels) {
        Ok(map) => map,
        Err(e) => {
            return Err(e);
        },
    };
    proof {
        assert forall|y: int, x: int, c: int|
            0 <= y < height && 0 <= x < width && 0 <= c < 3 implies #[trigger] image.at(y, x, c)
            == given[planar_index(height as int, width as int, y, x, c)] by {
            crate::utils::lemma_planar_bounds(height as int, width as int, 3, y, x, c);
        }
    }
    let ghost plain = image;
    let mut y: usize = 0;
    while y < height
        invariant
            y <= height,
            height == image.spec_height(),
            width == image.spec_width(),
            image.spec_channels() == 3,
            height == map.spec_height(),
            width == map.spec_width(),
            label_cells(map) == marks,
            plain.spec_height() == height,
            plain.spec_width() == width,
            plain.spec_channels() == 3,
            forall|i: int, j: int, c: int|
                0 <= i < height && 0 <= j < width && 0 <= c < 3 ==> #[trigger] image.at(i, j, c)
                    == if i < y && on_boundary(marks, height as int, width as int, i, j) {
                    0u8
                } else {
                    plain.at(i, j, c)
                },
        decreases height - y,
    {
        let mut x: usize = 0;
        while x < width
            invariant
                y < height,
                x <= width,
                height == image.spec_height(),
                width == image.spec_width(),
                image.spec_channels() == 3,
                height == map.spec_height(),
                width == map.spec_width(),
                label_cells(map) == marks,
                plain.spec_height() == height,
                plain.spec_width() == width,
                plain.spec_channels() == 3,
                forall|i: int, j: int, c: int|
                    0 <= i < height && 0 <= j < width && 0 <= c < 3 ==> #[trigger] image.at(
                        i,
                        j,
                        c,
                    ) == if (i < y || (i == y && j < x)) && on_boundary(
                        marks,
                        height as int,
                        width as int,
                        i,
                        j,
                    ) {
                        0u8
                    } else {
                        plain.at(i, j, c)
                    },
            decreases width - x,
        {
            let label = map.get(y, x);
            let left = x > 0 && map.get(y, x - 1) != label;
            let upper = y > 0 && map.get(y - 1, x) != label;
            let right = x + 1 < width && map.get(y, x + 1) != label;
            let lower = y + 1 < height && map.get(y + 1, x) != label;
            proof {
                assert(left == differs(marks, height as int, width as int, y as int, x as int, 0, -1));
                assert(upper == differs(marks, height as int, width as int, y as int, x as int, -1, 0));
                assert(right == differs(marks, height as int, width as int, y as int, x as int, 0, 1));
                assert(lower == differs(marks, height as int, width as int, y as int, x as int, 1, 0));
            }
            if left || upper || right || lower {
                blacken(&mut image, y, x);
            }
            x = x + 1;
        }
        y = y + 1;
    }
    let bitmap = array_to_rgba_bitmap(&image);
    proof {
        assert forall|i: int, j: int, c: int|
            0 <= i < height && 0 <= j < width && 0 <= c < 3 implies #[trigger] bitmap_at(
            bitmap@,
            width as int,
            i,
            j,
            c,
        ) == if on_boundary(marks, height as int, width as int, i, j) {
            0u8
        } else {
            given[planar_index(height as int, width as int, i, j, c)]
        } by {
            assert(image.at(i, j, c) == if i < y && on_boundary(
                marks,
                height as int,
                width as int,
                i,
                j,
            ) {
                0u8
            } else {
                plain.at(i, j, c)
            });
        }
    }
    Ok(bitmap)
}

/// Why the segmentation of an image could not be started.
#[derive(Clone, Copy, Debug, PartialEq, Eq, Structural)]
pub enum SegmentationError {
    /// The image could not be segmented into superpixels.
    Slic(SlicError),
    /// The image has too many pixels for the 32-bit counters of the
    /// region adjacency graph.
    TooLarge,
}

/// Whether the image has too many pixels for the region adjacency graph:
/// four times their number does not fit a 32-bit counter.
pub open spec fn too_large(image: Image) -> bool {
    4 * (image.spec_height() * image.spec_width()) >= u32::MAX
}

/// Starts the hierarchical segmentation of an image: segments it into at
/// most `n_clusters` superpixels with one round of clustering at
/// compactness one, builds their region adjacency graph, and starts the
/// partition tree on it.
///
/// Returns the superpixel labels and a fresh tree builder, all of whose
/// edges await their scales. The tree is complete once the builder has
/// been advanced until it is done.
///
/// An input that the clustering does not take is refused with the error of
/// the clustering, and of the others an image that is too large for the
/// graph is refused before any work is done. What is left is segmented,
/// unless room for the seeds cannot be reserved.
pub fn hierarchical_segmentation(img: &Image, n_clusters: u32) -> (res: Result<
    (LabelMap, TreeBuilder),
    SegmentationError,
>)
    ensures
        res == Err::<(LabelMap, TreeBuilder), SegmentationError>(
            SegmentationError::Slic(SlicError::Seed(crate::seed::SeedError::InvalidSeedCount)),
        ) <==> img.spec_width() == 0 || img.spec_height() == 0,
        res == Err::<(LabelMap, TreeBuilder), SegmentationError>(
            SegmentationError::Slic(SlicError::ZeroSuperpixelCount),
        ) <==> img.spec_width() > 0 && img.spec_height() > 0 && n_clusters == 0,
        res == Err::<(LabelMap, TreeBuilder), SegmentationError>(
            SegmentationError::Slic(SlicError::ZeroGridInterval),
        ) <==> img.spec_width() > 0 && img.spec_height() > 0 && n_clusters > 0 && img.spec_width()
            <= u32::MAX && img.spec_height() <= u32::MAX && img.spec_height() * img.spec_width()
            < n_clusters,
        res == Err::<(LabelMap, TreeBuilder), SegmentationError>(
            SegmentationError::Slic(SlicError::Seed(crate::seed::SeedError::InvalidTotalSeeds)),
        ) <==> img.spec_width() > 0 && img.spec_height() > 0 && n_clusters > 0 && (img.spec_width()
            > u32::MAX || img.spec_height() > u32::MAX || exists|s: int|
            s > 0 && #[trigger] crate::slic_helpers::is_grid_interval(
                s,
                img.spec_width() as int,
                img.spec_height() as int,
                n_clusters as int,
            ) && crate::seed::too_many_seeds(*img, s, n_clusters as int)),
        res == Err::<(LabelMap, TreeBuilder), SegmentationError>(
            SegmentationError::Slic(SlicError::Seed(crate::seed::SeedError::Allocation)),
        ) ==> clusterable(*img, n_clusters) && !too_large(*img),
        res != Err::<(LabelMap, TreeBuilder), SegmentationError>(
            SegmentationError::Slic(SlicError::Seed(crate::seed::SeedError::PerturbConversion)),
        ),
        res == Err::<(LabelMap, TreeBuilder), SegmentationError>(SegmentationError::TooLarge)
            <==> clusterable(*img, n_clusters) && too_large(*img),
        res is Ok ==> clusterable(*img, n_clusters) && !too_large(*img),
        clusterable(*img, n_clusters) && !too_large(*img) ==> res is Ok || res == Err::<
            (LabelMap, TreeBuilder),
            SegmentationError,
        >(SegmentationError::Slic(SlicError::Seed(crate::seed::SeedError::Allocation))),
        res matches Ok((labels, builder)) ==> {
            let cells = label_cells(labels);
            let width = img.spec_width() as int;
            let height = img.spec_height() as int;
            &&& labels.spec_height() == height
            &&& labels.spec_width() == width
            &&& cells.len() == height * width
            &&& crate::connectivity::contiguous(
                cells,
                width,
                height,
                max_label(cells, cells.len() as int) + 1,
            )
            &&& crate::connectivity::connected(cells, width, height)
            &&& exists|s: int|
                #![trigger crate::slic_helpers::is_grid_interval(s, width, height, n_clusters as int)]
                0 < s <= u32::MAX && crate::slic_helpers::is_grid_interval(
                    s,
                    width,
                    height,
                    n_clusters as int,
                ) && crate::slic::superpixels(*img, n_clusters, 1, 1, s, cells)
            &&& graph_matches(builder.graph(), *img, labels, height, 0)
            &&& builder.wf()
            &&& builder.ordered()
            &&& builder.grounded()
            &&& builder.origin() == builder.graph().ends()
            &&& builder.leaves() == builder.graph().nodes().len()
            &&& builder.leaves() == max_label(cells, cells.len() as int) + 1
            &&& builder.queued() == 0
            &&& builder.floor() == ZERO_SCALE
        },
{
    let (height, width, channels) = img.dim();
    proof {
        // An image in memory has no more pixels than a machine word counts,
        // and no more seeds than pixels.
        assert(nonzero(height as int) * nonzero(width as int) <= isize::MAX) by (nonlinear_arith)
            requires
                nonzero(height as int) * nonzero(width as int) * nonzero(channels as int)
                    <= isize::MAX,
                nonzero(channels as int) >= 1,
                nonzero(height as int) >= 1,
                nonzero(width as int) >= 1,
        ;
        if clusterable(*img, n_clusters) {
            assert forall|s: int| s > 0 implies !crate::seed::too_many_seeds(
                *img,
                s,
                n_clusters as int,
            ) by {
                crate::seed::lemma_seeds_fit(*img, s, n_clusters as int);
            }
        }
    }
    if 0 < height && 0 < width && 0 < n_clusters {
        let pixels: u128 = (height as u128) * (width as u128);
        if height <= u32::MAX as usize && width <= u32::MAX as usize && n_clusters as u128
            <= pixels && 4 * pixels >= u32::MAX as u128 {
            return Err(SegmentationError::TooLarge);
        }
    }
    let labels = match slic(n_clusters, 1, Some(1), img) {
        Ok(labels) => labels,
        Err(e) => {
            return Err(SegmentationError::Slic(e));
        },
    };
    proof {
        let cells = label_cells(labels);
        crate::slic::lemma_largest_of_contiguous(
            cells,
            width as int,
            height as int,
            max_label(cells, cells.len() as int) + 1,
        );
        crate::slic::lemma_count_within(cells, width as int, height as int);
    }
    let graph = graph_from_labels(img, &labels);
    proof {
        assert(crate::hierarchy::uniform(graph.nodes(), channels as int)) by {
            assert forall|n: int| 0 <= n < graph.nodes().len() implies {
                &&& (#[trigger] graph.nodes()[n]).values@.len() == channels
                &&& graph.nodes()[n].values_sq@.len() == channels
            } by {
                assert(crate::graph::node_matches(
                    graph.nodes()[n],
                    *img,
                    labels,
                    n,
                    height as int,
                    0,
                ));
            }
        }
    }
    match TreeBuilder::new(graph) {
        Some(builder) => Ok((labels, builder)),
        // Every node holds one sum per channel of the image.
        None => vstd::pervasive::unreached(),
    }
}

} // verus!
