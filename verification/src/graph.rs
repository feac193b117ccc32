use crate::raster::{image_cells, label_cells, nonzero, ChannelSums, Image, LabelMap};
use crate::regions::{
    lemma_areas_cover, lemma_max_label_bounds, lemma_region_bounds, lemma_sum_squared,
    sum_of_areas, lemma_region_perimeter_bounds,
    lemma_row_border_bounds, lemma_row_perimeter_bounds, lemma_shared_border_bounds, max_label,
    lower_border, open_sides, region_area, region_perimeter, region_sum, region_sum_sq,
    right_border, row_border, row_perimeter, shared_border,
};
use crate::scale::ZERO_SCALE;
use crate::topology::{
    adjacent, joins, topology_add_edge, topology_add_node, topology_edge_endpoints, topology_edges,
    topology_find_edge, topology_neighbors, topology_new, topology_nodes,
};
use vstd::prelude::*;

verus! {

/// What is known of a region: its pixel count, the length of its boundary in
/// pixel sides, and per channel the sum and the sum of squares of its pixel
/// values.
pub struct SuperpixelNode {
    pub area: u32,
    pub perimeter: u32,
    pub values: ChannelSums,
    pub values_sq: ChannelSums,
}

impl SuperpixelNode {
    pub fn new(area: u32, perimeter: u32, values: ChannelSums, values_sq: ChannelSums) -> (res:
        Self)
        ensures
            res.area == area,
            res.perimeter == perimeter,
            res.values == values,
            res.values_sq == values_sq,
    {
        SuperpixelNode { area, perimeter, values, values_sq }
    }

    /// In every channel the square of the sum is at most the pixel count
    /// times the sum of squares: the squared deviation from the mean is not
    /// negative.
    pub open spec fn deviation_nonnegative(&self) -> bool {
        spread(self.values@, self.values_sq@, self.area as int, self.values@.len() as int)
    }

    /// The statistics of a region without pixels.
    pub(crate) fn init(channels: usize) -> (res: Self)
        requires
            channels <= isize::MAX,
        ensures
            res.area == 0,
            res.perimeter == 0,
            res.values@ == Seq::new(channels as nat, |c: int| 0u64),
            res.values_sq@ == Seq::new(channels as nat, |c: int| 0u64),
    {
        let values = ChannelSums::zeros(channels);
        let values_sq = ChannelSums::zeros(channels);
        assert(values@ =~= Seq::new(channels as nat, |c: int| 0u64));
        assert(values_sq@ =~= Seq::new(channels as nat, |c: int| 0u64));
        SuperpixelNode::new(0, 0, values, values_sq)
    }
}

/// A border between two regions: the number of pixel sides they share, the
/// scale at which merging them becomes optimal, and whether the edge is
/// still in use.
#[derive(Clone, Copy, Debug, PartialEq, Eq, Structural)]
pub struct SuperpixelEdge {
    pub weight: u64,
    pub length: u32,
    pub active: bool,
}

impl SuperpixelEdge {
    pub fn new(weight: u64, length: u32) -> (res: Self)
        ensures
            res == (SuperpixelEdge { weight, length, active: true }),
    {
        SuperpixelEdge { weight, length, active: true }
    }

    /// An edge in use, of length zero and weight zero.
    pub(crate) fn init() -> (res: Self)
        ensures
            res == (SuperpixelEdge { weight: ZERO_SCALE, length: 0, active: true }),
    {
        SuperpixelEdge::new(ZERO_SCALE, 0)
    }
}

/// An undirected region adjacency graph. Nodes and edges are numbered from
/// zero in the order they were added and are never removed or renumbered.
pub struct SuperpixelGraph {
    topology: petgraph::graph::Graph<(), (), petgraph::Undirected, u32>,
    nodes: Vec<SuperpixelNode>,
    edges: Vec<SuperpixelEdge>,
}

impl SuperpixelGraph {
    /// The node payloads, by node number.
    pub closed spec fn nodes(&self) -> Seq<SuperpixelNode> {
        self.nodes@
    }

    /// The edge payloads, by edge number.
    pub closed spec fn edges(&self) -> Seq<SuperpixelEdge> {
        self.edges@
    }

    /// The end nodes of each edge, by edge number.
    pub closed spec fn ends(&self) -> Seq<(nat, nat)> {
        topology_edges(self.topology)
    }

    /// The adjacency structure has as many nodes as there are payloads.
    pub closed spec fn consistent(&self) -> bool {
        topology_nodes(self.topology) == self.nodes@.len()
    }

    /// The graph is well formed: every edge has a payload and joins two
    /// different existing nodes, no two edges join the same pair of nodes,
    /// and the counts fit a 32-bit index.
    pub open spec fn wf(&self) -> bool {
        &&& self.consistent()
        &&& self.ends().len() == self.edges().len()
        &&& self.nodes().len() < u32::MAX
        &&& self.edges().len() < u32::MAX
        &&& forall|e: int|
            0 <= e < self.ends().len() ==> {
                &&& (#[trigger] self.ends()[e]).0 < self.nodes().len()
                &&& self.ends()[e].1 < self.nodes().len()
                &&& self.ends()[e].0 != self.ends()[e].1
            }
        &&& simple(self.ends())
    }

    /// A graph without nodes or edges.
    pub fn new() -> (res: Self)
        ensures
            res.wf(),
            res.nodes().len() == 0,
            res.edges().len() == 0,
    {
        SuperpixelGraph { topology: topology_new(), nodes: Vec::new(), edges: Vec::new() }
    }

    pub fn node_count(&self) -> (res: usize)
        requires
            self.wf(),
        ensures
            res == self.nodes().len(),
    {
        self.nodes.len()
    }

    pub fn edge_count(&self) -> (res: usize)
        requires
            self.wf(),
        ensures
            res == self.edges().len(),
    {
        self.edges.len()
    }

    /// The payload of node `a`.
    pub fn node_weight(&self, a: usize) -> (res: &SuperpixelNode)
        requires
            self.wf(),
            a < self.nodes().len(),
        ensures
            *res == self.nodes()[a as int],
    {
        &self.nodes[a]
    }

    /// The payload of edge `e`.
    pub fn edge_weight(&self, e: usize) -> (res: &SuperpixelEdge)
        requires
            self.wf(),
            e < self.edges().len(),
        ensures
            *res == self.edges()[e as int],
    {
        &self.edges[e]
    }

    /// The two end nodes of edge `e`, in the order it was added with.
    pub fn edge_endpoints(&self, e: usize) -> (res: (usize, usize))
        requires
            self.wf(),
            e < self.edges().len(),
        ensures
            self.ends()[e as int] == (res.0 as nat, res.1 as nat),
            res.0 < self.nodes().len(),
            res.1 < self.nodes().len(),
            res.0 != res.1,
    {
        match topology_edge_endpoints(&self.topology, e) {
            Some(ends) => ends,
            // Every edge below the edge count has its ends.
            None => vstd::pervasive::unreached(),
        }
    }

    /// The edge that joins `a` and `b`, if there is one.
    pub fn find_edge(&self, a: usize, b: usize) -> (res: Option<usize>)
        requires
            self.wf(),
        ensures
            res.is_some() <==> adjacent(self.ends(), a as nat, b as nat),
            res.is_some() ==> res.unwrap() < self.edges().len() && joins(
                self.ends()[res.unwrap() as int],
                a as nat,
                b as nat,
            ),
    {
        if a >= self.nodes.len() || b >= self.nodes.len() {
            None
        } else {
            topology_find_edge(&self.topology, a, b)
        }
    }

    /// The nodes that share an edge with `a`. A node may be listed more
    /// than once.
    pub fn neighbors(&self, a: usize) -> (res: Vec<usize>)
        requires
            self.wf(),
            a < self.nodes().len(),
        ensures
            forall|n: usize| res@.contains(n) <==> adjacent(self.ends(), a as nat, n as nat),
    {
        topology_neighbors(&self.topology, a)
    }

    /// Appends a node and returns its number.
    pub fn add_node(&mut self, node: SuperpixelNode) -> (res: usize)
        requires
            old(self).wf(),
            old(self).nodes().len() + 1 < u32::MAX,
        ensures
            final(self).wf(),
            res == old(self).nodes().len(),
            final(self).nodes() == old(self).nodes().push(node),
            final(self).edges() == old(self).edges(),
            final(self).ends() == old(self).ends(),
    {
        let id = topology_add_node(&mut self.topology);
        self.nodes.push(node);
        id
    }

    /// Appends an edge between two nodes that no edge joins yet, and
    /// returns its number.
    pub fn add_edge(&mut self, a: usize, b: usize, edge: SuperpixelEdge) -> (res: usize)
        requires
            old(self).wf(),
            a < old(self).nodes().len(),
            b < old(self).nodes().len(),
            a != b,
            !adjacent(old(self).ends(), a as nat, b as nat),
            old(self).edges().len() + 1 < u32::MAX,
        ensures
            final(self).wf(),
            res == old(self).edges().len(),
            final(self).nodes() == old(self).nodes(),
            final(self).edges() == old(self).edges().push(edge),
            final(self).ends() == old(self).ends().push((a as nat, b as nat)),
    {
        let id = topology_add_edge(&mut self.topology, a, b);
        self.edges.push(edge);
        proof {
            let old_ends = old(self).ends();
            let new_ends = self.ends();
            assert forall|e: int, f: int|
                0 <= e < new_ends.len() && 0 <= f < new_ends.len() && e != f implies !joins(
                #[trigger] new_ends[e],
                (#[trigger] new_ends[f]).0,
                new_ends[f].1,
            ) by {
                if e < old_ends.len() && f < old_ends.len() {
                    assert(new_ends[e] == old_ends[e]);
                    assert(new_ends[f] == old_ends[f]);
                } else if e < old_ends.len() {
                    assert(new_ends[e] == old_ends[e]);
                    if joins(new_ends[e], new_ends[f].0, new_ends[f].1) {
                        assert(joins(old_ends[e], a as nat, b as nat));
                    }
                } else {
                    assert(new_ends[f] == old_ends[f]);
                    if joins(new_ends[e], new_ends[f].0, new_ends[f].1) {
                        assert(joins(old_ends[f], a as nat, b as nat));
                    }
                }
            }
        }
        id
    }

    /// Replaces the payload of edge `e`.
    pub fn set_edge(&mut self, e: usize, edge: SuperpixelEdge)
        requires
            old(self).wf(),
            e < old(self).edges().len(),
        ensures
            final(self).wf(),
            final(self).nodes() == old(self).nodes(),
            final(self).edges() == old(self).edges().update(e as int, edge),
            final(self).ends() == old(self).ends(),
    {
        self.edges[e] = edge;
    }
}

/// Whether `node` holds the statistics of region `label` over the first
/// `rows` rows and the first `cols` pixels of the row after them.
pub open spec fn node_matches(
    node: SuperpixelNode,
    image: Image,
    labels: LabelMap,
    label: int,
    rows: int,
    cols: int,
) -> bool {
    let cells = image_cells(image);
    let channels = image.spec_channels() as int;
    let marks = label_cells(labels);
    let height = labels.spec_height() as int;
    let width = labels.spec_width() as int;
    let upto = rows * width + cols;
    &&& node.area == region_area(marks, label, upto)
    &&& node.perimeter == region_perimeter(marks, height, width, label, rows) + row_perimeter(
        marks,
        height,
        width,
        label,
        rows,
        cols,
    )
    &&& node.values@.len() == channels
    &&& node.values_sq@.len() == channels
    &&& forall|c: int|
        0 <= c < channels ==> #[trigger] node.values@[c] == region_sum(
            cells,
            channels,
            marks,
            label,
            c,
            upto,
        )
    &&& forall|c: int|
        0 <= c < channels ==> #[trigger] node.values_sq@[c] == region_sum_sq(
            cells,
            channels,
            marks,
            label,
            c,
            upto,
        )
}

/// The number of sides parting `u` from `v` that pixels of the first
/// `rows` rows and the first `cols` pixels of the next row share with their
/// right and lower neighbours.
pub open spec fn border_upto(labels: LabelMap, rows: int, cols: int, u: int, v: int) -> int {
    let marks = label_cells(labels);
    let height = labels.spec_height() as int;
    let width = labels.spec_width() as int;
    shared_border(marks, height, width, rows, u, v) + row_border(
        marks,
        height,
        width,
        rows,
        cols,
        u,
        v,
    )
}

impl SuperpixelGraph {
    /// Adds the pixel at `(y, x)`, with `sides` of its sides on the boundary
    /// of its region, to the statistics of node `label`.
    fn absorb(&mut self, label: usize, image: &Image, y: usize, x: usize, sides: u32)
        requires
            old(self).wf(),
            label < old(self).nodes().len(),
            y < image.spec_height(),
            x < image.spec_width(),
            old(self).nodes()[label as int].values@.len() == image.spec_channels(),
            old(self).nodes()[label as int].values_sq@.len() == image.spec_channels(),
            old(self).nodes()[label as int].area < u32::MAX,
            old(self).nodes()[label as int].perimeter + sides <= u32::MAX,
            forall|c: int|
                0 <= c < image.spec_channels() ==> old(self).nodes()[label as int].values@[c] + 255
                    <= u64::MAX,
            forall|c: int|
                0 <= c < image.spec_channels() ==> old(self).nodes()[label as int].values_sq@[c]
                    + 65025 <= u64::MAX,
        ensures
            final(self).wf(),
            final(self).ends() == old(self).ends(),
            final(self).edges() == old(self).edges(),
            final(self).nodes().len() == old(self).nodes().len(),
            forall|n: int|
                0 <= n < old(self).nodes().len() && n != label ==> final(self).nodes()[n] == old(self).nodes()[n],
            final(self).nodes()[label as int].area == old(self).nodes()[label as int].area + 1,
            final(self).nodes()[label as int].perimeter == old(self).nodes()[label as int].perimeter
                + sides,
            final(self).nodes()[label as int].values@.len() == image.spec_channels(),
            final(self).nodes()[label as int].values_sq@.len() == image.spec_channels(),
            forall|c: int|
                0 <= c < image.spec_channels() ==> #[trigger] final(self).nodes()[label as int].values@[c] == old(self).nodes()[label as int].values@[c]
                    + image.at(y as int, x as int, c),
            forall|c: int|
                0 <= c < image.spec_channels() ==> #[trigger] final(self).nodes()[label as int].values_sq@[c] == old(self).nodes()[label as int].values_sq@[c] + image.at(y as int, x as int, c) * image.at(
                    y as int,
                    x as int,
                    c,
                ),
    {
        let (_, _, channels) = image.dim();
        self.nodes[label].area = self.nodes[label].area + 1;
        self.nodes[label].perimeter = self.nodes[label].perimeter + sides;
        let mut c: usize = 0;
        while c < channels
            invariant
                c <= channels,
                channels == image.spec_channels(),
                y < image.spec_height(),
                x < image.spec_width(),
                label < old(self).nodes().len(),
                self.topology == old(self).topology,
                self.edges == old(self).edges,
                self.nodes@.len() == old(self).nodes@.len(),
                forall|n: int|
                    0 <= n < old(self).nodes@.len() && n != label ==> self.nodes@[n] == old(self).nodes@[n],
                self.nodes@[label as int].area == old(self).nodes@[label as int].area + 1,
                self.nodes@[label as int].perimeter == old(self).nodes@[label as int].perimeter
                    + sides,
                self.nodes@[label as int].values@.len() == channels,
                self.nodes@[label as int].values_sq@.len() == channels,
                forall|d: int|
                    0 <= d < channels ==> old(self).nodes@[label as int].values@[d] + 255
                        <= u64::MAX,
                forall|d: int|
                    0 <= d < channels ==> old(self).nodes@[label as int].values_sq@[d] + 65025
                        <= u64::MAX,
                forall|d: int|
                    0 <= d < c ==> #[trigger] self.nodes@[label as int].values@[d] == old(self).nodes@[label as int].values@[d] + image.at(y as int, x as int, d),
                forall|d: int|
                    c <= d < channels ==> #[trigger] self.nodes@[label as int].values@[d] == old(self).nodes@[label as int].values@[d],
                forall|d: int|
                    0 <= d < c ==> #[trigger] self.nodes@[label as int].values_sq@[d] == old(self).nodes@[label as int].values_sq@[d] + image.at(y as int, x as int, d)
                        * image.at(y as int, x as int, d),
                forall|d: int|
                    c <= d < channels ==> #[trigger] self.nodes@[label as int].values_sq@[d]
                        == old(self).nodes@[label as int].values_sq@[d],
            decreases channels - c,
        {
            let v: u64 = image.get(y, x, c) as u64;
            assert(v * v <= 65025) by (nonlinear_arith)
                requires
                    0 <= v <= 255,
            ;
            let sum: u64 = self.nodes[label].values.get(c) + v;
            let sum_sq: u64 = self.nodes[label].values_sq.get(c) + v * v;
            self.nodes[label].values.set(c, sum);
            self.nodes[label].values_sq.set(c, sum_sq);
            c = c + 1;
        }
    }

    /// Counts one more shared pixel side between the regions `a` and `b`:
    /// on their edge, which is made if they had none.
    fn touch_edge(&mut self, a: usize, b: usize)
        requires
            old(self).wf(),
            a < old(self).nodes().len(),
            b < old(self).nodes().len(),
            a != b,
            old(self).edges().len() + 1 < u32::MAX,
            forall|e: int|
                0 <= e < old(self).edges().len() ==> (#[trigger] old(self).edges()[e]).length
                    < u32::MAX,
        ensures
            final(self).wf(),
            final(self).nodes() == old(self).nodes(),
            adjacent(old(self).ends(), a as nat, b as nat) ==> {
                &&& final(self).ends() == old(self).ends()
                &&& exists|e: int|
                    {
                        &&& 0 <= e < old(self).ends().len()
                        &&& joins(#[trigger] old(self).ends()[e], a as nat, b as nat)
                        &&& final(self).edges() == old(self).edges().update(
                            e,
                            SuperpixelEdge {
                                length: (old(self).edges()[e].length + 1) as u32,
                                ..old(self).edges()[e]
                            },
                        )
                    }
            },
            !adjacent(old(self).ends(), a as nat, b as nat) ==> {
                &&& final(self).ends() == old(self).ends().push((a as nat, b as nat))
                &&& final(self).edges() == old(self).edges().push(
                    SuperpixelEdge { weight: ZERO_SCALE, length: 1, active: true },
                )
            },
    {
        match self.find_edge(a, b) {
            Some(e) => {
                let before = self.edges[e];
                self.edges[e] = SuperpixelEdge {
                    weight: before.weight,
                    length: before.length + 1,
                    active: before.active,
                };
                assert(joins(old(self).ends()[e as int], a as nat, b as nat));
            },
            None => {
                self.add_edge(a, b, SuperpixelEdge::new(ZERO_SCALE, 1));
            },
        }
    }
}

/// The number of sides of the pixel at `(y, x)` that lie on the boundary of
/// its region.
fn count_open_sides(labels: &LabelMap, y: usize, x: usize) -> (res: u32)
    requires
        labels.has(y as int, x as int),
        labels.spec_height() * labels.spec_width() <= usize::MAX,
    ensures
        res == open_sides(
            label_cells(*labels),
            labels.spec_height() as int,
            labels.spec_width() as int,
            y as int,
            x as int,
        ),
{
    let (height, width) = labels.dim();
    let own = labels.get(y, x);
    let mut sides: u32 = 0;
    if x == 0 || labels.get(y, x - 1) != own {
        sides = sides + 1;
    }
    if x + 1 >= width || labels.get(y, x + 1) != own {
        sides = sides + 1;
    }
    if y == 0 || labels.get(y - 1, x) != own {
        sides = sides + 1;
    }
    if y + 1 >= height || labels.get(y + 1, x) != own {
        sides = sides + 1;
    }
    sides
}

/// The largest label of a label map.
fn largest_label(labels: &LabelMap) -> (res: usize)
    ensures
        res == max_label(label_cells(*labels), label_cells(*labels).len() as int),
{
    let (height, width) = labels.dim();
    let mut largest: usize = 0;
    let mut y: usize = 0;
    while y < height
        invariant
            y <= height,
            height == labels.spec_height(),
            width == labels.spec_width(),
            label_cells(*labels).len() == height * width,
            largest == max_label(label_cells(*labels), y * width),
        decreases height - y,
    {
        let mut x: usize = 0;
        while x < width
            invariant
                y < height,
                x <= width,
                height == labels.spec_height(),
                width == labels.spec_width(),
                label_cells(*labels).len() == height * width,
                largest == max_label(label_cells(*labels), y * width + x),
            decreases width - x,
        {
            let label = labels.get(y, x);
            if label > largest {
                largest = label;
            }
            x = x + 1;
        }
        assert(y * width + width == (y + 1) * width) by (nonlinear_arith);
        y = y + 1;
    }
    largest
}

/// The sides parting `u` from `v` counted so far while the pixel at
/// `(rows, cols)` is being looked at: those of the pixels before it, its
/// right side once `stage` is at least one, and its lower side once `stage`
/// is two.
pub open spec fn border_staged(
    labels: LabelMap,
    rows: int,
    cols: int,
    stage: int,
    u: int,
    v: int,
) -> int {
    let marks = label_cells(labels);
    let height = labels.spec_height() as int;
    let width = labels.spec_width() as int;
    border_upto(labels, rows, cols, u, v) + (if stage >= 1 && right_border(
        marks,
        width,
        rows,
        cols,
        u,
        v,
    ) {
        1int
    } else {
        0int
    }) + (if stage >= 2 && lower_border(marks, height, width, rows, cols, u, v) {
        1int
    } else {
        0int
    })
}

/// Whether every node holds the statistics of its region over the first
/// `rows` rows and the first `cols` pixels of the next row.
pub open spec fn nodes_match(
    nodes: Seq<SuperpixelNode>,
    image: Image,
    labels: LabelMap,
    rows: int,
    cols: int,
) -> bool {
    forall|n: int|
        0 <= n < nodes.len() ==> node_matches(#[trigger] nodes[n], image, labels, n, rows, cols)
}

/// Whether the edges are those between regions that share a side counted
/// so far, each in use, without a scale, and holding the number of sides
/// counted for its two regions.
pub open spec fn edges_match(
    ends: Seq<(nat, nat)>,
    edges: Seq<SuperpixelEdge>,
    count: int,
    labels: LabelMap,
    rows: int,
    cols: int,
    stage: int,
) -> bool {
    &&& forall|e: int|
        0 <= e < edges.len() ==> {
            &&& (#[trigger] edges[e]).active
            &&& edges[e].weight == ZERO_SCALE
            &&& edges[e].length >= 1
            &&& edges[e].length == border_staged(
                labels,
                rows,
                cols,
                stage,
                ends[e].0 as int,
                ends[e].1 as int,
            )
        }
    &&& forall|u: int, v: int|
        0 <= u < count && 0 <= v < count && u != v && #[trigger] border_staged(
            labels,
            rows,
            cols,
            stage,
            u,
            v,
        ) > 0 ==> adjacent(ends, u as nat, v as nat)
}

/// Whether the graph is the region adjacency graph of the labelled image,
/// as far as the first `rows` rows and the first `cols` pixels of the next
/// row tell: one node per label up to the largest, with that region's
/// statistics, and one edge for each two regions that share a pixel side,
/// with the number of sides they share.
pub open spec fn graph_matches(
    graph: SuperpixelGraph,
    image: Image,
    labels: LabelMap,
    rows: int,
    cols: int,
) -> bool {
    let count = max_label(label_cells(labels), label_cells(labels).len() as int) + 1;
    &&& graph.wf()
    &&& graph.nodes().len() == count
    &&& nodes_match(graph.nodes(), image, labels, rows, cols)
    &&& edges_match(graph.ends(), graph.edges(), count, labels, rows, cols, 0)
}

/// A pixel of the image has a place among its cells.
proof fn lemma_pixel_in_image(height: int, width: int, y: int, x: int)
    requires
        0 <= y < height,
        0 <= x < width,
    ensures
        0 <= y * width + x < height * width,
        y * width + x + 1 <= height * width,
{
    assert(y * width + width <= height * width) by (nonlinear_arith)
        requires
            0 <= y < height,
            0 <= width,
    ;
    assert(0 <= y * width) by (nonlinear_arith)
        requires
            0 <= y,
            0 <= width,
    ;
}

/// Taking in the pixel at `(y, x)` carries the node statistics from the
/// pixels before it to the pixels up to and including it.
proof fn lemma_absorb_step(
    before: Seq<SuperpixelNode>,
    after: Seq<SuperpixelNode>,
    image: Image,
    labels: LabelMap,
    y: int,
    x: int,
)
    requires
        0 <= y < labels.spec_height(),
        0 <= x < labels.spec_width(),
        image.spec_height() == labels.spec_height(),
        image.spec_width() == labels.spec_width(),
        nodes_match(before, image, labels, y, x),
        labels.at(y, x) < before.len(),
        after.len() == before.len(),
        forall|n: int| 0 <= n < before.len() && n != labels.at(y, x) ==> after[n] == before[n],
        ({
            let own = labels.at(y, x) as int;
            let channels = image.spec_channels() as int;
            &&& after[own].area == before[own].area + 1
            &&& after[own].perimeter == before[own].perimeter + open_sides(
                label_cells(labels),
                labels.spec_height() as int,
                labels.spec_width() as int,
                y,
                x,
            )
            &&& after[own].values@.len() == channels
            &&& after[own].values_sq@.len() == channels
            &&& forall|c: int|
                0 <= c < channels ==> #[trigger] after[own].values@[c] == before[own].values@[c]
                    + image.at(y, x, c)
            &&& forall|c: int|
                0 <= c < channels ==> #[trigger] after[own].values_sq@[c]
                    == before[own].values_sq@[c] + image.at(y, x, c) * image.at(y, x, c)
        }),
    ensures
        nodes_match(after, image, labels, y, x + 1),
{
    let marks = label_cells(labels);
    let cells = image_cells(image);
    let channels = image.spec_channels() as int;
    let width = labels.spec_width() as int;
    let upto = y * width + x;
    let own = labels.at(y, x) as int;
    assert(marks[upto] == labels.at(y, x));
    assert forall|n: int| 0 <= n < after.len() implies node_matches(
        #[trigger] after[n],
        image,
        labels,
        n,
        y,
        x + 1,
    ) by {
        assert(node_matches(before[n], image, labels, n, y, x));
        assert(y * width + (x + 1) == upto + 1);
        assert(region_area(marks, n, upto + 1) == region_area(marks, n, upto) + if marks[upto]
            == n {
            1int
        } else {
            0int
        });
        assert forall|c: int| 0 <= c < channels implies #[trigger] after[n].values@[c]
            == region_sum(cells, channels, marks, n, c, upto + 1) by {
            assert(before[n].values@[c] == region_sum(cells, channels, marks, n, c, upto));
            assert(image.at(y, x, c) == cells[upto * channels + c]);
        }
        assert forall|c: int| 0 <= c < channels implies #[trigger] after[n].values_sq@[c]
            == region_sum_sq(cells, channels, marks, n, c, upto + 1) by {
            assert(before[n].values_sq@[c] == region_sum_sq(cells, channels, marks, n, c, upto));
            assert(image.at(y, x, c) == cells[upto * channels + c]);
        }
    }
}

/// What `touch_edge` does to the ends and payloads of the edges.
pub open spec fn touched(
    ends: Seq<(nat, nat)>,
    edges: Seq<SuperpixelEdge>,
    new_ends: Seq<(nat, nat)>,
    new_edges: Seq<SuperpixelEdge>,
    a: nat,
    b: nat,
) -> bool {
    &&& adjacent(ends, a, b) ==> {
        &&& new_ends == ends
        &&& exists|e: int|
            {
                &&& 0 <= e < ends.len()
                &&& joins(#[trigger] ends[e], a, b)
                &&& new_edges == edges.update(
                    e,
                    SuperpixelEdge { length: (edges[e].length + 1) as u32, ..edges[e] },
                )
            }
    }
    &&& !adjacent(ends, a, b) ==> {
        &&& new_ends == ends.push((a, b))
        &&& new_edges == edges.push(SuperpixelEdge { weight: ZERO_SCALE, length: 1, active: true })
    }
}

/// Whether no two of the edges join the same pair of nodes.
pub open spec fn simple(ends: Seq<(nat, nat)>) -> bool {
    forall|e: int, f: int|
        0 <= e < ends.len() && 0 <= f < ends.len() && e != f ==> !joins(
            #[trigger] ends[e],
            (#[trigger] ends[f]).0,
            ends[f].1,
        )
}

/// Counting the side between two pixels of different labels on the edge of
/// their regions carries the edges from one stage to the next.
proof fn lemma_touch_step(
    ends: Seq<(nat, nat)>,
    edges: Seq<SuperpixelEdge>,
    new_ends: Seq<(nat, nat)>,
    new_edges: Seq<SuperpixelEdge>,
    count: int,
    labels: LabelMap,
    y: int,
    x: int,
    stage: int,
    a: nat,
    b: nat,
)
    requires
        0 <= y < labels.spec_height(),
        0 <= x < labels.spec_width(),
        stage == 0 || stage == 1,
        ends.len() == edges.len(),
        simple(ends),
        forall|e: int| 0 <= e < ends.len() ==> (#[trigger] ends[e]).0 != ends[e].1,
        edges_match(ends, edges, count, labels, y, x, stage),
        a != b,
        a < count,
        b < count,
        a == labels.at(y, x),
        stage == 0 ==> x + 1 < labels.spec_width() && b == labels.at(y, x + 1),
        stage == 1 ==> y + 1 < labels.spec_height() && b == labels.at(y + 1, x),
        touched(ends, edges, new_ends, new_edges, a, b),
        forall|e: int| 0 <= e < edges.len() ==> (#[trigger] edges[e]).length < u32::MAX,
    ensures
        edges_match(new_ends, new_edges, count, labels, y, x, stage + 1),
{
    let marks = label_cells(labels);
    let height = labels.spec_height() as int;
    let width = labels.spec_width() as int;
    assert((y + 1) * width + x == y * width + x + width) by (nonlinear_arith);
    // The side just counted parts exactly the pair {a, b}.
    assert forall|u: int, v: int| u != v implies #[trigger] border_staged(
        labels,
        y,
        x,
        stage + 1,
        u,
        v,
    ) == border_staged(labels, y, x, stage, u, v) + if joins((u as nat, v as nat), a, b) && u >= 0
        && v >= 0 {
        1int
    } else {
        0int
    } by {
        if stage == 0 {
            assert(right_border(marks, width, y, x, u, v) <==> (joins((u as nat, v as nat), a, b)
                && u >= 0 && v >= 0));
        } else {
            assert(lower_border(marks, height, width, y, x, u, v) <==> (joins(
                (u as nat, v as nat),
                a,
                b,
            ) && u >= 0 && v >= 0));
        }
    }
    lemma_row_border_bounds(marks, height, width, y, x, a as int, b as int);
    lemma_shared_border_bounds(marks, height, width, y, a as int, b as int);
    if adjacent(ends, a, b) {
        let e0 = choose|e: int|
            {
                &&& 0 <= e < ends.len()
                &&& joins(#[trigger] ends[e], a, b)
                &&& new_edges == edges.update(
                    e,
                    SuperpixelEdge { length: (edges[e].length + 1) as u32, ..edges[e] },
                )
            };
        assert forall|e: int| 0 <= e < new_edges.len() implies {
            &&& (#[trigger] new_edges[e]).active
            &&& new_edges[e].weight == ZERO_SCALE
            &&& new_edges[e].length >= 1
            &&& new_edges[e].length == border_staged(
                labels,
                y,
                x,
                stage + 1,
                new_ends[e].0 as int,
                new_ends[e].1 as int,
            )
        } by {
            assert(edges[e].active);
            assert(ends[e].0 != ends[e].1);
            if e != e0 {
                assert(!joins(ends[e], ends[e0].0, ends[e0].1));
            }
        }
        assert forall|u: int, v: int|
            0 <= u < count && 0 <= v < count && u != v && #[trigger] border_staged(
                labels,
                y,
                x,
                stage + 1,
                u,
                v,
            ) > 0 implies adjacent(new_ends, u as nat, v as nat) by {
            if joins((u as nat, v as nat), a, b) {
                assert(joins(ends[e0], u as nat, v as nat));
            } else {
                assert(border_staged(labels, y, x, stage, u, v) > 0);
            }
        }
    } else {
        assert(border_staged(labels, y, x, stage, a as int, b as int) <= 0);
        assert(border_staged(labels, y, x, stage, b as int, a as int) <= 0);
        assert forall|e: int| 0 <= e < new_edges.len() implies {
            &&& (#[trigger] new_edges[e]).active
            &&& new_edges[e].weight == ZERO_SCALE
            &&& new_edges[e].length >= 1
            &&& new_edges[e].length == border_staged(
                labels,
                y,
                x,
                stage + 1,
                new_ends[e].0 as int,
                new_ends[e].1 as int,
            )
        } by {
            if e < edges.len() {
                assert(edges[e].active);
                assert(ends[e].0 != ends[e].1);
                assert(new_ends[e] == ends[e]);
                assert(!joins(ends[e], a, b));
            }
        }
        assert forall|u: int, v: int|
            0 <= u < count && 0 <= v < count && u != v && #[trigger] border_staged(
                labels,
                y,
                x,
                stage + 1,
                u,
                v,
            ) > 0 implies adjacent(new_ends, u as nat, v as nat) by {
            if joins((u as nat, v as nat), a, b) {
                assert(joins(new_ends[ends.len() as int], u as nat, v as nat));
            } else {
                assert(border_staged(labels, y, x, stage, u, v) > 0);
                let e = choose|e: int|
                    0 <= e < ends.len() && joins(#[trigger] ends[e], u as nat, v as nat);
                assert(joins(new_ends[e], u as nat, v as nat));
            }
        }
    }
}

/// Where the pixel at `(y, x)` has no neighbour of another label on the
/// side that a stage looks at, the edges pass to the next stage as they
/// are.
proof fn lemma_skip_step(
    ends: Seq<(nat, nat)>,
    edges: Seq<SuperpixelEdge>,
    count: int,
    labels: LabelMap,
    y: int,
    x: int,
    stage: int,
)
    requires
        0 <= y < labels.spec_height(),
        0 <= x < labels.spec_width(),
        stage == 0 || stage == 1,
        ends.len() == edges.len(),
        forall|e: int| 0 <= e < ends.len() ==> (#[trigger] ends[e]).0 != ends[e].1,
        edges_match(ends, edges, count, labels, y, x, stage),
        stage == 0 ==> !(x + 1 < labels.spec_width()) || labels.at(y, x + 1) == labels.at(y, x),
        stage == 1 ==> !(y + 1 < labels.spec_height()) || labels.at(y + 1, x) == labels.at(y, x),
    ensures
        edges_match(ends, edges, count, labels, y, x, stage + 1),
{
    let width = labels.spec_width() as int;
    assert((y + 1) * width + x == y * width + x + width) by (nonlinear_arith);
    assert forall|u: int, v: int| u != v implies #[trigger] border_staged(
        labels,
        y,
        x,
        stage + 1,
        u,
        v,
    ) == border_staged(labels, y, x, stage, u, v) by {}
    assert forall|e: int| 0 <= e < edges.len() implies {
        &&& (#[trigger] edges[e]).active
        &&& edges[e].weight == ZERO_SCALE
        &&& edges[e].length >= 1
        &&& edges[e].length == border_staged(
            labels,
            y,
            x,
            stage + 1,
            ends[e].0 as int,
            ends[e].1 as int,
        )
    } by {
        assert(ends[e].0 != ends[e].1);
    }
}

/// Once both sides of the pixel at `(y, x)` are counted, the edges stand
/// as they should before the next pixel of the row.
proof fn lemma_next_pixel(
    ends: Seq<(nat, nat)>,
    edges: Seq<SuperpixelEdge>,
    count: int,
    labels: LabelMap,
    y: int,
    x: int,
)
    requires
        0 <= x,
        edges_match(ends, edges, count, labels, y, x, 2),
    ensures
        edges_match(ends, edges, count, labels, y, x + 1, 0),
{
    assert forall|u: int, v: int| #[trigger]
        border_staged(labels, y, x + 1, 0, u, v) == border_staged(labels, y, x, 2, u, v) by {}
}

/// At the end of a row the statistics and the edges stand as they should
/// before the first pixel of the next row.
proof fn lemma_next_row(graph: SuperpixelGraph, image: Image, labels: LabelMap, y: int)
    requires
        0 <= y,
        graph_matches(graph, image, labels, y, labels.spec_width() as int),
    ensures
        graph_matches(graph, image, labels, y + 1, 0),
{
    let width = labels.spec_width() as int;
    let count = max_label(label_cells(labels), label_cells(labels).len() as int) + 1;
    assert(y * width + width == (y + 1) * width + 0) by (nonlinear_arith);
    assert forall|n: int| 0 <= n < graph.nodes().len() implies node_matches(
        #[trigger] graph.nodes()[n],
        image,
        labels,
        n,
        y + 1,
        0,
    ) by {
        assert(node_matches(graph.nodes()[n], image, labels, n, y, width));
    }
    assert forall|u: int, v: int| #[trigger]
        border_staged(labels, y + 1, 0, 0, u, v) == border_staged(labels, y, width, 0, u, v) by {}
}

/// While the pixel at `(y, x)` is waiting to be taken in, the statistics
/// gathered so far leave room for it in every counter of every node.
proof fn lemma_node_room(
    nodes: Seq<SuperpixelNode>,
    image: Image,
    labels: LabelMap,
    y: int,
    x: int,
)
    requires
        0 <= y < labels.spec_height(),
        0 <= x < labels.spec_width(),
        4 * (labels.spec_height() * labels.spec_width()) < u32::MAX,
        nodes_match(nodes, image, labels, y, x),
    ensures
        forall|n: int|
            0 <= n < nodes.len() ==> {
                &&& (#[trigger] nodes[n]).area < u32::MAX
                &&& nodes[n].perimeter + 4 <= u32::MAX
                &&& forall|c: int|
                    0 <= c < image.spec_channels() ==> (#[trigger] nodes[n].values@[c]) + 255
                        <= u64::MAX
                &&& forall|c: int|
                    0 <= c < image.spec_channels() ==> (#[trigger] nodes[n].values_sq@[c]) + 65025
                        <= u64::MAX
            },
{
    let marks = label_cells(labels);
    let cells = image_cells(image);
    let channels = image.spec_channels() as int;
    let height = labels.spec_height() as int;
    let width = labels.spec_width() as int;
    lemma_pixel_in_image(height, width, y, x);
    assert forall|n: int| 0 <= n < nodes.len() implies {
        &&& (#[trigger] nodes[n]).area < u32::MAX
        &&& nodes[n].perimeter + 4 <= u32::MAX
        &&& forall|c: int| 0 <= c < channels ==> (#[trigger] nodes[n].values@[c]) + 255 <= u64::MAX
        &&& forall|c: int|
            0 <= c < channels ==> (#[trigger] nodes[n].values_sq@[c]) + 65025 <= u64::MAX
    } by {
        assert(node_matches(nodes[n], image, labels, n, y, x));
        lemma_region_bounds(cells, channels, marks, n, 0, y * width + x);
        lemma_region_perimeter_bounds(marks, height, width, n, y);
        lemma_row_perimeter_bounds(marks, height, width, n, y, x);
        assert forall|c: int| 0 <= c < channels implies (#[trigger] nodes[n].values@[c]) + 255
            <= u64::MAX by {
            lemma_region_bounds(cells, channels, marks, n, c, y * width + x);
        }
        assert forall|c: int| 0 <= c < channels implies (#[trigger] nodes[n].values_sq@[c]) + 65025
            <= u64::MAX by {
            lemma_region_bounds(cells, channels, marks, n, c, y * width + x);
        }
    }
}

/// While the pixel at `(y, x)` is looked at, every edge has room for one
/// more side.
proof fn lemma_edge_room(
    ends: Seq<(nat, nat)>,
    edges: Seq<SuperpixelEdge>,
    count: int,
    labels: LabelMap,
    y: int,
    x: int,
    stage: int,
)
    requires
        0 <= y < labels.spec_height(),
        0 <= x < labels.spec_width(),
        0 <= stage <= 2,
        4 * (labels.spec_height() * labels.spec_width()) < u32::MAX,
        edges_match(ends, edges, count, labels, y, x, stage),
    ensures
        forall|e: int| 0 <= e < edges.len() ==> (#[trigger] edges[e]).length < u32::MAX,
{
    let marks = label_cells(labels);
    let height = labels.spec_height() as int;
    let width = labels.spec_width() as int;
    lemma_pixel_in_image(height, width, y, x);
    assert forall|e: int| 0 <= e < edges.len() implies (#[trigger] edges[e]).length
        < u32::MAX by {
        let u = ends[e].0 as int;
        let v = ends[e].1 as int;
        lemma_shared_border_bounds(marks, height, width, y, u, v);
        lemma_row_border_bounds(marks, height, width, y, x, u, v);
        assert(edges[e].length == border_staged(labels, y, x, stage, u, v));
    }
}

/// The squared deviation of a region from its mean, summed over the first
/// `upto` channels and multiplied by the region's pixel count: per channel
/// the pixel count times the sum of squares, less the square of the sum.
pub open spec fn deviation(values: Seq<u64>, values_sq: Seq<u64>, area: int, upto: int) -> int
    decreases upto,
{
    if upto <= 0 {
        0
    } else {
        deviation(values, values_sq, area, upto - 1) + (area * values_sq[upto - 1] - values[upto
            - 1] * values[upto - 1])
    }
}

/// Whether in each of the first `upto` channels the square of the sum is at
/// most the pixel count times the sum of squares.
pub open spec fn spread(values: Seq<u64>, values_sq: Seq<u64>, area: int, upto: int) -> bool {
    forall|c: int| 0 <= c < upto ==> (#[trigger] values[c]) * values[c] <= area * values_sq[c]
}

/// Where no channel's sum exceeds what its squares allow, the deviation is
/// not negative and grows with the channels.
pub proof fn lemma_deviation_grows(values: Seq<u64>, values_sq: Seq<u64>, area: int, upto: int, all: int)
    requires
        0 <= upto <= all,
        spread(values, values_sq, area, all),
    ensures
        0 <= deviation(values, values_sq, area, upto) <= deviation(values, values_sq, area, all),
    decreases all - upto,
{
    lemma_deviation_nonnegative(values, values_sq, area, upto);
    if upto < all {
        lemma_deviation_grows(values, values_sq, area, upto + 1, all);
        assert(values[upto] * values[upto] <= area * values_sq[upto]);
    }
}

proof fn lemma_deviation_nonnegative(values: Seq<u64>, values_sq: Seq<u64>, area: int, upto: int)
    requires
        0 <= upto,
        spread(values, values_sq, area, upto),
    ensures
        0 <= deviation(values, values_sq, area, upto),
    decreases upto,
{
    if upto > 0 {
        lemma_deviation_nonnegative(values, values_sq, area, upto - 1);
        assert(values[upto - 1] * values[upto - 1] <= area * values_sq[upto - 1]);
    }
}

/// The data fidelity of a region, times its pixel count: the sum over the
/// channels of the pixel count times the sum of squares, less the square of
/// the sum. The data fidelity itself, the squared deviation of the region
/// from its mean, is this number divided by the pixel count.
///
/// Returns nothing where a channel's sum exceeds what its squares allow,
/// which no region's statistics do, or where the result does not fit.
pub fn data_fidelity(values: &ChannelSums, values_sq: &ChannelSums, area: u32) -> (res: Option<
    u128,
>)
    requires
        values@.len() == values_sq@.len(),
    ensures
        res.is_some() <==> spread(values@, values_sq@, area as int, values@.len() as int)
            && deviation(values@, values_sq@, area as int, values@.len() as int) <= u128::MAX,
        res.is_some() ==> res.unwrap() == deviation(
            values@,
            values_sq@,
            area as int,
            values@.len() as int,
        ),
{
    let channels = values.len();
    let mut sum: u128 = 0;
    let mut c: usize = 0;
    while c < channels
        invariant
            c <= channels,
            channels == values@.len(),
            channels == values_sq@.len(),
            spread(values@, values_sq@, area as int, c as int),
            sum == deviation(values@, values_sq@, area as int, c as int),
        decreases channels - c,
    {
        let value = values.get(c) as u128;
        let squares = values_sq.get(c) as u128;
        assert(value * value <= 0xffff_ffff_ffff_ffff * 0xffff_ffff_ffff_ffff && (area as u128)
            * squares <= 0xffff_ffff * 0xffff_ffff_ffff_ffff) by (nonlinear_arith)
            requires
                0 <= value <= 0xffff_ffff_ffff_ffff,
                0 <= squares <= 0xffff_ffff_ffff_ffff,
                0 <= area <= 0xffff_ffff,
        ;
        let squared = value * value;
        let scaled = (area as u128) * squares;
        if squared > scaled {
            return None;
        }
        match sum.checked_add(scaled - squared) {
            Some(next) => {
                sum = next;
            },
            None => {
                proof {
                    assert(spread(values@, values_sq@, area as int, channels as int) ==> deviation(
                        values@,
                        values_sq@,
                        area as int,
                        channels as int,
                    ) > u128::MAX) by {
                        if spread(values@, values_sq@, area as int, channels as int) {
                            lemma_deviation_grows(
                                values@,
                                values_sq@,
                                area as int,
                                c + 1,
                                channels as int,
                            );
                        }
                    }
                }
                return None;
            },
        }
        c = c + 1;
    }
    Some(sum)
}

/// Whether the statistics of the union of two regions that share `length`
/// pixel sides fit the counters of a node.
pub open spec fn merge_fits(a: SuperpixelNode, b: SuperpixelNode, length: int) -> bool {
    &&& a.area + b.area <= u32::MAX
    &&& 0 <= a.perimeter + b.perimeter - 2 * length <= u32::MAX
    &&& forall|c: int| 0 <= c < a.values@.len() ==> a.values@[c] + b.values@[c] <= u64::MAX
    &&& forall|c: int| 0 <= c < a.values_sq@.len() ==> a.values_sq@[c] + b.values_sq@[c] <= u64::MAX
}

/// Whether `m` holds the statistics of the union of the regions `a` and `b`
/// that share `length` pixel sides: the areas, sums and sums of squares add
/// up, and the shared sides leave the boundary on both sides.
pub open spec fn merged(a: SuperpixelNode, b: SuperpixelNode, length: int, m: SuperpixelNode) -> bool {
    &&& m.area == a.area + b.area
    &&& m.perimeter == a.perimeter + b.perimeter - 2 * length
    &&& m.values@.len() == a.values@.len()
    &&& m.values_sq@.len() == a.values_sq@.len()
    &&& forall|c: int| 0 <= c < a.values@.len() ==> #[trigger] m.values@[c] == a.values@[c] + b.values@[c]
    &&& forall|c: int|
        0 <= c < a.values_sq@.len() ==> #[trigger] m.values_sq@[c] == a.values_sq@[c]
            + b.values_sq@[c]
}

/// The sum of two per-channel arrays, or nothing if a channel overflows.
fn add_sums(a: &ChannelSums, b: &ChannelSums) -> (res: Option<ChannelSums>)
    requires
        a@.len() == b@.len(),
    ensures
        res.is_some() <==> forall|c: int| 0 <= c < a@.len() ==> a@[c] + b@[c] <= u64::MAX,
        res.is_some() ==> res.unwrap()@.len() == a@.len(),
        res.is_some() ==> forall|c: int|
            0 <= c < a@.len() ==> #[trigger] res.unwrap()@[c] == a@[c] + b@[c],
{
    let channels = a.len();
    let mut out = ChannelSums::zeros(channels);
    let mut c: usize = 0;
    while c < channels
        invariant
            c <= channels,
            channels == a@.len(),
            channels == b@.len(),
            out@.len() == channels,
            forall|d: int| 0 <= d < c ==> #[trigger] out@[d] == a@[d] + b@[d],
        decreases channels - c,
    {
        match a.get(c).checked_add(b.get(c)) {
            Some(sum) => {
                out.set(c, sum);
            },
            None => {
                return None;
            },
        }
        c = c + 1;
    }
    assert forall|d: int| 0 <= d < a@.len() implies a@[d] + b@[d] <= u64::MAX by {
        assert(out@[d] == a@[d] + b@[d]);
    }
    Some(out)
}

/// The statistics of the union of two regions that share `length` pixel
/// sides, or nothing where they do not fit the counters of a node.
pub fn merge_nodes(a: &SuperpixelNode, b: &SuperpixelNode, length: u32) -> (res: Option<
    SuperpixelNode,
>)
    requires
        a.values@.len() == b.values@.len(),
        a.values_sq@.len() == b.values_sq@.len(),
    ensures
        res.is_some() <==> merge_fits(*a, *b, length as int),
        res.is_some() ==> merged(*a, *b, length as int, res.unwrap()),
{
    let area: u64 = a.area as u64 + b.area as u64;
    let around: u64 = a.perimeter as u64 + b.perimeter as u64;
    let shared: u64 = 2 * (length as u64);
    if area > u32::MAX as u64 || shared > around || around - shared > u32::MAX as u64 {
        return None;
    }
    match add_sums(&a.values, &b.values) {
        None => None,
        Some(values) => match add_sums(&a.values_sq, &b.values_sq) {
            None => None,
            Some(values_sq) => Some(
                SuperpixelNode::new(area as u32, (around - shared) as u32, values, values_sq),
            ),
        },
    }
}

/// The union of two regions whose squared deviations are not negative has
/// a squared deviation that is not negative.
pub proof fn lemma_merged_deviation(
    a: SuperpixelNode,
    b: SuperpixelNode,
    length: int,
    m: SuperpixelNode,
)
    requires
        a.values@.len() == b.values@.len(),
        a.values@.len() == a.values_sq@.len(),
        b.values@.len() == b.values_sq@.len(),
        a.deviation_nonnegative(),
        b.deviation_nonnegative(),
        merged(a, b, length, m),
    ensures
        m.deviation_nonnegative(),
{
    assert forall|c: int| 0 <= c < m.values@.len() implies (#[trigger] m.values@[c]) * m.values@[c]
        <= m.area * m.values_sq@[c] by {
        let s1 = a.values@[c] as int;
        let s2 = b.values@[c] as int;
        let q1 = a.values_sq@[c] as int;
        let q2 = b.values_sq@[c] as int;
        let n1 = a.area as int;
        let n2 = b.area as int;
        assert(s1 * s1 <= n1 * q1);
        assert(s2 * s2 <= n2 * q2);
        assert(m.values@[c] == s1 + s2);
        assert(m.values_sq@[c] == q1 + q2);
        lemma_union_deviation(s1, q1, n1, s2, q2, n2);
    }
}

proof fn lemma_union_deviation(s1: int, q1: int, n1: int, s2: int, q2: int, n2: int)
    requires
        0 <= s1,
        0 <= q1,
        0 <= n1,
        0 <= s2,
        0 <= q2,
        0 <= n2,
        s1 * s1 <= n1 * q1,
        s2 * s2 <= n2 * q2,
    ensures
        (s1 + s2) * (s1 + s2) <= (n1 + n2) * (q1 + q2),
{
    // 2 * s1 * s2 <= n1 * q2 + n2 * q1, since the square of
    // n1 * q2 - n2 * q1 is not negative and bounds the product below.
    let x = n1 * q2;
    let y = n2 * q1;
    let p = s1 * s2;
    assert(0 <= x && 0 <= y && 0 <= p) by (nonlinear_arith)
        requires
            0 <= s1,
            0 <= q1,
            0 <= n1,
            0 <= s2,
            0 <= q2,
            0 <= n2,
            x == n1 * q2,
            y == n2 * q1,
            p == s1 * s2,
    ;
    assert(p * p <= x * y) by (nonlinear_arith)
        requires
            0 <= s1,
            0 <= s2,
            s1 * s1 <= n1 * q1,
            s2 * s2 <= n2 * q2,
            0 <= n1 * q1,
            0 <= n2 * q2,
            x == n1 * q2,
            y == n2 * q1,
            p == s1 * s2,
    {
        assert(p * p == (s1 * s1) * (s2 * s2));
        assert(x * y == (n1 * q1) * (n2 * q2));
        assert((s1 * s1) * (s2 * s2) <= (n1 * q1) * (n2 * q2));
    }
    assert(2 * p <= x + y) by (nonlinear_arith)
        requires
            0 <= x,
            0 <= y,
            0 <= p,
            p * p <= x * y,
    {
        assert((x - y) * (x - y) >= 0);
        assert((x + y) * (x + y) >= 4 * (x * y));
        assert((x + y) * (x + y) >= (2 * p) * (2 * p));
        if 2 * p > x + y {
            assert((2 * p) * (2 * p) > (x + y) * (x + y));
        }
    }
    assert((n1 + n2) * (q1 + q2) - (s1 + s2) * (s1 + s2) == (n1 * q1 - s1 * s1) + (n2 * q2 - s2
        * s2) + (x + y - 2 * p)) by (nonlinear_arith)
        requires
            x == n1 * q2,
            y == n2 * q1,
            p == s1 * s2,
    ;
}

/// The pixel counts of the first `upto` nodes, added up.
pub open spec fn total_area(nodes: Seq<SuperpixelNode>, upto: int) -> int
    decreases upto,
{
    if upto <= 0 {
        0
    } else {
        total_area(nodes, upto - 1) + nodes[upto - 1].area
    }
}

proof fn lemma_total_area(nodes: Seq<SuperpixelNode>, labels: Seq<usize>, pixels: int, upto: int)
    requires
        0 <= upto <= nodes.len(),
        forall|n: int| 0 <= n < nodes.len() ==> (#[trigger] nodes[n]).area == region_area(
            labels,
            n,
            pixels,
        ),
    ensures
        total_area(nodes, upto) == sum_of_areas(labels, upto, pixels),
    decreases upto,
{
    if upto > 0 {
        lemma_total_area(nodes, labels, pixels, upto - 1);
    }
}

/// In the region adjacency graph of a labelled image the pixel counts of
/// the nodes add up to the number of pixels, and every node's squared
/// deviation from its mean is not negative in any channel.
pub proof fn lemma_graph_totals(graph: SuperpixelGraph, image: Image, labels: LabelMap)
    requires
        label_cells(labels).len() == labels.spec_height() * labels.spec_width(),
        graph_matches(graph, image, labels, labels.spec_height() as int, 0),
    ensures
        total_area(graph.nodes(), graph.nodes().len() as int) == labels.spec_height()
            * labels.spec_width(),
        forall|n: int|
            0 <= n < graph.nodes().len() ==> (#[trigger] graph.nodes()[n]).deviation_nonnegative(),
{
    let marks = label_cells(labels);
    let cells = image_cells(image);
    let channels = image.spec_channels() as int;
    let height = labels.spec_height() as int;
    let width = labels.spec_width() as int;
    let nodes = graph.nodes();
    let pixels = height * width;
    assert(pixels == height * width + 0);
    lemma_max_label_bounds(marks, marks.len() as int);
    assert forall|n: int| 0 <= n < nodes.len() implies (#[trigger] nodes[n]).area == region_area(
        marks,
        n,
        pixels,
    ) by {
        assert(node_matches(nodes[n], image, labels, n, height, 0));
    }
    lemma_total_area(nodes, marks, pixels, nodes.len() as int);
    lemma_areas_cover(marks, nodes.len() as int, pixels);
    assert forall|n: int| 0 <= n < nodes.len() implies (#[trigger] nodes[n]).deviation_nonnegative(
    ) by {
        assert(node_matches(nodes[n], image, labels, n, height, 0));
        assert forall|c: int| 0 <= c < nodes[n].values@.len() implies (#[trigger] nodes[n].values@[c])
            * nodes[n].values@[c] <= nodes[n].area * nodes[n].values_sq@[c] by {
            lemma_sum_squared(cells, channels, marks, n, c, pixels);
            assert(nodes[n].values@[c] == region_sum(cells, channels, marks, n, c, pixels));
            assert(nodes[n].values_sq@[c] == region_sum_sq(cells, channels, marks, n, c, pixels));
        }
    }
}

/// In the region adjacency graph of an image whose pixels are all alike,
/// every node's squared deviation from its mean is zero in every channel:
/// the square of its sum is its pixel count times its sum of squares.
pub proof fn lemma_uniform_image(graph: SuperpixelGraph, image: Image, labels: LabelMap)
    requires
        0 < labels.spec_width(),
        label_cells(labels).len() == labels.spec_height() * labels.spec_width(),
        image.spec_height() == labels.spec_height(),
        image.spec_width() == labels.spec_width(),
        graph_matches(graph, image, labels, labels.spec_height() as int, 0),
        forall|y: int, x: int, c: int|
            image.has(y, x, c) ==> #[trigger] image.at(y, x, c) == image.at(0, 0, c),
    ensures
        forall|n: int, c: int|
            0 <= n < graph.nodes().len() && 0 <= c < image.spec_channels() ==> (
            #[trigger] graph.nodes()[n].values@[c]) * graph.nodes()[n].values@[c]
                == graph.nodes()[n].area * graph.nodes()[n].values_sq@[c],
        forall|n: int|
            0 <= n < graph.nodes().len() ==> deviation(
                (#[trigger] graph.nodes()[n]).values@,
                graph.nodes()[n].values_sq@,
                graph.nodes()[n].area as int,
                image.spec_channels() as int,
            ) == 0,
{
    let marks = label_cells(labels);
    let cells = image_cells(image);
    let channels = image.spec_channels() as int;
    let height = labels.spec_height() as int;
    let width = labels.spec_width() as int;
    let pixels = height * width;
    let nodes = graph.nodes();
    assert(pixels == height * width + 0);
    assert forall|n: int, c: int| 0 <= n < nodes.len() && 0 <= c < channels implies (
    #[trigger] nodes[n].values@[c]) * nodes[n].values@[c] == nodes[n].area
        * nodes[n].values_sq@[c] by {
        assert(node_matches(nodes[n], image, labels, n, height, 0));
        let value = image.at(0, 0, c);
        assert forall|i: int| 0 <= i < pixels implies #[trigger] cells[i * channels + c] == value by {
            crate::slic::lemma_pixel_place(i, width, height);
            assert(image.has(i / width, i % width, c));
            assert(image.at(i / width, i % width, c) == cells[i * channels + c]);
        }
        crate::regions::lemma_uniform_region(cells, channels, marks, n, c, pixels, value);
        assert(nodes[n].values@[c] == region_sum(cells, channels, marks, n, c, pixels));
        assert(nodes[n].values_sq@[c] == region_sum_sq(cells, channels, marks, n, c, pixels));
    }
    assert forall|n: int| 0 <= n < nodes.len() implies deviation(
        (#[trigger] nodes[n]).values@,
        nodes[n].values_sq@,
        nodes[n].area as int,
        channels,
    ) == 0 by {
        lemma_no_deviation(nodes[n].values@, nodes[n].values_sq@, nodes[n].area as int, channels);
    }
}

/// Where in every channel the square of the sum is the pixel count times
/// the sum of squares, the deviation is zero.
proof fn lemma_no_deviation(values: Seq<u64>, values_sq: Seq<u64>, area: int, upto: int)
    requires
        0 <= upto,
        forall|c: int| 0 <= c < upto ==> (#[trigger] values[c]) * values[c] == area * values_sq[c],
    ensures
        deviation(values, values_sq, area, upto) == 0,
    decreases upto,
{
    if upto > 0 {
        lemma_no_deviation(values, values_sq, area, upto - 1);
        assert(values[upto - 1] * values[upto - 1] == area * values_sq[upto - 1]);
    }
}

/// Builds the region adjacency graph of a labelled image.
///
/// The graph has one node for each label up to the largest one in use.
/// Node `n` holds the pixel count of region `n`, the length of its boundary
/// (sides shared with other regions and sides on the image's edge), and per
/// channel the sum and the sum of squares of its pixels. Two regions are
/// joined by an edge exactly when they share a pixel side, and the edge
/// holds the number of sides they share. Every edge is in use and carries
/// the scale zero until a scale is assigned to it.
///
/// The label map must have the rows and columns of the image and at least
/// one pixel. The counters are 32 bits wide: four times the number of
/// pixels and the largest label must fit them.
pub fn graph_from_labels(img: &Image, labels: &LabelMap) -> (graph: SuperpixelGraph)
    requires
        labels.spec_height() == img.spec_height(),
        labels.spec_width() == img.spec_width(),
        img.spec_height() >= 1,
        img.spec_width() >= 1,
        4 * (img.spec_height() * img.spec_width()) < u32::MAX,
        max_label(label_cells(*labels), label_cells(*labels).len() as int) + 2 < u32::MAX,
    ensures
        graph_matches(graph, *img, *labels, img.spec_height() as int, 0),
        total_area(graph.nodes(), graph.nodes().len() as int) == img.spec_height()
            * img.spec_width(),
        forall|n: int|
            0 <= n < graph.nodes().len() ==> (#[trigger] graph.nodes()[n]).deviation_nonnegative(),
{
    let (height, width, channels) = img.dim();
    let (label_rows, label_cols) = labels.dim();
    let ghost marks = label_cells(*labels);
    proof {
        assert(channels <= nonzero(height as int) * nonzero(width as int) * nonzero(
            channels as int,
        )) by (nonlinear_arith)
            requires
                height >= 1,
                width >= 1,
        ;
    }
    let largest = largest_label(labels);
    let count = largest + 1;
    let mut graph = SuperpixelGraph::new();
    let mut n: usize = 0;
    while n < count
        invariant
            n <= count,
            count + 1 < u32::MAX,
            channels <= isize::MAX,
            channels == img.spec_channels(),
            graph.wf(),
            graph.nodes().len() == n,
            graph.edges().len() == 0,
            forall|i: int|
                0 <= i < n ==> {
                    &&& (#[trigger] graph.nodes()[i]).area == 0
                    &&& graph.nodes()[i].perimeter == 0
                    &&& graph.nodes()[i].values@ == Seq::new(channels as nat, |c: int| 0u64)
                    &&& graph.nodes()[i].values_sq@ == Seq::new(channels as nat, |c: int| 0u64)
                },
        decreases count - n,
    {
        graph.add_node(SuperpixelNode::init(channels));
        n = n + 1;
    }
    assert(graph_matches(graph, *img, *labels, 0, 0));
    let mut y: usize = 0;
    while y < height
        invariant
            y <= height,
            height == img.spec_height(),
            width == img.spec_width(),
            height == labels.spec_height(),
            width == labels.spec_width(),
            marks == label_cells(*labels),
            marks.len() == height * width,
            4 * (height * width) < u32::MAX,
            count == max_label(marks, marks.len() as int) + 1,
            count + 1 < u32::MAX,
            graph_matches(graph, *img, *labels, y as int, 0),
            graph.edges().len() <= 2 * (y * width),
        decreases height - y,
    {
        let mut x: usize = 0;
        while x < width
            invariant
                y < height,
                x <= width,
                height == img.spec_height(),
                width == img.spec_width(),
                height == labels.spec_height(),
                width == labels.spec_width(),
                marks == label_cells(*labels),
                marks.len() == height * width,
                4 * (height * width) < u32::MAX,
                count == max_label(marks, marks.len() as int) + 1,
                count + 1 < u32::MAX,
                graph_matches(graph, *img, *labels, y as int, x as int),
                graph.edges().len() <= 2 * (y * width + x),
            decreases width - x,
        {
            proof {
                lemma_pixel_in_image(height as int, width as int, y as int, x as int);
                lemma_max_label_bounds(marks, marks.len() as int);
                lemma_node_room(graph.nodes(), *img, *labels, y as int, x as int);
                lemma_edge_room(
                    graph.ends(),
                    graph.edges(),
                    count as int,
                    *labels,
                    y as int,
                    x as int,
                    0,
                );
                assert(marks[y * width + x] <= max_label(marks, marks.len() as int));
                if x + 1 < width {
                    lemma_pixel_in_image(height as int, width as int, y as int, x as int + 1);
                    assert(marks[y * width + (x + 1)] <= max_label(marks, marks.len() as int));
                }
                if y + 1 < height {
                    lemma_pixel_in_image(height as int, width as int, y as int + 1, x as int);
                    assert(marks[(y + 1) * width + x] <= max_label(marks, marks.len() as int));
                }
            }
            let own = labels.get(y, x);
            let sides = count_open_sides(labels, y, x);
            let ghost before = graph;
            assert(node_matches(graph.nodes()[own as int], *img, *labels, own as int, y as int, x as int));
            graph.absorb(own, img, y, x, sides);
            proof {
                lemma_absorb_step(before.nodes(), graph.nodes(), *img, *labels, y as int, x as int);
            }
            let ghost absorbed = graph;
            if x + 1 < width && labels.get(y, x + 1) != own {
                let right = labels.get(y, x + 1);
                graph.touch_edge(own, right);
                proof {
                    lemma_touch_step(
                        absorbed.ends(),
                        absorbed.edges(),
                        graph.ends(),
                        graph.edges(),
                        count as int,
                        *labels,
                        y as int,
                        x as int,
                        0,
                        own as nat,
                        right as nat,
                    );
                }
            } else {
                proof {
                    lemma_skip_step(
                        graph.ends(),
                        graph.edges(),
                        count as int,
                        *labels,
                        y as int,
                        x as int,
                        0,
                    );
                }
            }
            let ghost sided = graph;
            proof {
                lemma_edge_room(
                    graph.ends(),
                    graph.edges(),
                    count as int,
                    *labels,
                    y as int,
                    x as int,
                    1,
                );
            }
            if y + 1 < height && labels.get(y + 1, x) != own {
                let below = labels.get(y + 1, x);
                graph.touch_edge(own, below);
                proof {
                    lemma_touch_step(
                        sided.ends(),
                        sided.edges(),
                        graph.ends(),
                        graph.edges(),
                        count as int,
                        *labels,
                        y as int,
                        x as int,
                        1,
                        own as nat,
                        below as nat,
                    );
                }
            } else {
                proof {
                    lemma_skip_step(
                        graph.ends(),
                        graph.edges(),
                        count as int,
                        *labels,
                        y as int,
                        x as int,
                        1,
                    );
                }
            }
            proof {
                lemma_next_pixel(
                    graph.ends(),
                    graph.edges(),
                    count as int,
                    *labels,
                    y as int,
                    x as int,
                );
            }
            x = x + 1;
        }
        proof {
            lemma_next_row(graph, *img, *labels, y as int);
            assert(y * width + width == (y + 1) * width) by (nonlinear_arith);
        }
        y = y + 1;
    }
    proof {
        lemma_graph_totals(graph, *img, *labels);
    }
    graph
}

} // verus!
