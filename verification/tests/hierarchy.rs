use hierseg::graph::{graph_from_labels, SuperpixelEdge, SuperpixelGraph, SuperpixelNode};
use hierseg::hierarchy::{Step, TreeBuilder};
use hierseg::raster::{ChannelSums, Image, LabelMap};
use hierseg::scale::ZERO_SCALE;
use hierseg::slic::SlicError;
use hierseg::{hierarchical_segmentation, Hierarchy, SegmentationError};

fn node(area: u32, perimeter: u32, value: u64) -> SuperpixelNode {
    SuperpixelNode::new(
        area,
        perimeter,
        ChannelSums::from_vec(&vec![value]),
        ChannelSums::from_vec(&vec![value * value]),
    )
}

#[test]
fn stripe_image_has_one_merge() {
    // Left half labelled 0, right half labelled 1.
    let labels = LabelMap::from_shape_vec(2, 4, vec![0, 0, 1, 1, 0, 0, 1, 1]).unwrap();
    let img = Image::from_shape_vec(2, 4, 1, vec![10, 10, 200, 200, 10, 10, 200, 200]).unwrap();
    let graph = graph_from_labels(&img, &labels);
    assert_eq!(graph.node_count(), 2);
    assert_eq!(graph.edge_count(), 1);
    let mut builder = TreeBuilder::new(graph).unwrap();
    assert_eq!(builder.awaiting(), 1);
    let level = ZERO_SCALE + 77;
    let step = builder.advance(&vec![level]);
    match step {
        Step::Fused(fusion) => {
            assert_eq!(fusion.edge, 0);
            assert_eq!(fusion.node, 2);
            assert_eq!(fusion.level, level);
            assert_eq!(fusion.first_new_edge, 1);
            assert_eq!((fusion.source.min(fusion.target), fusion.source.max(fusion.target)), (0, 1));
        }
        _ => panic!("expected a merge"),
    }
    let merged = builder.graph_ref().node_weight(2);
    assert_eq!(merged.area, 8);
    // Each half has perimeter 8 and they share 2 sides.
    assert_eq!(merged.perimeter, 8 + 8 - 2 * 2);
    assert_eq!(merged.values.to_vec(), vec![4 * 10 + 4 * 200]);
    assert_eq!(merged.values_sq.to_vec(), vec![4 * 100 + 4 * 40000]);
    assert_eq!(builder.awaiting(), 0);
    assert_eq!(builder.advance(&vec![]), Step::Done);
    let tree = builder.finish();
    assert_eq!(tree.parents, vec![2, 2, 2]);
    assert_eq!(tree.levels, vec![ZERO_SCALE, ZERO_SCALE, level]);
}

#[test]
fn merges_follow_the_cheapest_edge_and_rewire_neighbours() {
    // A path 0 - 1 - 2 with a triangle closing edge 0 - 2.
    let mut graph = SuperpixelGraph::new();
    graph.add_node(node(1, 4, 5));
    graph.add_node(node(2, 6, 7));
    graph.add_node(node(3, 8, 9));
    graph.add_edge(0, 1, SuperpixelEdge::new(ZERO_SCALE, 1));
    graph.add_edge(1, 2, SuperpixelEdge::new(ZERO_SCALE, 2));
    graph.add_edge(0, 2, SuperpixelEdge::new(ZERO_SCALE, 3));
    let mut builder = TreeBuilder::new(graph).unwrap();
    assert_eq!(builder.awaiting(), 3);
    let w = |x: u64| ZERO_SCALE + x;
    // Edge 1 (between 1 and 2) is the cheapest.
    let step = builder.advance(&vec![w(30), w(10), w(20)]);
    let fusion = match step {
        Step::Fused(fusion) => fusion,
        _ => panic!("expected a merge"),
    };
    assert_eq!(fusion.edge, 1);
    assert_eq!(fusion.node, 3);
    assert_eq!(fusion.level, w(10));
    assert_eq!(fusion.first_new_edge, 3);
    {
        let graph = builder.graph_ref();
        assert_eq!(graph.node_count(), 4);
        assert_eq!(graph.edge_count(), 4);
        let merged = graph.node_weight(3);
        assert_eq!(merged.area, 5);
        assert_eq!(merged.perimeter, 6 + 8 - 2 * 2);
        assert_eq!(merged.values.to_vec(), vec![16]);
        // All old edges are out of use; the new one joins 3 and 0 with the
        // summed length of the two edges it replaces.
        assert!(!graph.edge_weight(0).active);
        assert!(!graph.edge_weight(1).active);
        assert!(!graph.edge_weight(2).active);
        let new_edge = graph.edge_weight(3);
        assert!(new_edge.active);
        assert_eq!(new_edge.length, 1 + 3);
        let ends = graph.edge_endpoints(3);
        assert_eq!(ends, (3, 0));
    }
    assert_eq!(builder.awaiting(), 1);
    let step = builder.advance(&vec![w(40)]);
    let fusion = match step {
        Step::Fused(fusion) => fusion,
        _ => panic!("expected a merge"),
    };
    assert_eq!(fusion.edge, 3);
    assert_eq!(fusion.node, 4);
    assert_eq!(fusion.level, w(40));
    assert_eq!(builder.graph_ref().node_weight(4).perimeter, 4 + 10 - 2 * 4);
    assert_eq!(builder.advance(&vec![]), Step::Done);
    let tree = builder.finish();
    assert_eq!(tree.parents, vec![4, 3, 3, 4, 4]);
    assert_eq!(tree.levels, vec![w(0), w(0), w(0), w(10), w(40)]);
}

#[test]
fn merge_that_leaves_the_range_is_refused() {
    let mut graph = SuperpixelGraph::new();
    graph.add_node(node(u32::MAX, 4, 1));
    graph.add_node(node(1, 4, 1));
    graph.add_edge(0, 1, SuperpixelEdge::new(ZERO_SCALE, 1));
    let mut builder = TreeBuilder::new(graph).unwrap();
    assert_eq!(builder.advance(&vec![ZERO_SCALE]), Step::OutOfRange);
    // Nothing was merged, and the edge is still in use.
    assert_eq!(builder.graph_ref().node_count(), 2);
    assert!(builder.graph_ref().edge_weight(0).active);
    assert_eq!(builder.awaiting(), 0);
}

#[test]
fn nodes_with_different_channel_counts_are_refused() {
    let mut graph = SuperpixelGraph::new();
    graph.add_node(node(1, 4, 1));
    graph.add_node(SuperpixelNode::new(
        1,
        4,
        ChannelSums::from_vec(&vec![1, 2]),
        ChannelSums::from_vec(&vec![1, 4]),
    ));
    assert!(TreeBuilder::new(graph).is_none());
}

#[test]
fn single_pixel_image_gives_a_single_leaf() {
    let labels = LabelMap::from_shape_vec(1, 1, vec![0]).unwrap();
    let img = Image::from_shape_vec(1, 1, 3, vec![9, 8, 7]).unwrap();
    let graph = graph_from_labels(&img, &labels);
    assert_eq!(graph.node_count(), 1);
    assert_eq!(graph.edge_count(), 0);
    let node = graph.node_weight(0);
    assert_eq!((node.area, node.perimeter), (1, 4));
    assert_eq!(node.values.to_vec(), vec![9, 8, 7]);
    assert_eq!(node.values_sq.to_vec(), vec![81, 64, 49]);
    let mut builder = TreeBuilder::new(graph).unwrap();
    assert_eq!(builder.awaiting(), 0);
    assert_eq!(builder.advance(&vec![]), Step::Done);
    let tree = builder.finish();
    assert_eq!(tree.parents, vec![0]);
    assert_eq!(tree.levels, vec![ZERO_SCALE]);
}

#[test]
fn every_connected_component_gets_one_root() {
    // Two components: 0 - 1 - 2 and 3 - 4, and the lone node 5.
    let mut graph = SuperpixelGraph::new();
    for _ in 0..6 {
        graph.add_node(node(1, 4, 1));
    }
    graph.add_edge(0, 1, SuperpixelEdge::new(ZERO_SCALE, 1));
    graph.add_edge(1, 2, SuperpixelEdge::new(ZERO_SCALE, 1));
    graph.add_edge(3, 4, SuperpixelEdge::new(ZERO_SCALE, 1));
    let mut builder = TreeBuilder::new(graph).unwrap();
    let mut weights = vec![ZERO_SCALE + 5, ZERO_SCALE + 9, ZERO_SCALE + 7];
    let mut merges = 0;
    loop {
        match builder.advance(&weights) {
            Step::Done => break,
            Step::Fused(fusion) => {
                merges += 1;
                let new_edges = builder.graph_ref().edge_count() - fusion.first_new_edge;
                weights = vec![fusion.level + 1; new_edges];
            }
            Step::OutOfRange => panic!("no merge leaves the range here"),
        }
    }
    assert_eq!(merges, 3);
    let tree = builder.finish();
    // Merges in the order of their scales: 0 with 1 at 5, then the pair
    // with 2 over the new edge at 6, then 3 with 4 at 7.
    assert_eq!(tree.parents, vec![6, 6, 7, 8, 8, 5, 7, 7, 8]);
    assert_eq!(
        tree.levels,
        vec![
            ZERO_SCALE,
            ZERO_SCALE,
            ZERO_SCALE,
            ZERO_SCALE,
            ZERO_SCALE,
            ZERO_SCALE,
            ZERO_SCALE + 5,
            ZERO_SCALE + 6,
            ZERO_SCALE + 7
        ]
    );
    // Every non-root has a later parent.
    for (i, parent) in tree.parents.iter().enumerate() {
        assert!(*parent >= i);
    }
    let roots: Vec<usize> = (0..9).filter(|i| tree.parents[*i] == *i).collect();
    assert_eq!(roots, vec![5, 7, 8]);
    // Twice the leaves, less the roots.
    assert_eq!(tree.parents.len(), 2 * 6 - roots.len());
}

#[test]
fn edges_out_of_use_are_not_fused() {
    let mut graph = SuperpixelGraph::new();
    graph.add_node(node(1, 4, 1));
    graph.add_node(node(1, 4, 1));
    graph.add_edge(0, 1, SuperpixelEdge { weight: ZERO_SCALE, length: 1, active: false });
    let mut builder = TreeBuilder::new(graph).unwrap();
    assert_eq!(builder.advance(&vec![ZERO_SCALE + 3]), Step::Done);
    assert_eq!(builder.graph_ref().edge_weight(0).weight, ZERO_SCALE + 3);
    let tree = builder.finish();
    assert_eq!(tree.parents, vec![0, 1]);
}

#[test]
fn segmentation_starts_with_superpixels_and_their_graph() {
    // Four by four, one channel: the left half black, the right half white.
    let row = [0u8, 0, 255, 255];
    let image = Image::from_shape_vec(4, 4, 1, row.iter().cycle().take(16).copied().collect()).unwrap();
    let (labels, mut builder) = hierarchical_segmentation(&image, 4).ok().unwrap();
    assert_eq!(labels.to_vec(), vec![0, 0, 1, 1, 0, 0, 1, 1, 2, 2, 3, 3, 2, 2, 3, 3]);
    {
        let graph = builder.graph_ref();
        assert_eq!(graph.node_count(), 4);
        assert_eq!(graph.edge_count(), 4);
        for n in 0..4 {
            assert_eq!(graph.node_weight(n).area, 4);
            assert_eq!(graph.node_weight(n).perimeter, 8);
        }
        assert_eq!(graph.node_weight(1).values.to_vec(), vec![4 * 255]);
        assert_eq!(graph.node_weight(3).values_sq.to_vec(), vec![4 * 255 * 255]);
        assert_eq!(graph.edge_weight(graph.find_edge(0, 1).unwrap()).length, 2);
        assert_eq!(graph.find_edge(0, 3), None);
        assert_eq!(graph.find_edge(1, 2), None);
    }
    // The edges within one colour are cheap, those across are dear.
    assert_eq!(builder.awaiting(), 4);
    let weights: Vec<u64> = (0..4)
        .map(|e| {
            let (a, b) = builder.graph_ref().edge_endpoints(e);
            if (a.min(b), a.max(b)) == (0, 2) || (a.min(b), a.max(b)) == (1, 3) {
                ZERO_SCALE
            } else {
                ZERO_SCALE + 1000
            }
        })
        .collect();
    let mut weights = weights;
    let mut levels = Vec::new();
    loop {
        match builder.advance(&weights) {
            Step::Done => break,
            Step::Fused(fusion) => {
                levels.push(fusion.level);
                let new_edges = builder.graph_ref().edge_count() - fusion.first_new_edge;
                weights = vec![ZERO_SCALE + 1000; new_edges];
            }
            Step::OutOfRange => panic!("no merge leaves the range here"),
        }
    }
    assert_eq!(levels, vec![ZERO_SCALE, ZERO_SCALE, ZERO_SCALE + 1000]);
    let whole = builder.graph_ref().node_weight(6);
    assert_eq!((whole.area, whole.perimeter), (16, 16));
    let hierarchy = Hierarchy::new(labels.to_vec(), builder.finish());
    assert_eq!(hierarchy.parents.len(), 7);
    assert_eq!(hierarchy.parents[6], 6);
    assert_eq!(hierarchy.max_level, ZERO_SCALE + 1000);
    assert!(hierarchy.is_valid());
}

#[test]
fn segmentation_of_degenerate_inputs_is_refused() {
    let image = Image::from_shape_vec(2, 2, 1, vec![0; 4]).unwrap();
    assert_eq!(
        hierarchical_segmentation(&image, 0).err(),
        Some(SegmentationError::Slic(SlicError::ZeroSuperpixelCount))
    );
    assert_eq!(
        hierarchical_segmentation(&image, 5).err(),
        Some(SegmentationError::Slic(SlicError::ZeroGridInterval))
    );
}
