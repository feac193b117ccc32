use hierseg::graph::{data_fidelity, graph_from_labels, merge_nodes, SuperpixelNode};
use hierseg::raster::{ChannelSums, Image, InputShapeError, LabelMap};

#[test]
fn test_graph_from_labels() {
    // 0 0 1
    // 0 0 1
    // 2 2 2
    let labels = LabelMap::from_shape_vec(3, 3, vec![0, 0, 1, 0, 0, 1, 2, 2, 2]).unwrap();
    // Pixel values are from 0 to 27 (3 channels)
    let img = Image::from_shape_vec(3, 3, 3, (0..27).collect()).unwrap();

    let graph = graph_from_labels(&img, &labels);

    assert_eq!(graph.node_count(), 3);

    let node_0 = graph.node_weight(0);
    assert_eq!(node_0.area, 4);
    assert_eq!(node_0.perimeter, 8);
    assert_eq!(node_0.values.to_vec(), vec![24, 28, 32]);

    let node_1 = graph.node_weight(1);
    assert_eq!(node_1.area, 2);
    assert_eq!(node_1.perimeter, 6);
    assert_eq!(node_1.values.to_vec(), vec![21, 23, 25]);

    let node_2 = graph.node_weight(2);
    assert_eq!(node_2.area, 3);
    assert_eq!(node_2.perimeter, 8);
    assert_eq!(node_2.values.to_vec(), vec![63, 66, 69]);

    assert_eq!(graph.edge_count(), 3);

    let edge_0_1_weight = graph.edge_weight(graph.find_edge(0, 1).unwrap());
    assert_eq!(edge_0_1_weight.length, 2);

    let edge_0_2_weight = graph.edge_weight(graph.find_edge(0, 2).unwrap());
    assert_eq!(edge_0_2_weight.length, 2);

    let edge_1_2_weight = graph.edge_weight(graph.find_edge(1, 2).unwrap());
    assert_eq!(edge_1_2_weight.length, 1);
}

#[test]
fn graph_statistics_of_a_labelled_image() {
    // 0 0 1
    // 0 0 1
    // 2 2 2
    let labels = LabelMap::from_shape_vec(3, 3, vec![0, 0, 1, 0, 0, 1, 2, 2, 2]).unwrap();
    let img = Image::from_shape_vec(3, 3, 3, (0..27).collect()).unwrap();
    let graph = graph_from_labels(&img, &labels);
    // The areas add up to the number of pixels.
    let areas: u32 = (0..graph.node_count()).map(|n| graph.node_weight(n).area).sum();
    assert_eq!(areas, 9);
    // Sums of squares: region 1 holds the pixels (6, 7, 8) and (15, 16, 17).
    assert_eq!(graph.node_weight(1).values_sq.to_vec(), vec![36 + 225, 49 + 256, 64 + 289]);
    for n in 0..graph.node_count() {
        let node = graph.node_weight(n);
        for c in 0..3 {
            let sum = node.values.get(c) as u128;
            let squares = node.values_sq.get(c) as u128;
            assert!(sum * sum <= node.area as u128 * squares);
        }
    }
    for e in 0..graph.edge_count() {
        let edge = graph.edge_weight(e);
        assert!(edge.active);
        assert!(edge.length >= 1);
        let (a, b) = graph.edge_endpoints(e);
        assert_eq!(graph.find_edge(a, b), Some(e));
        assert_eq!(graph.find_edge(b, a), Some(e));
        assert!(graph.neighbors(a).contains(&b));
    }
    assert_eq!(graph.find_edge(0, 0), None);
}

#[test]
fn uniform_image_has_no_deviation() {
    let labels = LabelMap::from_shape_vec(2, 3, vec![0, 0, 1, 0, 1, 1]).unwrap();
    let img = Image::from_shape_vec(2, 3, 2, vec![7, 200, 7, 200, 7, 200, 7, 200, 7, 200, 7, 200]).unwrap();
    let graph = graph_from_labels(&img, &labels);
    for n in 0..graph.node_count() {
        let node = graph.node_weight(n);
        assert_eq!(node.area, 3);
        assert_eq!(node.values.to_vec(), vec![21, 600]);
        assert_eq!(node.values_sq.to_vec(), vec![147, 120000]);
        for c in 0..2 {
            let sum = node.values.get(c);
            assert_eq!(sum * sum, node.area as u64 * node.values_sq.get(c));
        }
    }
}

#[test]
fn statistics_do_not_depend_on_the_pixel_order() {
    // The same labelled pixels in two orders.
    let labels = LabelMap::from_shape_vec(1, 4, vec![0, 1, 0, 1]).unwrap();
    let img = Image::from_shape_vec(1, 4, 1, vec![10, 20, 30, 40]).unwrap();
    let other_labels = LabelMap::from_shape_vec(1, 4, vec![1, 1, 0, 0]).unwrap();
    let other_img = Image::from_shape_vec(1, 4, 1, vec![40, 20, 30, 10]).unwrap();
    let graph = graph_from_labels(&img, &labels);
    let other = graph_from_labels(&other_img, &other_labels);
    for n in 0..2 {
        assert_eq!(graph.node_weight(n).area, other.node_weight(n).area);
        assert_eq!(graph.node_weight(n).values.to_vec(), other.node_weight(n).values.to_vec());
        assert_eq!(
            graph.node_weight(n).values_sq.to_vec(),
            other.node_weight(n).values_sq.to_vec()
        );
    }
}

#[test]
fn merged_statistics_add_up() {
    let a = SuperpixelNode::new(
        4,
        8,
        ChannelSums::from_vec(&vec![24, 28]),
        ChannelSums::from_vec(&vec![200, 300]),
    );
    let b = SuperpixelNode::new(
        2,
        6,
        ChannelSums::from_vec(&vec![21, 23]),
        ChannelSums::from_vec(&vec![261, 305]),
    );
    let merged = merge_nodes(&a, &b, 2).unwrap();
    assert_eq!(merged.area, 6);
    assert_eq!(merged.perimeter, 8 + 6 - 4);
    assert_eq!(merged.values.to_vec(), vec![45, 51]);
    assert_eq!(merged.values_sq.to_vec(), vec![461, 605]);
    // More shared sides than the two boundaries have.
    assert!(merge_nodes(&a, &b, 8).is_none());
    assert!(merge_nodes(&a, &b, 7).is_some());
    let huge = SuperpixelNode::new(
        u32::MAX,
        8,
        ChannelSums::from_vec(&vec![u64::MAX, 0]),
        ChannelSums::from_vec(&vec![0, 0]),
    );
    assert!(merge_nodes(&huge, &b, 1).is_none());
}

#[test]
fn arrays_are_made_from_buffers_of_the_right_length() {
    assert!(Image::from_shape_vec(2, 2, 3, vec![0; 12]).is_ok());
    assert_eq!(Image::from_shape_vec(2, 2, 3, vec![0; 11]).err(), Some(InputShapeError));
    assert_eq!(Image::from_shape_vec(usize::MAX, 2, 3, vec![0; 12]).err(), Some(InputShapeError));
    assert_eq!(Image::from_shape_vec(0, usize::MAX, usize::MAX, vec![]).err(), Some(InputShapeError));
    assert!(LabelMap::from_shape_vec(2, 3, vec![0; 6]).is_ok());
    assert_eq!(LabelMap::from_shape_vec(2, 3, vec![0; 7]).err(), Some(InputShapeError));
    let mut image = Image::from_shape_vec(1, 2, 2, vec![1, 2, 3, 4]).unwrap();
    image.set(0, 1, 0, 9);
    assert_eq!(image.get(0, 1, 0), 9);
    assert_eq!(image.get(0, 0, 1), 2);
    assert_eq!(image.dim(), (1, 2, 2));
    let mut sums = ChannelSums::zeros(3);
    assert_eq!(sums.len(), 3);
    sums.set(1, 5);
    assert_eq!(sums.to_vec(), vec![0, 5, 0]);
    assert_eq!(sums.get(1), 5);
}

#[test]
fn data_fidelity_is_the_squared_deviation_times_the_area() {
    // 0 0 1
    // 0 0 1
    // 2 2 2
    let labels = LabelMap::from_shape_vec(3, 3, vec![0, 0, 1, 0, 0, 1, 2, 2, 2]).unwrap();
    let img = Image::from_shape_vec(3, 3, 3, (0..27).collect()).unwrap();
    let graph = graph_from_labels(&img, &labels);
    // Region 0 holds the values 0, 3, 9, 12 in the first channel: their
    // squared deviation from the mean 6 is 36 + 9 + 9 + 36 = 90, and the
    // same in the other two channels. Four times 270 is 1080.
    let node = graph.node_weight(0);
    assert_eq!(node.values_sq.to_vec(), vec![234, 286, 346]);
    assert_eq!(data_fidelity(&node.values, &node.values_sq, node.area), Some(1080));
    // Region 1: 6 and 15 deviate by 4.5 each from their mean: 40.5 per
    // channel, 121.5 in all, 243 times the area two.
    let node = graph.node_weight(1);
    assert_eq!(data_fidelity(&node.values, &node.values_sq, node.area), Some(243));
    // A single value does not deviate.
    let one = ChannelSums::from_vec(&vec![7, 9]);
    let squares = ChannelSums::from_vec(&vec![49, 81]);
    assert_eq!(data_fidelity(&one, &squares, 1), Some(0));
    // No region has a sum whose square exceeds its squares.
    let squares = ChannelSums::from_vec(&vec![49, 80]);
    assert_eq!(data_fidelity(&one, &squares, 1), None);
    assert_eq!(data_fidelity(&ChannelSums::zeros(0), &ChannelSums::zeros(0), 5), Some(0));
}
