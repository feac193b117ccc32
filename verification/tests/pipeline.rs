use hierseg::hierarchy::Step;
use hierseg::raster::Image;
use hierseg::seed::SeedError;
use hierseg::slic::SlicError;
use hierseg::{
    cut_hierarchy, display_labels, hierarchical_segmentation, Hierarchy, SegmentationError,
};

fn noise(height: usize, width: usize, channels: usize) -> Vec<u8> {
    let mut state: u64 = 0x2545_f491_4f6c_dd1d;
    let mut data = Vec::with_capacity(height * width * channels);
    for i in 0..height * width * channels {
        state = state.wrapping_mul(6364136223846793005).wrapping_add(1442695040888963407);
        // Smooth blocks with some noise on top.
        let pixel = i / channels;
        let block = ((pixel / width) / 8 + (pixel % width) / 8) as u64 * 37;
        data.push(((block + (state >> 60)) % 256) as u8);
    }
    data
}

#[test]
fn whole_pipeline_on_a_noisy_image() {
    let (height, width, channels) = (48, 64, 3);
    let data = noise(height, width, channels);
    let image = Image::from_shape_vec(height, width, channels, data).unwrap();
    let (labels, mut builder) = hierarchical_segmentation(&image, 40).ok().unwrap();
    let cells = labels.to_vec();
    assert_eq!(cells.len(), height * width);
    let leaves = builder.graph_ref().node_count();
    // The labels are the numbers below the number of superpixels.
    assert_eq!(*cells.iter().max().unwrap() + 1, leaves);
    for label in 0..leaves {
        assert!(cells.contains(&label));
    }
    // The areas of the leaves add up to the number of pixels.
    let total: u64 = (0..leaves).map(|n| builder.graph_ref().node_weight(n).area as u64).sum();
    assert_eq!(total as usize, height * width);

    // Scales that grow with the size of the merged regions.
    let scale = |builder: &hierseg::hierarchy::TreeBuilder, e: usize| {
        let graph = builder.graph_ref();
        let (a, b) = graph.edge_endpoints(e);
        let size = graph.node_weight(a).area as u64 + graph.node_weight(b).area as u64;
        hierseg::scale::ZERO_SCALE + size * 1000 / graph.edge_weight(e).length as u64
    };
    let mut weights: Vec<u64> = (0..builder.graph_ref().edge_count())
        .map(|e| scale(&builder, e))
        .collect();
    let mut merges = 0;
    loop {
        assert_eq!(weights.len(), builder.awaiting());
        match builder.advance(&weights) {
            Step::Done => break,
            Step::Fused(fusion) => {
                merges += 1;
                let graph = builder.graph_ref();
                let merged = graph.node_weight(fusion.node);
                let a = graph.node_weight(fusion.source);
                let b = graph.node_weight(fusion.target);
                assert_eq!(merged.area, a.area + b.area);
                assert_eq!(
                    merged.perimeter,
                    a.perimeter + b.perimeter - 2 * graph.edge_weight(fusion.edge).length
                );
                assert!(!graph.edge_weight(fusion.edge).active);
                weights = (fusion.first_new_edge..graph.edge_count())
                    .map(|e| scale(&builder, e))
                    .collect();
            }
            Step::OutOfRange => panic!("no merge leaves the range here"),
        }
    }
    // The pixels of an image hang together: the tree has a single root.
    assert_eq!(merges, leaves - 1);
    let root = builder.graph_ref().node_weight(2 * leaves - 2);
    assert_eq!(root.area as usize, height * width);
    assert_eq!(root.perimeter as usize, 2 * (height + width));
    let hierarchy = Hierarchy::new(cells.clone(), builder.finish());
    assert!(hierarchy.is_valid());
    assert_eq!(hierarchy.parents.len(), 2 * leaves - 1);
    for (i, parent) in hierarchy.parents.iter().enumerate() {
        assert!(*parent > i || i == 2 * leaves - 2);
    }
    // A cut at zero gives the superpixels back, a cut above all levels a
    // single label.
    assert_eq!(cut_hierarchy(&hierarchy, hierseg::scale::ZERO_SCALE), cells);
    let flat = cut_hierarchy(&hierarchy, u64::MAX);
    assert!(flat.iter().all(|l| *l == 2 * leaves - 2));
    // Cuts in between are coarser and coarser.
    let mut last = leaves;
    for step in 1..20 {
        let level = hierseg::scale::ZERO_SCALE + step * 20000;
        let cut = cut_hierarchy(&hierarchy, level);
        let mut distinct = cut.clone();
        distinct.sort();
        distinct.dedup();
        assert!(distinct.len() <= last);
        last = distinct.len();
    }
    // The boundaries of the superpixels can be drawn.
    let planes: Vec<u8> = (0..3 * height * width)
        .map(|i| {
            let (c, p) = (i / (height * width), i % (height * width));
            image.get(p / width, p % width, c)
        })
        .collect();
    let bitmap = display_labels(planes, width, height, cells).unwrap();
    assert_eq!(bitmap.len(), 4 * height * width);
    assert!(bitmap.chunks(4).all(|pixel| pixel[3] == 255));
    assert!(bitmap.chunks(4).any(|pixel| pixel[..3] == [0, 0, 0]));
}

#[test]
fn inputs_that_cannot_be_segmented_are_refused() {
    let image = Image::from_shape_vec(2, 2, 1, vec![1, 2, 3, 4]).unwrap();
    assert_eq!(
        hierarchical_segmentation(&image, 0).err(),
        Some(SegmentationError::Slic(SlicError::ZeroSuperpixelCount))
    );
    assert_eq!(
        hierarchical_segmentation(&image, 5).err(),
        Some(SegmentationError::Slic(SlicError::ZeroGridInterval))
    );
    let empty = Image::from_shape_vec(0, 2, 1, vec![]).unwrap();
    assert_eq!(
        hierarchical_segmentation(&empty, 0).err(),
        Some(SegmentationError::Slic(SlicError::Seed(SeedError::InvalidSeedCount)))
    );
    let wide = Image::from_shape_vec(1, u32::MAX as usize + 1, 0, vec![]).unwrap();
    assert_eq!(
        hierarchical_segmentation(&wide, 2).err(),
        Some(SegmentationError::Slic(SlicError::Seed(SeedError::InvalidTotalSeeds)))
    );
    assert!(hierarchical_segmentation(&image, 4).is_ok());
}
