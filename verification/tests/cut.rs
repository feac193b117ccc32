use hierseg::hierarchy::PartitionTree;
use hierseg::raster::{Image, InputShapeError};
use hierseg::scale::ZERO_SCALE;
use hierseg::utils::{array_to_rgba_bitmap, blacken, image_from_planes};
use hierseg::{cut_hierarchy, display_labels, Hierarchy};

fn w(x: u64) -> u64 {
    ZERO_SCALE + x
}

fn sample() -> Hierarchy {
    let tree = PartitionTree {
        parents: vec![4, 3, 3, 4, 4],
        levels: vec![w(0), w(0), w(0), w(10), w(40)],
    };
    Hierarchy::new(vec![0, 1, 2, 2, 1, 0], tree)
}

#[test]
fn hierarchy_knows_its_largest_level() {
    assert_eq!(sample().max_level, w(40));
    let flat = Hierarchy::new(vec![], PartitionTree { parents: vec![], levels: vec![] });
    assert_eq!(flat.max_level, ZERO_SCALE);
    let below = Hierarchy::new(vec![0], PartitionTree { parents: vec![0], levels: vec![3] });
    assert_eq!(below.max_level, ZERO_SCALE);
}

#[test]
fn hierarchy_validity() {
    assert!(sample().is_valid());
    let mut broken = sample();
    broken.labels[2] = 5;
    assert!(!broken.is_valid());
    let mut broken = sample();
    broken.levels.pop();
    assert!(!broken.is_valid());
}

#[test]
fn cut_at_zero_reproduces_the_labels() {
    let hierarchy = sample();
    assert_eq!(cut_hierarchy(&hierarchy, ZERO_SCALE), hierarchy.labels);
    assert_eq!(cut_hierarchy(&hierarchy, 0), hierarchy.labels);
}

#[test]
fn cut_joins_the_nodes_born_below_the_level() {
    let hierarchy = sample();
    // No merge is born below the level: every leaf keeps its label.
    assert_eq!(cut_hierarchy(&hierarchy, w(5)), vec![0, 1, 2, 2, 1, 0]);
    assert_eq!(cut_hierarchy(&hierarchy, w(10)), vec![0, 1, 2, 2, 1, 0]);
    // Node 3 is born below the level: its leaves join it, the root is not
    // born yet.
    assert_eq!(cut_hierarchy(&hierarchy, w(11)), vec![0, 3, 3, 3, 3, 0]);
    assert_eq!(cut_hierarchy(&hierarchy, w(40)), vec![0, 3, 3, 3, 3, 0]);
    // The root is born below the level too.
    assert_eq!(cut_hierarchy(&hierarchy, w(41)), vec![4, 4, 4, 4, 4, 4]);
}

#[test]
fn cut_below_the_only_merge_keeps_both_leaves() {
    let tree = PartitionTree { parents: vec![2, 2, 2], levels: vec![w(0), w(0), w(25)] };
    let hierarchy = Hierarchy::new(vec![0, 1], tree);
    assert_eq!(cut_hierarchy(&hierarchy, w(10)), vec![0, 1]);
    assert_eq!(cut_hierarchy(&hierarchy, w(25)), vec![0, 1]);
    assert_eq!(cut_hierarchy(&hierarchy, w(26)), vec![2, 2]);
}

#[test]
fn cut_at_infinity_collapses_each_tree() {
    let hierarchy = sample();
    assert_eq!(cut_hierarchy(&hierarchy, u64::MAX), vec![4, 4, 4, 4, 4, 4]);
    // Two trees: {0, 1} under 3, and the lone leaf 2.
    let tree = PartitionTree { parents: vec![3, 3, 2, 3], levels: vec![w(0), w(0), w(0), w(7)] };
    let forest = Hierarchy::new(vec![0, 1, 2, 2, 0], tree);
    assert_eq!(cut_hierarchy(&forest, u64::MAX), vec![3, 3, 2, 2, 3]);
}

#[test]
fn cut_stops_at_the_first_level_that_is_not_below() {
    // The levels are not in order: node 3 is born above the level and
    // keeps its leaves apart, though the later node 4 is born below it.
    let tree = PartitionTree {
        parents: vec![3, 3, 4, 4, 4],
        levels: vec![w(0), w(0), w(0), w(50), w(20)],
    };
    let hierarchy = Hierarchy::new(vec![0, 1, 2], tree);
    assert_eq!(cut_hierarchy(&hierarchy, w(30)), vec![0, 1, 4]);
    assert_eq!(cut_hierarchy(&hierarchy, w(51)), vec![4, 4, 4]);
}

#[test]
fn cut_follows_no_parent_that_is_not_born_later() {
    // Parents that point back or out of the tree are not followed.
    let tree = PartitionTree {
        parents: vec![2, 0, 9],
        levels: vec![w(0), w(0), w(1)],
    };
    let hierarchy = Hierarchy::new(vec![0, 1, 2], tree);
    assert_eq!(cut_hierarchy(&hierarchy, u64::MAX), vec![2, 1, 2]);
}

#[test]
fn planes_become_an_image() {
    // Two channels of a 2 by 3 image, channel by channel.
    let data = vec![1, 2, 3, 4, 5, 6, 11, 12, 13, 14, 15, 16];
    let image = image_from_planes(&data, 3, 2, 2).unwrap();
    assert_eq!(image.dim(), (2, 3, 2));
    assert_eq!(image.get(0, 0, 0), 1);
    assert_eq!(image.get(0, 0, 1), 11);
    assert_eq!(image.get(0, 2, 0), 3);
    assert_eq!(image.get(1, 0, 0), 4);
    assert_eq!(image.get(1, 2, 1), 16);
    assert_eq!(image_from_planes(&data, 3, 2, 3).err(), Some(InputShapeError));
    assert_eq!(image_from_planes(&data, usize::MAX, 2, 2).err(), Some(InputShapeError));
    assert!(image_from_planes(&vec![], 0, 4, 3).is_ok());
}

#[test]
fn bitmap_has_four_bytes_per_pixel() {
    let image = Image::from_shape_vec(1, 2, 4, vec![1, 2, 3, 4, 5, 6, 7, 8]).unwrap();
    assert_eq!(array_to_rgba_bitmap(&image), vec![1, 2, 3, 255, 5, 6, 7, 255]);
    let mut image = Image::from_shape_vec(1, 2, 3, vec![1, 2, 3, 4, 5, 6]).unwrap();
    blacken(&mut image, 0, 1);
    assert_eq!(array_to_rgba_bitmap(&image), vec![1, 2, 3, 255, 0, 0, 0, 255]);
}

#[test]
fn boundaries_are_drawn_in_black() {
    // Labels 0 0 1 / 0 0 1: the second and the third column lie on the
    // boundary.
    let img = vec![1, 2, 3, 4, 5, 6, 11, 12, 13, 14, 15, 16, 21, 22, 23, 24, 25, 26];
    let bitmap = display_labels(img, 3, 2, vec![0, 0, 1, 0, 0, 1]).unwrap();
    assert_eq!(
        bitmap,
        vec![
            1, 11, 21, 255, 0, 0, 0, 255, 0, 0, 0, 255, //
            4, 14, 24, 255, 0, 0, 0, 255, 0, 0, 0, 255,
        ]
    );
}

#[test]
fn uniform_labels_leave_the_image_as_it_is() {
    // A fourth channel is ignored.
    let img = (1..=16).collect();
    let bitmap = display_labels(img, 2, 2, vec![5; 4]).unwrap();
    assert_eq!(
        bitmap,
        vec![1, 5, 9, 255, 2, 6, 10, 255, 3, 7, 11, 255, 4, 8, 12, 255]
    );
}

#[test]
fn boundaries_run_on_both_sides() {
    // 3 by 3, labels split between the first and the second row: both rows
    // lie on the boundary, the third does not.
    let img = vec![9; 27];
    let labels = vec![0, 0, 0, 1, 1, 1, 1, 1, 1];
    let bitmap = display_labels(img, 3, 3, labels).unwrap();
    let black = [0, 0, 0, 255];
    let plain = [9, 9, 9, 255];
    let expected: Vec<u8> = [black, black, black, black, black, black, plain, plain, plain]
        .iter()
        .flatten()
        .copied()
        .collect();
    assert_eq!(bitmap, expected);
    // A single pixel of another label, in a corner: it and the two pixels
    // beside it are black, the pixel across the corner is not.
    let bitmap = display_labels(vec![9; 12], 2, 2, vec![1, 0, 0, 0]).unwrap();
    let expected: Vec<u8> = [black, black, black, plain].iter().flatten().copied().collect();
    assert_eq!(bitmap, expected);
}

#[test]
fn wrong_shapes_are_refused() {
    assert_eq!(display_labels(vec![0; 11], 2, 2, vec![0; 4]), Err(InputShapeError));
    assert_eq!(display_labels(vec![0; 12], 2, 2, vec![0; 3]), Err(InputShapeError));
    assert_eq!(display_labels(vec![0; 12], 2, 2, vec![0; 5]), Err(InputShapeError));
    assert_eq!(display_labels(vec![0; 12], usize::MAX, 2, vec![0; 4]), Err(InputShapeError));
    assert_eq!(display_labels(vec![], 0, 0, vec![]), Ok(vec![]));
    assert_eq!(display_labels(vec![], 0, 3, vec![]), Ok(vec![]));
}
