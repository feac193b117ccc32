use hierseg::connectivity::enforce_connectivity;
use hierseg::raster::Image;
use hierseg::seed::{SeedError, Superpixel};
use hierseg::slic::{
    assign, assign_centre, slic, slic_clusters, update_centres, SlicError, SlicInfo, UNHELD,
};

fn halves() -> Image {
    // Four by four, one channel: the left half black, the right half white.
    let row = [0u8, 0, 255, 255];
    let data = row.iter().cycle().take(16).copied().collect();
    Image::from_shape_vec(4, 4, 1, data).unwrap()
}

fn centre(x: u32, y: u32, value: u8) -> Superpixel {
    Superpixel { data: vec![value], x, y }
}

#[test]
fn pieces_get_labels_in_the_order_they_are_met() {
    let mut labels = vec![5, 5, 9, 5, 9, 9];
    let count = enforce_connectivity(3, 2, 1, &mut labels);
    assert_eq!(count, 2);
    assert_eq!(labels, vec![0, 0, 1, 0, 1, 1]);
}

#[test]
fn pieces_of_one_label_that_do_not_touch_are_told_apart() {
    let mut labels = vec![1, 0, 1];
    let count = enforce_connectivity(3, 1, 1, &mut labels);
    assert_eq!(count, 3);
    assert_eq!(labels, vec![0, 1, 2]);
    // Touching at a corner only is not touching.
    let mut labels = vec![4, 8, 8, 4];
    let count = enforce_connectivity(2, 2, 1, &mut labels);
    assert_eq!(count, 4);
    assert_eq!(labels, vec![0, 1, 2, 3]);
}

#[test]
fn small_piece_joins_the_label_beside_it() {
    // With the interval 4 a piece is small below 4 pixels.
    let mut labels = vec![0, 0, 0, 0, 7, 0, 0, 0, 0];
    let count = enforce_connectivity(3, 3, 4, &mut labels);
    assert_eq!(count, 1);
    assert_eq!(labels, vec![0; 9]);
}

#[test]
fn small_piece_without_labelled_neighbours_keeps_its_label() {
    // Every piece is small, but the first has nothing to join.
    let mut labels = vec![3, 3, 3, 3, 7, 3, 3, 3, 3];
    let count = enforce_connectivity(3, 3, 100, &mut labels);
    assert_eq!(count, 1);
    assert_eq!(labels, vec![0; 9]);
}

#[test]
fn small_piece_joins_the_label_with_the_longest_border() {
    // A A B B
    // A C B B   with the interval 3 a piece is small below 3 pixels.
    let mut labels = vec![10, 10, 20, 20, 10, 30, 20, 20];
    let count = enforce_connectivity(4, 2, 3, &mut labels);
    assert_eq!(count, 2);
    assert_eq!(labels, vec![0, 0, 1, 1, 0, 0, 1, 1]);
    // A B B B
    // A C B B   here C has one side with A and two with B.
    let mut labels = vec![10, 20, 20, 20, 10, 30, 20, 20];
    let count = enforce_connectivity(4, 2, 3, &mut labels);
    assert_eq!(count, 2);
    assert_eq!(labels, vec![0, 1, 1, 1, 0, 1, 1, 1]);
}

#[test]
fn equal_borders_go_to_the_lower_label() {
    // A A A B B B
    // A A C C B B
    let mut labels = vec![1, 1, 1, 2, 2, 2, 1, 1, 3, 3, 2, 2];
    let count = enforce_connectivity(6, 2, 3, &mut labels);
    assert_eq!(count, 2);
    assert_eq!(labels, vec![0, 0, 0, 1, 1, 1, 0, 0, 0, 0, 1, 1]);
}

#[test]
fn empty_picture_has_no_labels() {
    let mut labels: Vec<usize> = vec![];
    assert_eq!(enforce_connectivity(0, 5, 2, &mut labels), 0);
    assert_eq!(enforce_connectivity(5, 0, 2, &mut labels), 0);
    assert!(labels.is_empty());
}

#[test]
fn one_centre_takes_the_pixels_in_its_window() {
    let image = halves();
    let mut info = SlicInfo { distances: vec![UNHELD; 16], labels: vec![9; 16] };
    // m squared over s squared is 1 over 4: distances are four times the
    // colour distance plus the distance in the plane.
    assign_centre(&mut info, &image, (1, 4), 1, 3, &centre(1, 1, 0));
    // The window is the three by three block around (1, 1).
    let far = UNHELD;
    let bright = 4 * 255 * 255;
    assert_eq!(
        info.distances,
        vec![
            2, 1, bright + 2, far, //
            1, 0, bright + 1, far, //
            2, 1, bright + 2, far, //
            far, far, far, far,
        ]
    );
    assert_eq!(info.labels, vec![3, 3, 3, 9, 3, 3, 3, 9, 3, 3, 3, 9, 9, 9, 9, 9]);
    // A second centre takes only what is strictly nearer to it.
    assign_centre(&mut info, &image, (1, 4), 1, 4, &centre(2, 1, 255));
    assert_eq!(
        info.distances,
        vec![
            2, 1, 1, 2, //
            1, 0, 0, 1, //
            2, 1, 1, 2, //
            far, far, far, far,
        ]
    );
    assert_eq!(info.labels, vec![3, 3, 4, 4, 3, 3, 4, 4, 3, 3, 4, 4, 9, 9, 9, 9]);
}

#[test]
fn equal_distances_stay_with_the_earlier_centre() {
    let image = Image::from_shape_vec(1, 3, 1, vec![7, 7, 7]).unwrap();
    let mut info = SlicInfo { distances: vec![UNHELD; 3], labels: vec![0; 3] };
    let centres = vec![centre(0, 0, 7), centre(2, 0, 7)];
    assign(&mut info, &image, (1, 1), 5, &centres);
    assert_eq!(info.distances, vec![0, 1, 0]);
    assert_eq!(info.labels, vec![0, 0, 1]);
}

#[test]
fn colour_distance_uses_three_channels() {
    // The fourth channel differs but does not count.
    let image = Image::from_shape_vec(1, 1, 4, vec![1, 2, 3, 200]).unwrap();
    let mut info = SlicInfo { distances: vec![UNHELD], labels: vec![5] };
    let centres = vec![Superpixel { data: vec![2, 4, 6, 0], x: 0, y: 0 }];
    assign(&mut info, &image, (1, 1), 1, &centres);
    assert_eq!(info.distances, vec![1 + 4 + 9]);
    assert_eq!(info.labels, vec![0]);
}

#[test]
fn centres_move_to_the_mean_of_their_pixels() {
    let image = Image::from_shape_vec(2, 3, 2, vec![10, 0, 20, 1, 31, 2, 40, 3, 50, 4, 60, 5]).unwrap();
    let labels = vec![0, 0, 1, 0, 1, 1];
    let mut centres = vec![
        Superpixel { data: vec![0, 0], x: 9, y: 9 },
        Superpixel { data: vec![0, 0], x: 9, y: 9 },
        Superpixel { data: vec![77, 78], x: 5, y: 6 },
    ];
    update_centres(&mut centres, &image, &labels);
    // Label 0: pixels (0,0), (1,0), (0,1) with values 10, 20, 40.
    assert_eq!((centres[0].x, centres[0].y), (0, 0));
    assert_eq!(centres[0].data, vec![23, 1]);
    // Label 1: pixels (2,0), (1,1), (2,1) with values 31, 50, 60.
    assert_eq!((centres[1].x, centres[1].y), (1, 0));
    assert_eq!(centres[1].data, vec![47, 3]);
    // A centre without pixels stays as it is.
    assert_eq!((centres[2].x, centres[2].y), (5, 6));
    assert_eq!(centres[2].data, vec![77, 78]);
}

#[test]
fn clustering_of_two_halves() {
    let image = halves();
    let clusters = slic_clusters(4, 1, 1, &image).unwrap();
    assert_eq!(clusters.s, 2);
    assert_eq!(
        clusters.labels,
        vec![0, 0, 1, 1, 0, 0, 1, 1, 2, 2, 3, 3, 2, 2, 3, 3]
    );
    let places: Vec<(u32, u32)> = clusters.centres.iter().map(|c| (c.x, c.y)).collect();
    assert_eq!(places, vec![(0, 0), (2, 0), (0, 2), (2, 2)]);
    let colours: Vec<Vec<u8>> = clusters.centres.iter().map(|c| c.data.clone()).collect();
    assert_eq!(colours, vec![vec![0], vec![255], vec![0], vec![255]]);
    // Without a round the seeds are perturbed, and no pixel is held.
    let clusters = slic_clusters(4, 1, 0, &image).unwrap();
    let places: Vec<(u32, u32)> = clusters.centres.iter().map(|c| (c.x, c.y)).collect();
    assert_eq!(places, vec![(0, 0), (2, 1), (0, 2), (2, 2)]);
    assert_eq!(clusters.labels, vec![0; 16]);
}

#[test]
fn superpixels_of_two_halves() {
    let image = halves();
    let map = slic(4, 1, Some(1), &image).unwrap();
    assert_eq!(map.dim(), (4, 4));
    assert_eq!(map.to_vec(), vec![0, 0, 1, 1, 0, 0, 1, 1, 2, 2, 3, 3, 2, 2, 3, 3]);
    // With a single seed everything is one superpixel.
    let map = slic(2, 1, None, &image).unwrap();
    assert_eq!(map.to_vec(), vec![0; 16]);
}

#[test]
fn single_pixel_image_is_one_superpixel() {
    let image = Image::from_shape_vec(1, 1, 3, vec![1, 2, 3]).unwrap();
    let clusters = slic_clusters(1, 1, 10, &image).unwrap();
    assert_eq!(clusters.centres.len(), 1);
    assert_eq!(clusters.labels, vec![0]);
    let map = slic(1, 1, None, &image).unwrap();
    assert_eq!(map.dim(), (1, 1));
    assert_eq!(map.to_vec(), vec![0]);
}

#[test]
fn degenerate_inputs_are_refused() {
    let image = halves();
    assert_eq!(slic(0, 1, None, &image).err(), Some(SlicError::ZeroSuperpixelCount));
    assert_eq!(slic(17, 1, None, &image).err(), Some(SlicError::ZeroGridInterval));
    assert!(slic(16, 1, None, &image).is_ok());
    let empty = Image::from_shape_vec(0, 4, 1, vec![]).unwrap();
    assert_eq!(
        slic(3, 1, None, &empty).err(),
        Some(SlicError::Seed(SeedError::InvalidSeedCount))
    );
    assert_eq!(
        slic_clusters(0, 1, 1, &empty).err(),
        Some(SlicError::Seed(SeedError::InvalidSeedCount))
    );
}

#[test]
fn image_too_wide_for_its_seeds_is_refused() {
    // An image without channels holds no values, however wide it is.
    let wide = Image::from_shape_vec(1, u32::MAX as usize + 1, 0, vec![]).unwrap();
    assert_eq!(
        slic(3, 1, None, &wide).err(),
        Some(SlicError::Seed(SeedError::InvalidTotalSeeds))
    );
    let tall = Image::from_shape_vec(u32::MAX as usize + 1, 1, 0, vec![]).unwrap();
    assert_eq!(
        slic_clusters(3, 1, 1, &tall).err(),
        Some(SlicError::Seed(SeedError::InvalidTotalSeeds))
    );
    // Without superpixels to make, that comes first.
    assert_eq!(slic(0, 1, None, &wide).err(), Some(SlicError::ZeroSuperpixelCount));
}
