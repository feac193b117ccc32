use hierseg::raster::Image;
use hierseg::seed::{init_seeds, perturb, place_seeds, SeedError, Superpixel};

fn ramp(height: usize, width: usize) -> Image {
    let data = (0..height * width).map(|i| (i % 251) as u8).collect();
    Image::from_shape_vec(height, width, 1, data).unwrap()
}

fn positions(seeds: &Vec<Superpixel>) -> Vec<(u32, u32)> {
    seeds.iter().map(|s| (s.x, s.y)).collect()
}

#[test]
fn seeds_on_an_even_grid() {
    let image = ramp(10, 10);
    let mut seeds = Vec::new();
    assert_eq!(init_seeds(5, 4, &image, &mut seeds), Ok(()));
    // Half of the interval of five is rounded up to three.
    assert_eq!(positions(&seeds), vec![(3, 3), (8, 3), (3, 8), (8, 8)]);
    // Every seed holds the pixel at its position.
    assert_eq!(seeds[0].data, vec![33]);
    assert_eq!(seeds[1].data, vec![38]);
    assert_eq!(seeds[2].data, vec![83]);
    assert_eq!(seeds[3].data, vec![88]);
}

#[test]
fn seeds_spread_over_what_the_grid_leaves() {
    // 13 columns, interval 5: two seeds per row, three columns left over,
    // one and a half for each seed. The second grid row is moved by that,
    // rounded down.
    let image = ramp(10, 13);
    let mut seeds = Vec::new();
    assert_eq!(init_seeds(5, 100, &image, &mut seeds), Ok(()));
    assert_eq!(positions(&seeds), vec![(3, 3), (8, 3), (4, 8), (9, 8)]);
}

#[test]
fn seed_count_is_trimmed_to_the_limit() {
    // Five by five seeds would fit; at most ten are wanted: three by three.
    let image = ramp(10, 10);
    let mut seeds = Vec::new();
    assert_eq!(init_seeds(2, 10, &image, &mut seeds), Ok(()));
    // Four columns and four rows are left over, a third of them for each
    // seed: the columns spread with the grid row, the rows with the grid
    // column.
    assert_eq!(
        positions(&seeds),
        vec![(1, 1), (3, 2), (5, 3), (2, 3), (4, 4), (6, 5), (3, 5), (5, 6), (7, 7)]
    );
}

#[test]
fn seeds_replace_what_the_vector_held() {
    let image = ramp(4, 4);
    let mut seeds = vec![Superpixel { data: vec![1, 2, 3], x: 9, y: 9 }];
    place_seeds(4, 1, &image, &mut seeds);
    assert_eq!(positions(&seeds), vec![(2, 2)]);
    assert_eq!(seeds[0].data, vec![10]);
}

#[test]
fn single_pixel_image_has_one_seed() {
    let image = Image::from_shape_vec(1, 1, 3, vec![7, 8, 9]).unwrap();
    let mut seeds = Vec::new();
    assert_eq!(init_seeds(1, 1, &image, &mut seeds), Ok(()));
    assert_eq!(positions(&seeds), vec![(0, 0)]);
    assert_eq!(seeds[0].data, vec![7, 8, 9]);
}

#[test]
fn seed_beyond_a_small_image_is_moved_into_it() {
    // The interval is larger than the image: the only seed would lie at
    // (4, 4), outside the three by three image, and goes to its last pixel.
    let image = ramp(3, 3);
    let mut seeds = Vec::new();
    assert_eq!(init_seeds(8, 5, &image, &mut seeds), Ok(()));
    assert_eq!(positions(&seeds), vec![(2, 2)]);
    assert_eq!(seeds[0].data, vec![8]);
}

#[test]
fn seeds_before_and_behind_a_narrow_image_are_moved_into_it() {
    // Three columns, interval 8: one seed per row, and the image lacks five
    // columns. The first seed would lie in column 4, behind the image, the
    // second in column -1, before it.
    let image = ramp(20, 3);
    let mut seeds = Vec::new();
    assert_eq!(init_seeds(8, 10, &image, &mut seeds), Ok(()));
    assert_eq!(positions(&seeds), vec![(2, 4), (0, 12)]);
    assert_eq!(seeds[0].data, vec![14]);
    assert_eq!(seeds[1].data, vec![36]);
}

#[test]
fn image_without_channels_has_no_seeds() {
    let image = Image::from_shape_vec(2, 2, 0, vec![]).unwrap();
    let mut seeds = vec![Superpixel { data: vec![], x: 0, y: 0 }];
    assert_eq!(init_seeds(1, 4, &image, &mut seeds), Ok(()));
    assert!(seeds.is_empty());
}

#[test]
fn single_column_of_seeds_moves_back_on_a_narrow_image() {
    // Five columns, interval 8: one seed per row, and the image lacks three
    // columns, by which every further grid row moves back.
    let image = ramp(20, 5);
    let mut seeds = Vec::new();
    assert_eq!(init_seeds(8, 10, &image, &mut seeds), Ok(()));
    assert_eq!(positions(&seeds), vec![(4, 4), (1, 12)]);
    assert_eq!(seeds[1].data, vec![(12 * 5 + 1) as u8]);
}

#[test]
fn empty_image_has_no_seeds() {
    let image = Image::from_shape_vec(0, 5, 3, vec![]).unwrap();
    let mut seeds = vec![Superpixel { data: vec![], x: 0, y: 0 }];
    assert_eq!(init_seeds(2, 4, &image, &mut seeds), Err(SeedError::InvalidSeedCount));
    assert!(seeds.is_empty());
    let image = Image::from_shape_vec(5, 0, 3, vec![]).unwrap();
    assert_eq!(init_seeds(2, 4, &image, &mut seeds), Err(SeedError::InvalidSeedCount));
}

#[test]
fn image_too_wide_for_a_seed_has_no_seeds() {
    let wide = Image::from_shape_vec(1, u32::MAX as usize + 1, 0, vec![]).unwrap();
    let mut seeds = vec![Superpixel { data: vec![], x: 0, y: 0 }];
    assert_eq!(init_seeds(2, 4, &wide, &mut seeds), Err(SeedError::InvalidTotalSeeds));
    assert!(seeds.is_empty());
}

#[test]
fn perturb_reaches_no_further_than_a_seed_can_lie() {
    // A seed in the last column that 32 bits count, in an image that goes
    // on behind it: the pixels of an image without channels are all alike,
    // and the first of the window, left of the seed, is taken.
    let wide = Image::from_shape_vec(1, u32::MAX as usize + 2, 0, vec![]).unwrap();
    let mut seed = Superpixel { data: vec![], x: u32::MAX, y: 0 };
    assert_eq!(perturb(&mut seed, &wide), Ok(()));
    assert_eq!((seed.x, seed.y), (u32::MAX - 1, 0));
}

#[test]
fn perturb_moves_to_the_calmest_pixel() {
    // A flat image: the gradient is zero only where all four neighbours
    // exist, which is the centre.
    let image = Image::from_shape_vec(3, 3, 1, vec![50; 9]).unwrap();
    let mut seed = Superpixel { data: vec![50], x: 0, y: 0 };
    assert_eq!(perturb(&mut seed, &image), Ok(()));
    assert_eq!((seed.x, seed.y), (1, 1));
    assert_eq!(seed.data, vec![50]);
}

#[test]
fn perturb_takes_the_first_of_equal_gradients() {
    // A black image has gradient zero everywhere: the first pixel of the
    // window wins, the upper left neighbour.
    let image = Image::from_shape_vec(3, 3, 2, vec![0; 18]).unwrap();
    let mut seed = Superpixel { data: vec![9, 9], x: 1, y: 1 };
    assert_eq!(perturb(&mut seed, &image), Ok(()));
    assert_eq!((seed.x, seed.y), (0, 0));
    assert_eq!(seed.data, vec![0, 0]);
    // At the corner the window starts at the seed itself.
    let mut seed = Superpixel { data: vec![9, 9], x: 0, y: 0 };
    assert_eq!(perturb(&mut seed, &image), Ok(()));
    assert_eq!((seed.x, seed.y), (0, 0));
}

#[test]
fn perturb_compares_gradients_exactly() {
    // Row 0: 0 0 0, row 1: 0 9 0, row 2: 0 0 0, and a seed at the centre.
    // Gradients: corners 0 + 0 = 0 at (0, 0); the pixel left of the centre
    // has (9 - 0)^2 = 81.
    let image = Image::from_shape_vec(3, 3, 1, vec![0, 0, 0, 0, 9, 0, 0, 0, 0]).unwrap();
    let mut seed = Superpixel { data: vec![9], x: 1, y: 1 };
    assert_eq!(perturb(&mut seed, &image), Ok(()));
    assert_eq!((seed.x, seed.y), (0, 0));
    // 1x3 image 5 1 7: gradients are (1-0)^2 = 1, (7-5)^2 = 4, (0-1)^2 = 1.
    let image = Image::from_shape_vec(1, 3, 1, vec![5, 1, 7]).unwrap();
    let mut seed = Superpixel { data: vec![1], x: 1, y: 0 };
    assert_eq!(perturb(&mut seed, &image), Ok(()));
    assert_eq!((seed.x, seed.y), (0, 0));
    assert_eq!(seed.data, vec![5]);
    let mut seed = Superpixel { data: vec![7], x: 2, y: 0 };
    assert_eq!(perturb(&mut seed, &image), Ok(()));
    assert_eq!((seed.x, seed.y), (2, 0));
    assert_eq!(seed.data, vec![7]);
}

#[test]
fn perturb_leaves_a_seed_outside_the_image_alone() {
    let image = Image::from_shape_vec(2, 2, 1, vec![1, 2, 3, 4]).unwrap();
    let mut seed = Superpixel { data: vec![42], x: 10, y: 10 };
    assert_eq!(perturb(&mut seed, &image), Ok(()));
    assert_eq!((seed.x, seed.y), (10, 10));
    assert_eq!(seed.data, vec![42]);
}
