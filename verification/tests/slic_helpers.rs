use hierseg::raster::Image;
use hierseg::slic_helpers::{
    calculate_grid_interval, distance_pixel, distance_s, distance_xy, div_ceil, get_in_bounds,
    get_mut_in_bounds, get_pixel, m_div_s, read_pixel,
};

#[test]
fn div_ceil_rounds_up() {
    assert_eq!(div_ceil(7, 2), 4);
    assert_eq!(div_ceil(8, 2), 4);
    assert_eq!(div_ceil(0, 5), 0);
    assert_eq!(div_ceil(1, 5), 1);
    assert_eq!(div_ceil(u32::MAX, 1), u32::MAX);
    assert_eq!(div_ceil(u32::MAX, 2), 1 << 31);
}

#[test]
fn grid_interval_is_the_whole_part_of_the_root() {
    assert_eq!(calculate_grid_interval(10, 10, 4), 5);
    assert_eq!(calculate_grid_interval(10, 10, 3), 5);
    assert_eq!(calculate_grid_interval(10, 10, 1), 10);
    assert_eq!(calculate_grid_interval(1, 1, 1), 1);
    assert_eq!(calculate_grid_interval(3, 3, 10), 0);
    assert_eq!(calculate_grid_interval(0, 7, 2), 0);
    assert_eq!(calculate_grid_interval(640, 480, 300), 32);
    assert_eq!(calculate_grid_interval(u32::MAX, u32::MAX, 1), u32::MAX);
}

#[test]
fn pixel_distance_sums_squared_differences() {
    assert_eq!(distance_pixel(&[1, 2, 3], &[4, 6, 3]), 25);
    assert_eq!(distance_pixel(&[0, 0], &[255, 255]), 2 * 65025);
    assert_eq!(distance_pixel(&[255], &[0, 9]), 65025);
    assert_eq!(distance_pixel(&[], &[1, 2]), 0);
}

#[test]
fn plane_distance_is_squared_euclidean() {
    assert_eq!(distance_xy((1, 2), (4, 6)), 25);
    assert_eq!(distance_xy((4, 6), (1, 2)), 25);
    assert_eq!(distance_xy((0, 0), (0, 0)), 0);
    let far = u32::MAX as u128;
    assert_eq!(distance_xy((0, 0), (u32::MAX, u32::MAX)), 2 * far * far);
}

#[test]
fn scaling_factor_and_s_distance() {
    assert_eq!(m_div_s(10, 5), (100, 25));
    assert_eq!(m_div_s(1, 7), (1, 49));
    // 25 * 3 + 100 * 2
    assert_eq!(distance_s((100, 25), 3, 2), Some(275));
    assert_eq!(distance_s((1, 1), 0, 0), Some(0));
    assert_eq!(distance_s((2, 1), 0, u128::MAX), None);
    assert_eq!(distance_s((1, 1), u128::MAX, 1), None);
}

#[test]
fn lookup_in_bounds() {
    let cells = [10, 11, 12, 13, 14, 15];
    assert_eq!(get_in_bounds(3, 2, 1, 1, &cells), Some(&14));
    assert_eq!(get_in_bounds(3, 2, 0, 0, &cells), Some(&10));
    assert_eq!(get_in_bounds(3, 2, 2, 1, &cells), Some(&15));
    assert_eq!(get_in_bounds(3, 2, 3, 0, &cells), None);
    assert_eq!(get_in_bounds(3, 2, 0, 2, &cells), None);
    assert_eq!(get_in_bounds(3, 2, -1, 0, &cells), None);
    assert_eq!(get_in_bounds(3, 2, 0, -1, &cells), None);
    // The grid claims more cells than the buffer holds.
    assert_eq!(get_in_bounds(3, 3, 0, 2, &cells), None);
    assert_eq!(get_in_bounds(i64::MAX, i64::MAX, i64::MAX - 1, i64::MAX - 1, &cells), None);
    assert_eq!(get_in_bounds(0, 0, 0, 0, &cells), None);
}

#[test]
fn lookup_in_bounds_for_writing() {
    let mut cells = [10, 11, 12, 13, 14, 15];
    *get_mut_in_bounds(3, 2, 1, 1, &mut cells).unwrap() = 99;
    assert_eq!(cells, [10, 11, 12, 13, 99, 15]);
    assert!(get_mut_in_bounds(3, 2, 3, 0, &mut cells).is_none());
    assert!(get_mut_in_bounds(3, 2, 0, 2, &mut cells).is_none());
    assert!(get_mut_in_bounds(3, 2, -1, 1, &mut cells).is_none());
    assert!(get_mut_in_bounds(3, 3, 2, 2, &mut cells).is_none());
    assert_eq!(cells, [10, 11, 12, 13, 99, 15]);
}

#[test]
fn pixel_lookup() {
    let image = Image::from_shape_vec(2, 2, 3, (0..12).collect()).unwrap();
    assert_eq!(get_pixel(1, 0, &image), Some(vec![3, 4, 5]));
    assert_eq!(get_pixel(0, 1, &image), Some(vec![6, 7, 8]));
    assert_eq!(get_pixel(2, 0, &image), None);
    assert_eq!(get_pixel(0, 2, &image), None);
    assert_eq!(get_pixel(-1, 0, &image), None);
    assert_eq!(get_pixel(0, -1, &image), None);
    assert_eq!(read_pixel(&image, 1, 1), vec![9, 10, 11]);
}
