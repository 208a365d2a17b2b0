use rusty_flow::pixel_map::PixelMap;

#[test]
fn new_fills_every_cell() {
    let p = PixelMap::new(4, 7u8);
    assert_eq!(p.size(), 4);
    for (x, y) in p.coordinates() {
        assert_eq!(p.get_pixel(x, y), 7);
    }
}

#[test]
fn from_samples_checks_the_shape() {
    assert!(PixelMap::from_samples(vec![1u8, 2, 3], 2).is_none());
    assert!(PixelMap::from_samples(Vec::<u8>::new(), 0).is_none());
    assert!(PixelMap::from_samples(vec![1u8, 2, 3, 4, 5], 2).is_none());
    let p = PixelMap::from_samples(vec![1u8, 2, 3, 4], 2).unwrap();
    assert_eq!(p.size(), 2);
}

#[test]
fn pixels_are_stored_row_by_row() {
    let p = PixelMap::from_samples(vec![1u8, 2, 3, 4, 5, 6, 7, 8, 9], 3).unwrap();
    assert_eq!(p.get_pixel(0, 0), 1);
    assert_eq!(p.get_pixel(2, 0), 3);
    assert_eq!(p.get_pixel(0, 1), 4);
    assert_eq!(p.get_pixel(1, 2), 8);
    assert_eq!(p.max(), 2);
}

#[test]
fn set_pixel_changes_one_cell() {
    let mut p = PixelMap::new(3, 0u8);
    p.set_pixel(2, 1, 9);
    for (x, y) in p.coordinates() {
        let expected = if (x, y) == (2, 1) { 9 } else { 0 };
        assert_eq!(p.get_pixel(x, y), expected);
    }
}

#[test]
fn enumeration_is_row_major() {
    let p = PixelMap::new(3, 0u8);
    let expected = vec![(0, 0), (1, 0), (2, 0), (0, 1), (1, 1), (2, 1), (0, 2), (1, 2), (2, 2)];
    assert_eq!(p.coordinates(), expected);
}

#[test]
fn enumeration_is_repeatable() {
    let p = PixelMap::new(5, 0u8);
    let first = p.coordinates();
    let second = p.coordinates();
    assert_eq!(first, second);
    assert_eq!(first.len(), 25);
}

#[test]
fn walk_ends_and_stays_ended() {
    let p = PixelMap::new(2, 0u8);
    let mut walk = p.enumerate_pixels();
    assert_eq!(walk.next(), Some((0, 0)));
    assert_eq!(walk.next(), Some((1, 0)));
    assert_eq!(walk.next(), Some((0, 1)));
    assert_eq!(walk.next(), Some((1, 1)));
    assert_eq!(walk.next(), None);
    assert_eq!(walk.next(), None);
}

#[test]
fn single_cell_grid() {
    let p = PixelMap::new(1, 3u8);
    assert_eq!(p.coordinates(), vec![(0, 0)]);
    assert_eq!(p.max(), 0);
}

#[test]
fn map_samples_builds_a_new_grid_of_the_same_side() {
    let p = PixelMap::from_samples(vec![1.0f32, -2.0, 3.5, 4.0], 2).unwrap();
    let q = p.map_samples(|v| (v * 2.0) as i32);
    assert_eq!(q.size(), 2);
    assert_eq!(q.get_pixel(0, 0), 2);
    assert_eq!(q.get_pixel(1, 0), -4);
    assert_eq!(q.get_pixel(0, 1), 7);
    assert_eq!(q.get_pixel(1, 1), 8);
    assert_eq!(p.get_pixel(1, 0), -2.0);
}
