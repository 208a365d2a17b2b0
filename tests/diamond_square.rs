use rusty_flow::diamond_square::{construct_with, diamond_sample, sample, set_sample, square_sample};
use rusty_flow::pixel_map::PixelMap;

fn grid(map: Vec<f32>, size: u32) -> PixelMap<f32> {
    PixelMap::from_samples(map, size).expect("a square grid")
}

fn mean_plus(offset: f32) -> impl Fn(f32, f32, f32, f32, u32) -> f32 {
    move |a, b, c, d, _half| (a + b + c + d) / 4.0 + offset
}

fn samples(p: &PixelMap<f32>) -> Vec<f32> {
    p.coordinates().into_iter().map(|(x, y)| p.get_pixel(x, y)).collect()
}

#[test]
fn diamond_sample_test() {
    //  0  0 10
    // 10 12  X
    //  0  0 10
    let size = 3i32;
    let mut test_sample = grid(vec![0.0f32, 0.0f32, 10.0f32, 10.0f32, 12.0f32, 0.0f32, 0.0f32, 0.0f32, 10.0f32], size as u32);
    let (x, y): (i32, i32) = (2, 1);
    let rand_value = 5.0f32;
    diamond_sample(&mut test_sample, x, y, size / 2, &mean_plus(rand_value));
    assert_eq!(15.5, test_sample.get_pixel(x as u32, y as u32));
}

#[test]
fn square_sample_test() {
    // 10 12 0
    // 0  0  X
    // 10 10 0
    let size = 3i32;
    let mut test_sample = grid(vec![10.0f32, 12.0f32, 0.0f32, 0.0f32, 0.0f32, 0.0f32, 10.0f32, 10.0f32, 0.0f32], size as u32);
    let (x, y): (i32, i32) = (2, 1);
    let rand_value = 5.0f32;
    square_sample(&mut test_sample, x, y, size / 2, &mean_plus(rand_value));
    assert_eq!(15.5, test_sample.get_pixel(x as u32, y as u32));
}

#[test]
fn set_sample_test() {
    let mut test_sample = grid(vec![1.0, 2.0, 3.0, 4.0], 2);
    let (x, y) = (0, 0);
    let expected = 5.0;
    set_sample(&mut test_sample, x, y, expected);
    assert_eq!(expected, test_sample.get_pixel(x as u32, y as u32));
}

#[test]
fn samples_only_change_the_target_cell() {
    let mut p = grid(vec![0.0, 0.0, 10.0, 10.0, 12.0, 0.0, 0.0, 0.0, 10.0], 3);
    diamond_sample(&mut p, 2, 1, 1, &mean_plus(5.0));
    assert_eq!(samples(&p), vec![0.0, 0.0, 10.0, 10.0, 12.0, 15.5, 0.0, 0.0, 10.0]);
}

#[test]
fn sampler_receives_the_half_step() {
    let mut p = grid(vec![1.0; 25], 5);
    square_sample(&mut p, 2, 2, 2, &|_a, _b, _c, _d, half| half as f32 * 100.0);
    assert_eq!(p.get_pixel(2, 2), 200.0);
}

#[test]
fn wraparound_sample_reads_opposite_edge() {
    let p = grid(vec![1.0, 2.0, 3.0, 4.0, 5.0, 6.0, 7.0, 8.0, 9.0], 3);
    assert_eq!(sample(&p, -1, 0), 3.0);
    assert_eq!(sample(&p, 0, -1), 7.0);
    assert_eq!(sample(&p, 3, 3), 1.0);
    assert_eq!(sample(&p, -4, 5), 9.0);
}

#[test]
fn wraparound_sample_has_period_side() {
    let p = grid(vec![1.0, 2.0, 3.0, 4.0, 5.0, 6.0, 7.0, 8.0, 9.0], 3);
    for x in -2..3i32 {
        for y in -2..3i32 {
            for k in -3..4i32 {
                assert_eq!(sample(&p, x + 3 * k, y), sample(&p, x, y));
                assert_eq!(sample(&p, x, y + 3 * k), sample(&p, x, y));
            }
        }
    }
}

#[test]
fn construct_side_is_power_of_two_plus_one() {
    for detail in 0..7u32 {
        let p = construct_with(detail, 1000.0f32, 0.0f32, mean_plus(0.5));
        assert_eq!(p.size(), 2u32.pow(detail) + 1);
    }
}

#[test]
fn construct_writes_every_cell() {
    let fill = -1.0f32;
    for detail in 0..7u32 {
        let p = construct_with(detail, 1000.0f32, fill, |a, b, c, d, half| (a + b + c + d) / 4.0 + half as f32);
        for v in samples(&p) {
            assert_ne!(v, fill);
        }
    }
}

#[test]
fn construct_detail_zero_is_the_four_seeds() {
    let p = construct_with(0, 1000.0f32, 0.0f32, mean_plus(3.0));
    assert_eq!(samples(&p), vec![1000.0; 4]);
}

#[test]
fn construct_without_noise_detail_one() {
    let p = construct_with(1, 1000.0f32, 0.0f32, mean_plus(0.0));
    assert_eq!(samples(&p), vec![1000.0, 750.0, 1000.0, 750.0, 1000.0, 937.5, 1000.0, 937.5, 1000.0]);
}

#[test]
fn construct_without_noise_detail_two() {
    let p = construct_with(2, 1000.0f32, 0.0f32, mean_plus(0.0));
    let expected = vec![
        1000.0, 656.25, 750.0, 656.25, 1000.0, //
        656.25, 875.0, 875.0, 875.0, 820.3125, //
        750.0, 875.0, 1000.0, 875.0, 750.0, //
        656.25, 875.0, 875.0, 875.0, 820.3125, //
        1000.0, 820.3125, 750.0, 820.3125, 1000.0,
    ];
    assert_eq!(samples(&p), expected);
}

#[test]
fn construct_keeps_seeded_corners() {
    let p = construct_with(3, 1000.0f32, 0.0f32, mean_plus(7.0));
    let m = p.size() - 1;
    for (x, y) in [(0, 0), (m, 0), (0, m), (m, m)] {
        assert_eq!(p.get_pixel(x, y), 1000.0);
    }
}

/// The half step of the level at which `(x, y)` is filled, for a grid whose
/// largest coordinate is `max`.
fn level(x: u32, y: u32, max: u32) -> u32 {
    let mut h = max / 2;
    while h > 1 && !(x % h == 0 && y % h == 0) {
        h /= 2;
    }
    h
}

#[test]
fn construct_without_noise_cells_are_means_of_neighbours() {
    let p = construct_with(4, 1000.0f32, 0.0f32, mean_plus(0.0));
    let max = p.size() - 1;
    let mut checked = 0;
    for (x, y) in p.coordinates() {
        if (x == 0 || x == max) && (y == 0 || y == max) {
            assert_eq!(p.get_pixel(x, y), 1000.0);
            continue;
        }
        let h = level(x, y, max);
        let square = (x / h) % 2 == 1 && (y / h) % 2 == 1;
        let expected = if square {
            (p.get_pixel(x - h, y - h) + p.get_pixel(x + h, y - h) + p.get_pixel(x - h, y + h) + p.get_pixel(x + h, y + h)) / 4.0
        } else if x >= h && x + h <= max && y >= h && y + h <= max {
            (p.get_pixel(x, y - h) + p.get_pixel(x - h, y) + p.get_pixel(x + h, y) + p.get_pixel(x, y + h)) / 4.0
        } else {
            continue;
        };
        assert_eq!(p.get_pixel(x, y), expected, "cell ({}, {})", x, y);
        checked += 1;
    }
    assert!(checked > 100);
}

#[test]
fn construct_with_a_deterministic_sampler_is_repeatable() {
    let first = construct_with(5, 1000.0f32, 0.0f32, mean_plus(1.25));
    let second = construct_with(5, 1000.0f32, 0.0f32, mean_plus(1.25));
    assert_eq!(samples(&first), samples(&second));
}
