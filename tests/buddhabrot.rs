use buddhabrot::fixed::{fx_mul, rand_range, SCALE, XMAX, XMIN, YMAX, YMIN};
use buddhabrot::histogram::{
    accumulate_orbit, accumulate_sample, accumulate_samples, cell_index, max_count, new_histogram,
};
use buddhabrot::orbit::escape_orbit;
use buddhabrot::pgm::{encode_pgm, push_decimal};
use buddhabrot::rng::{Rng, FALLBACK_SEED};
use buddhabrot::sampler::buddhabrot;

#[test]
fn fixed_point_products_round_down() {
    assert_eq!(fx_mul(SCALE, SCALE), SCALE);
    assert_eq!(fx_mul(2 * SCALE, 3 * SCALE), 6 * SCALE);
    assert_eq!(fx_mul(-1, 1), -1);
    assert_eq!(fx_mul(1, 1), 0);
    assert_eq!(fx_mul(-SCALE, 3), -3);
    assert_eq!(fx_mul(SCALE / 2, SCALE / 2), SCALE / 4);
}

#[test]
fn rand_range_maps_draws_onto_half_open_range() {
    assert_eq!(rand_range(XMIN, XMAX, 0), XMIN);
    assert_eq!(rand_range(XMIN, XMAX, 1u32 << 31), -SCALE / 2);
    assert_eq!(rand_range(XMIN, XMAX, u32::MAX), XMAX - 3);
    assert_eq!(rand_range(YMIN, YMAX, 1u32 << 31), 0);
}

#[test]
fn zero_sample_never_escapes() {
    let o = escape_orbit(0, 0, 50);
    assert!(!o.escaped);
    assert_eq!(o.points.len(), 50);
    assert!(o.points.iter().all(|&p| p == (0, 0)));
}

#[test]
fn zero_sample_adds_nothing() {
    let mut hist = new_histogram(100);
    accumulate_sample(&mut hist, 10, 10, 1000, 0, 0);
    assert!(hist.iter().all(|&v| v == 0));
    let hist = accumulate_samples(10, 10, 50, &vec![(0, 0), (0, 0), (-SCALE / 4, 0)]);
    assert!(hist.iter().all(|&v| v == 0));
}

#[test]
fn one_escapes_at_third_step() {
    let o = escape_orbit(SCALE, 0, 1000);
    assert!(o.escaped);
    assert_eq!(o.points, vec![(SCALE, 0), (2 * SCALE, 0), (5 * SCALE, 0)]);
    let (x, y) = *o.points.last().unwrap();
    let mag = (x as i128) * (x as i128) + (y as i128) * (y as i128);
    assert!(mag > 4 * (SCALE as i128) * (SCALE as i128));
}

#[test]
fn orbit_cut_short_by_step_bound() {
    let o = escape_orbit(SCALE, 0, 2);
    assert!(!o.escaped);
    assert_eq!(o.points, vec![(SCALE, 0), (2 * SCALE, 0)]);
    let o = escape_orbit(SCALE, 0, 0);
    assert!(!o.escaped);
    assert!(o.points.is_empty());
}

#[test]
fn imaginary_unit_orbit_is_periodic() {
    // c = i: 0 -> i -> -1 + i -> -i -> -1 + i -> ...
    let o = escape_orbit(0, SCALE, 5);
    assert!(!o.escaped);
    assert_eq!(
        o.points,
        vec![(0, SCALE), (-SCALE, SCALE), (0, -SCALE), (-SCALE, SCALE), (0, -SCALE)]
    );
}

#[test]
fn cell_index_maps_window_to_grid() {
    assert_eq!(cell_index(3, 3, XMIN, YMIN), Some(0));
    assert_eq!(cell_index(3, 3, 0, 0), Some(5));
    assert_eq!(cell_index(3, 3, XMAX - 1, YMAX - 1), Some(8));
    assert_eq!(cell_index(1000, 1000, 0, 0), Some(500 * 1000 + 666));
}

#[test]
fn cell_index_rejects_border_pixel_and_outside_points() {
    assert_eq!(cell_index(3, 3, XMAX, 0), None);
    assert_eq!(cell_index(3, 3, 0, YMAX), None);
    assert_eq!(cell_index(3, 3, XMIN - 1, 0), None);
    assert_eq!(cell_index(3, 3, 0, YMAX + 1), None);
    assert_eq!(cell_index(0, 0, 0, 0), None);
}

#[test]
fn accumulate_orbit_counts_points_on_grid() {
    let mut hist = new_histogram(9);
    let points = vec![(XMIN, YMIN), (0, 0), (XMAX + 1, 0), (0, 0), (XMAX, YMAX)];
    accumulate_orbit(&mut hist, 3, 3, &points);
    assert_eq!(hist, vec![1, 0, 0, 0, 0, 2, 0, 0, 0]);
}

#[test]
fn accumulate_sample_counts_escaping_orbit() {
    let mut hist = new_histogram(9);
    accumulate_sample(&mut hist, 3, 3, 1000, SCALE, 0);
    // (1, 0) lies on the right border and maps to column 3, off the grid;
    // (2, 0) and (5, 0) lie outside the window.
    assert_eq!(hist, vec![0; 9]);
    let mut hist = new_histogram(16);
    accumulate_sample(&mut hist, 4, 4, 1000, XMIN, 0);
    // c = -2: 0 -> -2 -> 2 -> 2 ... never escapes
    assert_eq!(hist, vec![0; 16]);
    let mut hist = new_histogram(9);
    accumulate_sample(&mut hist, 3, 3, 1000, XMIN, YMIN);
    // c = -2 - 1.5i escapes at the first step: z1 = c lies on the window's corner.
    assert_eq!(hist, vec![1, 0, 0, 0, 0, 0, 0, 0, 0]);
}

#[test]
fn generator_is_xorshift() {
    let mut r = Rng::new(1);
    assert_eq!(r.next_u32(), 0);
    assert_eq!(r.state(), 1082269761);
    assert_eq!(Rng::new(0).state(), FALLBACK_SEED);
    let mut a = Rng::new(42);
    let mut b = Rng::new(42);
    for _ in 0..100 {
        assert_eq!(a.next_u32(), b.next_u32());
    }
}

#[test]
fn fixed_seed_run_is_reproducible() {
    let mut a = Rng::new(12345);
    let mut b = Rng::new(12345);
    let h1 = buddhabrot(10, 10, 100, 50, &mut a);
    let h2 = buddhabrot(10, 10, 100, 50, &mut b);
    assert_eq!(h1.len(), 100);
    assert_eq!(h1, h2);
    assert_eq!(encode_pgm(10, 10, max_count(&h1), &h1), encode_pgm(10, 10, max_count(&h2), &h2));
    assert_eq!(a.state(), b.state());
    assert!(h1.iter().any(|&v| v > 0));
    assert!(h1.iter().all(|&v| v <= 100 * 50));
}

#[test]
fn run_matches_samples_drawn_by_hand() {
    let mut r = Rng::new(7);
    let mut cs = Vec::new();
    for _ in 0..200 {
        let cr = rand_range(XMIN, XMAX, r.next_u32());
        let ci = rand_range(YMIN, YMAX, r.next_u32());
        cs.push((cr, ci));
    }
    let expected = accumulate_samples(12, 8, 40, &cs);
    let mut r2 = Rng::new(7);
    assert_eq!(buddhabrot(12, 8, 200, 40, &mut r2), expected);
    assert_eq!(r2.state(), r.state());
}

#[test]
fn counts_bounded_by_samples_times_steps() {
    let mut r = Rng::new(99);
    let hist = buddhabrot(20, 20, 300, 20, &mut r);
    assert!(hist.iter().all(|&v| v <= 300 * 20));
    let total: u64 = hist.iter().map(|&v| v as u64).sum();
    assert!(total <= 300 * 20);
}

#[test]
fn max_of_zero_histogram_is_zero() {
    assert_eq!(max_count(&new_histogram(25)), 0);
    assert_eq!(max_count(&Vec::new()), 0);
}

#[test]
fn max_after_single_increment_is_at_least_one() {
    let mut hist = new_histogram(25);
    hist[13] += 1;
    assert_eq!(max_count(&hist), 1);
    assert_eq!(max_count(&vec![3, 7, 2, 7, 0]), 7);
}

#[test]
fn decimal_digits() {
    let mut out = Vec::new();
    push_decimal(&mut out, 0);
    assert_eq!(out, b"0".to_vec());
    let mut out = b"x".to_vec();
    push_decimal(&mut out, 1234567890);
    assert_eq!(out, b"x1234567890".to_vec());
    let mut out = Vec::new();
    push_decimal(&mut out, u64::MAX);
    assert_eq!(out, u64::MAX.to_string().into_bytes());
}

#[test]
fn encode_small_image() {
    let text = encode_pgm(2, 1, 7, &vec![0, 7]);
    assert_eq!(text, b"P2\n2 1\n7\n0 7 ".to_vec());
    let text = encode_pgm(0, 0, 0, &Vec::new());
    assert_eq!(text, b"P2\n0 0\n0\n".to_vec());
    let text = encode_pgm(3, 2, 12, &vec![1, 0, 12, 10, 5, 0]);
    assert_eq!(text, b"P2\n3 2\n12\n1 0 12 10 5 0 ".to_vec());
}
