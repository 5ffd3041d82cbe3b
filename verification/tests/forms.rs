use stampform::distance_field::closest_mark_d2;
use stampform::distance_field::compute_negative_form;
use stampform::distance_field::distance_um;
use stampform::fade::fade_fn;
use stampform::fade::MAX_SAMPLE;
use stampform::grid::Grid;
use stampform::math::isqrt;
use stampform::offset_synthesis::compute_positive_form;

#[test]
fn fade_endpoints() {
    // fade distance 4.5 mm = 4500 um
    assert_eq!(fade_fn(0, 4500), 0);
    assert_eq!(fade_fn(4500, 4500), MAX_SAMPLE);
    assert_eq!(fade_fn(10000, 4500), MAX_SAMPLE);
}

#[test]
fn fade_midpoint() {
    // at half the fade distance the ease curve sits exactly halfway:
    // floor(65535 * (3/8 f^3 + ... ) / f^3) = floor(65535 / 2)
    assert_eq!(fade_fn(2250, 4500), 32767);
}

#[test]
fn fade_monotone() {
    let mut prev = 0u16;
    let mut d = 0u64;
    while d <= 4500 {
        let s = fade_fn(d, 4500);
        assert!(s >= prev);
        prev = s;
        d += 45;
    }
    assert_eq!(prev, MAX_SAMPLE);
}

#[test]
fn distance_conversion() {
    // 3-4-5 triangle at 100 um per pixel
    assert_eq!(distance_um(25, 100), 500);
    // sqrt(2) at 1000 um per pixel: floor(1414.21...)
    assert_eq!(distance_um(2, 1000), 1414);
    assert_eq!(distance_um(0, 100), 0);
    assert_eq!(isqrt(49), 7);
    assert_eq!(isqrt(48), 6);
}

#[test]
fn closest_mark_in_window() {
    let mut g = Grid::new(5, 5);
    for y in 0..5 {
        for x in 0..5 {
            g.set(x, y, MAX_SAMPLE);
        }
    }
    g.set(1, 1, 0);
    // fade 1 mm at 1 mm per pixel: window reaches one pixel out
    assert_eq!(closest_mark_d2(&g, 1, 1, 1000, 1000), Some(0));
    assert_eq!(closest_mark_d2(&g, 2, 1, 1000, 1000), Some(1));
    assert_eq!(closest_mark_d2(&g, 2, 2, 1000, 1000), Some(2));
    // the mark is outside this pixel's window
    assert_eq!(closest_mark_d2(&g, 4, 4, 1000, 1000), None);
}

#[test]
fn negative_form_all_white_without_marks() {
    let mut g = Grid::new(3, 3);
    for y in 0..3 {
        for x in 0..3 {
            g.set(x, y, MAX_SAMPLE);
        }
    }
    let neg = compute_negative_form(&g, 4500, 100);
    for y in 0..3 {
        for x in 0..3 {
            assert_eq!(neg.get(x, y), MAX_SAMPLE);
        }
    }
}

#[test]
fn negative_form_single_mark_center() {
    // 5x5 all white, center black; fade 1 mm, 1 mm per pixel
    let mut g = Grid::new(5, 5);
    for y in 0..5 {
        for x in 0..5 {
            g.set(x, y, MAX_SAMPLE);
        }
    }
    g.set(2, 2, 0);
    let neg = compute_negative_form(&g, 1000, 1000);
    // center stays at the mark value
    assert_eq!(neg.get(2, 2), 0);
    // the four direct neighbors sit exactly at the fade distance
    assert_eq!(neg.get(1, 2), MAX_SAMPLE);
    assert_eq!(neg.get(3, 2), MAX_SAMPLE);
    assert_eq!(neg.get(2, 1), MAX_SAMPLE);
    assert_eq!(neg.get(2, 3), MAX_SAMPLE);
    // diagonals lie beyond the fade range
    assert_eq!(neg.get(1, 1), MAX_SAMPLE);
    assert_eq!(neg.get(3, 3), MAX_SAMPLE);
    assert_eq!(neg.get(0, 0), MAX_SAMPLE);
}

#[test]
fn negative_form_monotone_from_mark() {
    // wider fade: samples grow with the distance from the mark
    let mut g = Grid::new(9, 9);
    for y in 0..9 {
        for x in 0..9 {
            g.set(x, y, MAX_SAMPLE);
        }
    }
    g.set(4, 4, 0);
    let neg = compute_negative_form(&g, 4000, 1000);
    assert_eq!(neg.get(4, 4), 0);
    // walking right from the (mirrored) center, samples never fall
    let mut prev = 0u16;
    for x in 4..9 {
        let s = neg.get(x, 4);
        assert!(s >= prev);
        prev = s;
    }
    // a strict rise within the fade range
    assert!(neg.get(5, 4) > neg.get(4, 4));
    assert!(neg.get(6, 4) > neg.get(5, 4));
}

#[test]
fn positive_form_flat_negative() {
    // a negative form of all zeros: no punch anywhere, so the positive
    // height is exactly zero (full white) at every pixel
    let neg = Grid::new(3, 3);
    let pos = compute_positive_form(&neg, 2500, 700, 100);
    for y in 0..3 {
        for x in 0..3 {
            assert_eq!(pos.get(x, y), MAX_SAMPLE);
        }
    }
}

#[test]
fn positive_form_single_peak_falloff() {
    // a single full-height pixel at the center of a 7x7 zero field;
    // depth 2.5 mm, thickness 0.7 mm, 0.1 mm per pixel
    let mut neg = Grid::new(7, 7);
    neg.set(3, 3, MAX_SAMPLE);
    let pos = compute_positive_form(&neg, 2500, 700, 100);
    // at the center the full depth is demanded: height 2.5 mm -> sample 0
    assert_eq!(pos.get(3, 3), 0);
    // one pixel out: z = 2500 + floor(sqrt(700^2 - 100^2)) = 2500 + 692
    // height 2492 um -> sample 65535 - 2492 * 65535 / 2500 = 210
    assert_eq!(pos.get(2, 3), 210);
    assert_eq!(pos.get(4, 3), 210);
    assert_eq!(pos.get(3, 2), 210);
    // corner at squared distance 18: z = 2500 + floor(sqrt(490000 - 180000))
    // = 2500 + 556, height 2356 um -> sample 3775
    assert_eq!(pos.get(0, 0), 3775);
    assert_eq!(pos.get(6, 6), 3775);
}

#[test]
fn positive_form_vanishes_beyond_thickness() {
    // coarse pixels: 0.3 mm per pixel, thickness 0.7 mm, so the scan
    // disk holds only offsets with squared distance at most 5
    let mut neg = Grid::new(7, 7);
    neg.set(3, 3, MAX_SAMPLE);
    let pos = compute_positive_form(&neg, 2500, 700, 300);
    // distance 3 pixels = 0.9 mm > 0.7 mm: no contribution, height 0
    assert_eq!(pos.get(0, 3), MAX_SAMPLE);
    assert_eq!(pos.get(3, 0), MAX_SAMPLE);
    // the center still demands the full depth
    assert_eq!(pos.get(3, 3), 0);
}

#[test]
fn pipeline_deterministic() {
    let mut g = Grid::new(6, 4);
    for y in 0..4 {
        for x in 0..6 {
            g.set(x, y, MAX_SAMPLE);
        }
    }
    g.set(1, 2, 0);
    g.set(4, 1, 0);
    let neg1 = compute_negative_form(&g, 2000, 500);
    let neg2 = compute_negative_form(&g, 2000, 500);
    assert!(neg1.grid_eq(&neg2));
    let pos1 = compute_positive_form(&neg1, 2500, 700, 500);
    let pos2 = compute_positive_form(&neg2, 2500, 700, 500);
    assert!(pos1.grid_eq(&pos2));
}

#[test]
fn end_to_end_scenario() {
    // 5x5 all-white input, center pixel 0; fade 1.0 mm, 1.0 px per mm
    let mut g = Grid::new(5, 5);
    for y in 0..5 {
        for x in 0..5 {
            g.set(x, y, MAX_SAMPLE);
        }
    }
    g.set(2, 2, 0);
    let neg = compute_negative_form(&g, 1000, 1000);
    assert_eq!(neg.get(2, 2), 0);
    for (x, y) in [(1, 2), (3, 2), (2, 1), (2, 3)] {
        assert_eq!(neg.get(x, y), MAX_SAMPLE);
    }
    for (x, y) in [(0, 0), (1, 1), (3, 1), (1, 3), (3, 3), (4, 4), (0, 4), (4, 0)] {
        assert_eq!(neg.get(x, y), MAX_SAMPLE);
    }
    // the positive form of that negative form is well defined everywhere
    let pos = compute_positive_form(&neg, 2500, 700, 1000);
    assert_eq!(pos.width(), 5);
    assert_eq!(pos.height(), 5);
    let pos2 = compute_positive_form(&neg, 2500, 700, 1000);
    assert!(pos.grid_eq(&pos2));
}
