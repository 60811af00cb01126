//! The pixel kernel and the evaluators on the host.

use mandelbrot::kernel::{iterations_to_grayscale, mandelbro_impl};
use mandelbrot::raster::{naive, parallel, render_row};

/// The kernel in the machine's own binary32 arithmetic.
fn machine_grayscale(i: u32, max_iterations: u32) -> u8 {
    if i == max_iterations {
        return 0;
    }
    (i as f32 * 255f32 / max_iterations as f32).round() as u8
}

fn machine_pixel(r: u32, c: u32, h: u32, w: u32, max_iterations: u32) -> u8 {
    let x0 = ((c as f32) / (w as f32)) * 3.5 - 2.5;
    let y0 = ((r as f32) / (h as f32)) * 2.0 - 1.0;
    let mut x = 0f32;
    let mut y = 0f32;
    let mut iteration = 0;
    while x * x + y * y <= 4.0 && iteration < max_iterations {
        let xtemp = x * x - y * y + x0;
        y = 2.0 * x * y + y0;
        x = xtemp;
        iteration += 1;
    }
    machine_grayscale(iteration, max_iterations)
}

fn machine_raster(h: u32, w: u32, max_iterations: u32) -> Vec<u8> {
    let mut out = Vec::new();
    for r in 0..h {
        for c in 0..w {
            out.push(machine_pixel(r, c, h, w, max_iterations));
        }
    }
    out
}

#[test]
fn grayscale_matches_the_machine() {
    for max in [1u32, 2, 3, 7, 10, 100, 255, 256, 1000, 65_535, 16_777_217, u32::MAX] {
        for i in 0..=max.min(3000) {
            assert_eq!(iterations_to_grayscale(i, max), machine_grayscale(i, max), "{i} of {max}");
        }
        for back in 0..max.min(3000) {
            let i = max - back;
            assert_eq!(iterations_to_grayscale(i, max), machine_grayscale(i, max), "{i} of {max}");
        }
    }
}

#[test]
fn grayscale_exact_values() {
    assert_eq!(iterations_to_grayscale(0, 10), 0);
    // 25.5 rounds away from zero
    assert_eq!(iterations_to_grayscale(1, 10), 26);
    assert_eq!(iterations_to_grayscale(5, 10), 128);
    // 229.5
    assert_eq!(iterations_to_grayscale(9, 10), 230);
    assert_eq!(iterations_to_grayscale(10, 10), 0);
    assert_eq!(iterations_to_grayscale(1, 1000), 0);
    assert_eq!(iterations_to_grayscale(2, 1000), 1);
    assert_eq!(iterations_to_grayscale(500, 1000), 128);
}

#[test]
fn grayscale_reaches_full_scale_just_under_the_bound() {
    assert_eq!(iterations_to_grayscale(999, 1000), 255);
    assert_eq!(iterations_to_grayscale(1000, 1000), 0);
    assert_eq!(iterations_to_grayscale(254, 255), 254);
    assert_eq!(iterations_to_grayscale(511, 512), 255);
}

#[test]
fn grayscale_does_not_decrease_with_the_count() {
    for max in [1u32, 3, 10, 254, 255, 256, 1000, 4099] {
        let mut last = 0u8;
        for i in 0..max {
            let g = iterations_to_grayscale(i, max);
            assert!(g >= last, "{i} of {max}");
            last = g;
        }
    }
}

#[test]
fn grayscale_with_no_iterations_allowed() {
    assert_eq!(iterations_to_grayscale(0, 0), 0);
    assert_eq!(iterations_to_grayscale(3, 0), machine_grayscale(3, 0));
    assert_eq!(iterations_to_grayscale(3, 0), 255);
}

#[test]
fn pixel_matches_the_machine() {
    for (h, w, max) in [(1u32, 1u32, 1u32), (2, 7, 50), (16, 28, 100), (33, 17, 64), (40, 70, 30)] {
        for r in 0..h {
            for c in 0..w {
                assert_eq!(
                    mandelbro_impl(r, c, h, w, max),
                    machine_pixel(r, c, h, w, max),
                    "({r}, {c}) of {h} x {w}, {max}"
                );
            }
        }
    }
}

#[test]
fn pixel_outside_the_image_matches_the_machine() {
    for (r, c, h, w, max) in [
        (5u32, 9u32, 2u32, 3u32, 20u32),
        (u32::MAX, u32::MAX, 1, 1, 5),
        (0, 0, 0, 0, 5),
        (1, 1, 0, 0, 5),
        (0, 3, 4, 0, 5),
        (3, 0, 0, 4, 5),
        (2, 2, 4, 4, 0),
    ] {
        assert_eq!(mandelbro_impl(r, c, h, w, max), machine_pixel(r, c, h, w, max));
    }
}

#[test]
fn origin_never_escapes() {
    // column 5 of 7 and row 1 of 2 stand for the point (0, 0)
    assert_eq!((5f32 / 7f32) * 3.5 - 2.5, 0.0);
    for max in [1u32, 2, 10, 100, 1000] {
        assert_eq!(mandelbro_impl(1, 5, 2, 7, max), 0);
        assert_eq!(mandelbro_impl(50, 500, 100, 700, max), 0);
    }
}

#[test]
fn far_point_escapes_after_one_step() {
    // column 0 stands for the real part -2.5, which lies outside the circle
    // of radius 2: the orbit escapes after its first step
    assert_eq!(mandelbro_impl(1, 0, 2, 7, 10), 26);
    assert_eq!(mandelbro_impl(1, 0, 2, 7, 10), iterations_to_grayscale(1, 10));
    assert_eq!(mandelbro_impl(1, 0, 2, 7, 100), 3);
    assert_eq!(mandelbro_impl(1, 0, 2, 7, 2), 128);
    // with one step allowed the orbit has not escaped when the steps run out
    assert_eq!(mandelbro_impl(1, 0, 2, 7, 1), 0);
}

#[test]
fn naive_matches_the_machine() {
    for (h, w, max) in [(1u32, 1u32, 1u32), (3, 5, 10), (16, 28, 40), (9, 31, 25)] {
        assert_eq!(naive(h, w, max), machine_raster(h, w, max));
    }
}

#[test]
fn naive_of_an_empty_image_is_empty() {
    assert_eq!(naive(0, 5, 10), Vec::<u8>::new());
    assert_eq!(naive(5, 0, 10), Vec::<u8>::new());
    assert_eq!(parallel(0, 5, 10), Vec::<u8>::new());
    assert_eq!(parallel(5, 0, 10), Vec::<u8>::new());
}

#[test]
fn naive_is_row_major() {
    let (h, w, max) = (6u32, 11u32, 30u32);
    let image = naive(h, w, max);
    assert_eq!(image.len(), (h * w) as usize);
    for idx in 0..h * w {
        let (r, c) = (idx / w, idx % w);
        assert_eq!(r * w + c, idx);
        assert_eq!(image[idx as usize], mandelbro_impl(r, c, h, w, max));
    }
}

#[test]
fn parallel_equals_naive() {
    for h in 1..12u32 {
        for w in 1..12u32 {
            for max in [1u32, 2, 17] {
                assert_eq!(parallel(h, w, max), naive(h, w, max), "{h} x {w}, {max}");
            }
        }
    }
    assert_eq!(parallel(37, 64, 50), naive(37, 64, 50));
}

#[test]
fn parallel_keeps_the_rows_in_order() {
    let (h, w, max) = (23u32, 40u32, 60u32);
    let image = parallel(h, w, max);
    for r in 0..h {
        let row = render_row(r, h, w, max);
        assert_eq!(&image[(r * w) as usize..((r + 1) * w) as usize], &row[..]);
    }
    // the rows differ, so an image with its rows out of order would differ
    assert_ne!(render_row(0, h, w, max), render_row(h / 2, h, w, max));
}
